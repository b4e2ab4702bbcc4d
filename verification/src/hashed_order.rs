use crate::aux_types::TxId;
use std::collections::hash_map::DefaultHasher;
use std::hash::Hasher;
use vstd::bytes::spec_u32_to_le_bytes;
use vstd::bytes::u32_to_le_bytes;
use vstd::prelude::*;
use vstd::std_specs::hash::DefaultHasherAdditionalSpecFns;

verus! {

/// The 64-bit key of a transaction under a round's random number: the
/// standard hasher, started afresh, fed the little-endian bytes of the
/// identifier and then those of the random number.
pub open spec fn hash_key(id: TxId, random_number: u32) -> u64 {
    DefaultHasher::spec_finish(
        seq![spec_u32_to_le_bytes(id.0), spec_u32_to_le_bytes(random_number)],
    )
}

/// Computes `hash_key`.
pub fn hashed_key(id: TxId, random_number: u32) -> (key: u64)
    ensures
        key == hash_key(id, random_number),
{
    let mut hasher = DefaultHasher::new();
    let id_bytes = u32_to_le_bytes(id.0);
    let random_bytes = u32_to_le_bytes(random_number);
    hasher.write(id_bytes.as_slice());
    hasher.write(random_bytes.as_slice());
    assert(hasher@ =~= seq![
        spec_u32_to_le_bytes(id.0),
        spec_u32_to_le_bytes(random_number),
    ]);
    hasher.finish()
}

/// The order of keys, with the identifier deciding between equal keys.
/// With `descending` the larger key comes first; between equal keys the
/// smaller identifier comes first either way.
pub open spec fn key_before(descending: bool, key_a: u64, a: TxId, key_b: u64, b: TxId) -> bool {
    if key_a == key_b {
        a.0 < b.0
    } else if descending {
        key_a > key_b
    } else {
        key_a < key_b
    }
}

/// Whether `a` comes before `b` in the round's order of transactions.
pub open spec fn ranks_before(random_number: u32, descending: bool, a: TxId, b: TxId) -> bool {
    key_before(descending, hash_key(a, random_number), a, hash_key(b, random_number), b)
}

/// Each transaction of the sequence comes before all that follow it.
pub open spec fn in_hashed_order(txs: Seq<TxId>, random_number: u32, descending: bool) -> bool {
    forall|i: int, j: int|
        0 <= i < j < txs.len() ==> ranks_before(random_number, descending, txs[i], txs[j])
}

/// The transactions that an opinion vector speaks of, in its order.
pub open spec fn tx_ids(opinions: Seq<(TxId, bool)>) -> Seq<TxId> {
    opinions.map_values(|p: (TxId, bool)| p.0)
}

/// No transaction occurs twice in the opinion vector.
pub open spec fn distinct_txs(opinions: Seq<(TxId, bool)>) -> bool {
    forall|i: int, j: int| 0 <= i < j < opinions.len() ==> opinions[i].0 != opinions[j].0
}

/// The two vectors hold the same opinions, possibly in another order.
pub open spec fn rearranged(a: Seq<(TxId, bool)>, b: Seq<(TxId, bool)>) -> bool {
    &&& a.len() == b.len()
    &&& distinct_txs(a)
    &&& distinct_txs(b)
    &&& forall|p: (TxId, bool)| a.contains(p) <==> b.contains(p)
}

/// The two vectors speak of the same transactions.
pub open spec fn same_txs(a: Seq<(TxId, bool)>, b: Seq<(TxId, bool)>) -> bool {
    forall|tx: TxId| tx_ids(a).contains(tx) <==> tx_ids(b).contains(tx)
}

/// Vectors that hold the same opinions speak of the same transactions.
pub proof fn lemma_rearranged_same_txs(a: Seq<(TxId, bool)>, b: Seq<(TxId, bool)>)
    requires
        rearranged(a, b),
    ensures
        same_txs(a, b),
{
    assert forall|tx: TxId| tx_ids(a).contains(tx) <==> tx_ids(b).contains(tx) by {
        if tx_ids(a).contains(tx) {
            let i = choose|i: int| 0 <= i < a.len() && tx_ids(a)[i] == tx;
            assert(a.contains(a[i]));
            let j = choose|j: int| 0 <= j < b.len() && b[j] == a[i];
            assert(tx_ids(b)[j] == tx);
        }
        if tx_ids(b).contains(tx) {
            let i = choose|i: int| 0 <= i < b.len() && tx_ids(b)[i] == tx;
            assert(b.contains(b[i]));
            let j = choose|j: int| 0 <= j < a.len() && a[j] == b[i];
            assert(tx_ids(a)[j] == tx);
        }
    }
}

/// The opinions put into the round's order of transactions.
pub open spec fn arranged(opinions: Seq<(TxId, bool)>, random_number: u32, descending: bool) -> Seq<
    (TxId, bool),
> {
    choose|s: Seq<(TxId, bool)>|
        rearranged(opinions, s) && in_hashed_order(tx_ids(s), random_number, descending)
}

/// Under one random number the order of a set of transactions is fixed:
/// two listings of the same transactions that are both in the round's
/// order are the same listing.
pub proof fn lemma_hashed_order_is_unique(
    a: Seq<TxId>,
    b: Seq<TxId>,
    random_number: u32,
    descending: bool,
)
    requires
        in_hashed_order(a, random_number, descending),
        in_hashed_order(b, random_number, descending),
        forall|tx: TxId| a.contains(tx) <==> b.contains(tx),
    ensures
        a == b,
    decreases a.len(),
{
    if a.len() == 0 {
        if b.len() > 0 {
            assert(b.contains(b[0]));
        }
        assert(a =~= b);
    } else {
        assert(a.contains(a[0]));
        let k = choose|k: int| 0 <= k < b.len() && b[k] == a[0];
        assert(b.contains(b[0]));
        let m = choose|m: int| 0 <= m < a.len() && a[m] == b[0];
        if k > 0 && m > 0 {
            assert(ranks_before(random_number, descending, b[0], b[k]));
            assert(ranks_before(random_number, descending, a[0], a[m]));
        }
        assert(a[0] == b[0]);
        let at = a.drop_first();
        let bt = b.drop_first();
        assert forall|tx: TxId| at.contains(tx) <==> bt.contains(tx) by {
            if at.contains(tx) {
                let i = choose|i: int| 0 <= i < at.len() && at[i] == tx;
                assert(a[i + 1] == tx);
                assert(ranks_before(random_number, descending, a[0], a[i + 1]));
                assert(a.contains(tx));
                let j = choose|j: int| 0 <= j < b.len() && b[j] == tx;
                assert(bt[j - 1] == tx);
            }
            if bt.contains(tx) {
                let i = choose|i: int| 0 <= i < bt.len() && bt[i] == tx;
                assert(b[i + 1] == tx);
                assert(ranks_before(random_number, descending, b[0], b[i + 1]));
                assert(b.contains(tx));
                let j = choose|j: int| 0 <= j < a.len() && a[j] == tx;
                assert(at[j - 1] == tx);
            }
        }
        assert forall|i: int, j: int| 0 <= i < j < at.len() implies ranks_before(
            random_number,
            descending,
            at[i],
            at[j],
        ) by {
            assert(ranks_before(random_number, descending, a[i + 1], a[j + 1]));
        }
        assert forall|i: int, j: int| 0 <= i < j < bt.len() implies ranks_before(
            random_number,
            descending,
            bt[i],
            bt[j],
        ) by {
            assert(ranks_before(random_number, descending, b[i + 1], b[j + 1]));
        }
        lemma_hashed_order_is_unique(at, bt, random_number, descending);
        assert(a =~= seq![a[0]] + at);
        assert(b =~= seq![b[0]] + bt);
    }
}

/// Opinions on distinct transactions have one arrangement in the round's
/// order, so whatever is such an arrangement is `arranged`.
pub proof fn lemma_arranged(
    opinions: Seq<(TxId, bool)>,
    s: Seq<(TxId, bool)>,
    random_number: u32,
    descending: bool,
)
    requires
        rearranged(opinions, s),
        in_hashed_order(tx_ids(s), random_number, descending),
    ensures
        s == arranged(opinions, random_number, descending),
{
    let t = arranged(opinions, random_number, descending);
    assert(rearranged(opinions, t) && in_hashed_order(tx_ids(t), random_number, descending));
    assert forall|tx: TxId| tx_ids(s).contains(tx) <==> tx_ids(t).contains(tx) by {
        if tx_ids(s).contains(tx) {
            let i = choose|i: int| 0 <= i < s.len() && tx_ids(s)[i] == tx;
            assert(s.contains(s[i]));
            assert(t.contains(s[i]));
            let j = choose|j: int| 0 <= j < t.len() && t[j] == s[i];
            assert(tx_ids(t)[j] == tx);
        }
        if tx_ids(t).contains(tx) {
            let i = choose|i: int| 0 <= i < t.len() && tx_ids(t)[i] == tx;
            assert(t.contains(t[i]));
            assert(s.contains(t[i]));
            let j = choose|j: int| 0 <= j < s.len() && s[j] == t[i];
            assert(tx_ids(s)[j] == tx);
        }
    }
    lemma_hashed_order_is_unique(tx_ids(s), tx_ids(t), random_number, descending);
    assert forall|i: int| 0 <= i < s.len() implies s[i] == t[i] by {
        assert(tx_ids(s)[i] == tx_ids(t)[i]);
        assert(s.contains(s[i]));
        assert(t.contains(s[i]));
        let j = choose|j: int| 0 <= j < t.len() && t[j] == s[i];
        if j != i {
            assert(t[j].0 == t[i].0);
        }
    }
    assert(s =~= t);
}

/// The place at which an opinion on `tx` goes into a vector that is in the
/// round's order and does not speak of `tx`: all before it come before
/// `tx`, and `tx` comes before all from there on.
proof fn lemma_place_in_order(
    a: Seq<(TxId, bool)>,
    tx: TxId,
    random_number: u32,
    descending: bool,
    from: int,
) -> (place: int)
    requires
        in_hashed_order(tx_ids(a), random_number, descending),
        forall|j: int| 0 <= j < a.len() ==> (#[trigger] a[j]).0 != tx,
        0 <= from <= a.len(),
        forall|j: int|
            0 <= j < from ==> ranks_before(random_number, descending, (#[trigger] a[j]).0, tx),
    ensures
        from <= place <= a.len(),
        forall|j: int|
            0 <= j < place ==> ranks_before(random_number, descending, (#[trigger] a[j]).0, tx),
        forall|j: int|
            place <= j < a.len() ==> ranks_before(random_number, descending, tx, (#[trigger] a[j]).0),
    decreases a.len() - from,
{
    if from < a.len() && ranks_before(random_number, descending, a[from].0, tx) {
        lemma_place_in_order(a, tx, random_number, descending, from + 1)
    } else {
        assert forall|j: int| from <= j < a.len() implies ranks_before(
            random_number,
            descending,
            tx,
            (#[trigger] a[j]).0,
        ) by {
            assert(a[from].0 != tx);
            if from < j {
                assert(ranks_before(random_number, descending, tx_ids(a)[from], tx_ids(a)[j]));
            }
        }
        from
    }
}

/// Opinions on distinct transactions can be put into the round's order.
proof fn lemma_arrangement(opinions: Seq<(TxId, bool)>, random_number: u32, descending: bool) -> (a: Seq<
    (TxId, bool),
>)
    requires
        distinct_txs(opinions),
    ensures
        rearranged(opinions, a),
        in_hashed_order(tx_ids(a), random_number, descending),
    decreases opinions.len(),
{
    if opinions.len() == 0 {
        opinions
    } else {
        let front = opinions.drop_last();
        let last = opinions.last();
        assert forall|i: int, j: int| 0 <= i < j < front.len() implies front[i].0 != front[j].0 by {
            assert(front[i] == opinions[i] && front[j] == opinions[j]);
        }
        let sorted = lemma_arrangement(front, random_number, descending);
        assert forall|j: int| 0 <= j < sorted.len() implies (#[trigger] sorted[j]).0 != last.0 by {
            assert(sorted.contains(sorted[j]));
            let k = choose|k: int| 0 <= k < front.len() && front[k] == sorted[j];
            assert(opinions[k].0 != opinions[opinions.len() - 1].0);
        }
        let place = lemma_place_in_order(sorted, last.0, random_number, descending, 0);
        let a = sorted.insert(place, last);
        assert forall|i: int, j: int| 0 <= i < j < a.len() implies ranks_before(
            random_number,
            descending,
            tx_ids(a)[i],
            tx_ids(a)[j],
        ) by {
            let x = if i < place { sorted[i] } else if i == place { last } else { sorted[i - 1] };
            let y = if j < place { sorted[j] } else if j == place { last } else { sorted[j - 1] };
            assert(a[i] == x && a[j] == y);
            if i != place && j != place {
                let p = if i < place { i } else { i - 1 };
                let q = if j < place { j } else { j - 1 };
                assert(ranks_before(random_number, descending, tx_ids(sorted)[p], tx_ids(sorted)[q]));
            }
        }
        assert forall|i: int, j: int| 0 <= i < j < a.len() implies a[i].0 != a[j].0 by {
            assert(ranks_before(random_number, descending, tx_ids(a)[i], tx_ids(a)[j]));
        }
        assert forall|p: (TxId, bool)| opinions.contains(p) <==> a.contains(p) by {
            if opinions.contains(p) {
                let k = choose|k: int| 0 <= k < opinions.len() && opinions[k] == p;
                if k < front.len() {
                    assert(front[k] == p);
                    assert(front.contains(p));
                    let m = choose|m: int| 0 <= m < sorted.len() && sorted[m] == p;
                    if m < place {
                        assert(a[m] == p);
                    } else {
                        assert(a[m + 1] == p);
                    }
                } else {
                    assert(a[place] == p);
                }
            }
            if a.contains(p) {
                let m = choose|m: int| 0 <= m < a.len() && a[m] == p;
                if m == place {
                    assert(opinions[opinions.len() - 1] == p);
                } else {
                    let q = if m < place { m } else { m - 1 };
                    assert(sorted[q] == p);
                    assert(sorted.contains(p));
                    let k = choose|k: int| 0 <= k < front.len() && front[k] == p;
                    assert(opinions[k] == p);
                }
            }
        }
        a
    }
}

/// `arranged` is what it says for every vector on distinct transactions:
/// the same opinions, in the round's order.
pub proof fn lemma_arranged_is_arrangement(
    opinions: Seq<(TxId, bool)>,
    random_number: u32,
    descending: bool,
)
    requires
        distinct_txs(opinions),
    ensures
        rearranged(opinions, arranged(opinions, random_number, descending)),
        in_hashed_order(
            tx_ids(arranged(opinions, random_number, descending)),
            random_number,
            descending,
        ),
{
    let a = lemma_arrangement(opinions, random_number, descending);
    lemma_arranged(opinions, a, random_number, descending);
}

fn goes_before(descending: bool, key_a: u64, a: TxId, key_b: u64, b: TxId) -> (r: bool)
    ensures
        r == key_before(descending, key_a, a, key_b, b),
{
    if key_a == key_b {
        a.0 < b.0
    } else if descending {
        key_a > key_b
    } else {
        key_a < key_b
    }
}

/// Keys and transactions are in order, each before all that follow.
spec fn keyed_in_order(keyed: Seq<(u64, TxId, bool)>, descending: bool) -> bool {
    forall|a: int, b: int|
        0 <= a < b < keyed.len() ==> key_before(
            descending,
            (#[trigger] keyed[a]).0,
            keyed[a].1,
            (#[trigger] keyed[b]).0,
            keyed[b].1,
        )
}

/// Puts `entry` at its place among entries that are in order.
fn insert_in_order(keyed: &mut Vec<(u64, TxId, bool)>, entry: (u64, TxId, bool), descending: bool) -> (at:
    usize)
    requires
        keyed_in_order(old(keyed)@, descending),
        forall|j: int| 0 <= j < old(keyed)@.len() ==> (#[trigger] old(keyed)@[j]).1 != entry.1,
    ensures
        at <= old(keyed)@.len(),
        final(keyed)@ == old(keyed)@.insert(at as int, entry),
        keyed_in_order(final(keyed)@, descending),
{
    let mut at: usize = 0;
    while at < keyed.len() && !goes_before(descending, entry.0, entry.1, keyed[at].0, keyed[at].1)
        invariant
            at <= keyed@.len(),
            forall|j: int|
                0 <= j < at ==> !key_before(
                    descending,
                    entry.0,
                    entry.1,
                    (#[trigger] keyed@[j]).0,
                    keyed@[j].1,
                ),
        decreases keyed@.len() - at,
    {
        at += 1;
    }
    let ghost before = keyed@;
    keyed.insert(at, entry);
    proof {
        assert forall|a: int, b: int| 0 <= a < b < keyed@.len() implies key_before(
            descending,
            (#[trigger] keyed@[a]).0,
            keyed@[a].1,
            (#[trigger] keyed@[b]).0,
            keyed@[b].1,
        ) by {
            let x = if a < at { before[a] } else if a == at { entry } else { before[a - 1] };
            let y = if b < at { before[b] } else if b == at { entry } else { before[b - 1] };
            assert(keyed@[a] == x);
            assert(keyed@[b] == y);
            if b == at {
                assert(x.1 != entry.1);
            } else if a == at {
                assert(before[at as int].1 != entry.1);
            }
        }
    }
    at
}

/// Puts the opinions into the round's order of transactions.
pub fn sort_by_hash(opinions: &mut Vec<(TxId, bool)>, random_number: u32, descending: bool)
    requires
        distinct_txs(old(opinions)@),
    ensures
        final(opinions)@ == arranged(old(opinions)@, random_number, descending),
        rearranged(old(opinions)@, final(opinions)@),
        in_hashed_order(tx_ids(final(opinions)@), random_number, descending),
{
    let mut keyed: Vec<(u64, TxId, bool)> = Vec::new();
    let ghost mut source: Seq<int> = Seq::empty();
    let ghost mut place: Seq<int> = Seq::empty();
    let mut i: usize = 0;
    while i < opinions.len()
        invariant
            i <= opinions.len(),
            distinct_txs(opinions@),
            keyed@.len() == i,
            source.len() == i,
            place.len() == i,
            keyed_in_order(keyed@, descending),
            forall|j: int|
                0 <= j < i ==> (#[trigger] keyed@[j]).0 == hash_key(keyed@[j].1, random_number),
            forall|j: int|
                0 <= j < i ==> 0 <= #[trigger] source[j] < i && opinions@[source[j]] == (
                    keyed@[j].1,
                    keyed@[j].2,
                ),
            forall|m: int|
                0 <= m < i ==> 0 <= #[trigger] place[m] < i && opinions@[m] == (
                    keyed@[place[m]].1,
                    keyed@[place[m]].2,
                ),
        decreases opinions.len() - i,
    {
        let item = opinions[i];
        let key = hashed_key(item.0, random_number);
        proof {
            assert forall|j: int| 0 <= j < i implies (#[trigger] keyed@[j]).1 != item.0 by {
                assert(opinions@[source[j]].0 != opinions@[i as int].0);
            }
        }
        let ghost before = keyed@;
        let at = insert_in_order(&mut keyed, (key, item.0, item.1), descending);
        proof {
            let old_source = source;
            let old_place = place;
            source = old_source.insert(at as int, i as int);
            place = Seq::new(
                (i + 1) as nat,
                |m: int|
                    if m == i {
                        at as int
                    } else if old_place[m] < at {
                        old_place[m]
                    } else {
                        old_place[m] + 1
                    },
            );
            assert forall|j: int| 0 <= j <= i implies 0 <= #[trigger] source[j] <= i
                && opinions@[source[j]] == (keyed@[j].1, keyed@[j].2) by {
                if j < at {
                    assert(keyed@[j] == before[j]);
                    assert(source[j] == old_source[j]);
                } else if j > at {
                    assert(keyed@[j] == before[j - 1]);
                    assert(source[j] == old_source[j - 1]);
                }
            }
            assert forall|j: int| 0 <= j <= i implies (#[trigger] keyed@[j]).0 == hash_key(
                keyed@[j].1,
                random_number,
            ) by {
                if j < at {
                    assert(keyed@[j] == before[j]);
                } else if j > at {
                    assert(keyed@[j] == before[j - 1]);
                }
            }
            assert forall|m: int| 0 <= m <= i implies 0 <= #[trigger] place[m] <= i && opinions@[m]
                == (keyed@[place[m]].1, keyed@[place[m]].2) by {
                if m < i {
                    if old_place[m] < at {
                        assert(keyed@[old_place[m]] == before[old_place[m]]);
                    } else {
                        assert(keyed@[old_place[m] + 1] == before[old_place[m]]);
                    }
                }
            }
        }
        i += 1;
    }
    let mut sorted: Vec<(TxId, bool)> = Vec::new();
    let mut n: usize = 0;
    while n < keyed.len()
        invariant
            n <= keyed@.len(),
            sorted@.len() == n,
            forall|j: int| 0 <= j < n ==> #[trigger] sorted@[j] == (keyed@[j].1, keyed@[j].2),
        decreases keyed@.len() - n,
    {
        sorted.push((keyed[n].1, keyed[n].2));
        n += 1;
    }
    proof {
        let before = opinions@;
        let after = sorted@;
        assert forall|a: int, b: int| 0 <= a < b < after.len() implies ranks_before(
            random_number,
            descending,
            tx_ids(after)[a],
            tx_ids(after)[b],
        ) by {
            assert(key_before(descending, keyed@[a].0, keyed@[a].1, keyed@[b].0, keyed@[b].1));
        }
        assert forall|a: int, b: int| 0 <= a < b < after.len() implies after[a].0 != after[b].0 by {
            assert(ranks_before(random_number, descending, tx_ids(after)[a], tx_ids(after)[b]));
        }
        assert forall|p: (TxId, bool)| before.contains(p) <==> after.contains(p) by {
            if before.contains(p) {
                let m = choose|m: int| 0 <= m < before.len() && before[m] == p;
                assert(after[place[m]] == p);
            }
            if after.contains(p) {
                let j = choose|j: int| 0 <= j < after.len() && after[j] == p;
                assert(before[source[j]] == p);
            }
        }
        lemma_arranged(before, after, random_number, descending);
    }
    *opinions = sorted;
}

} // verus!
