use crate::aux_types::intersects;
use crate::aux_types::share_a_tx;
use crate::aux_types::TxId;
use crate::aux_types::Vision;
use crate::aux_types::VisionMap;
use crate::hashed_order::distinct_txs;
use crate::hashed_order::rearranged;
use vstd::prelude::*;
use vstd::seq_lib::lemma_seq_contains_after_push;

verus! {

/// `b` is among the transactions that `a` conflicts with.
pub open spec fn conflict(g: VisionMap, a: TxId, b: TxId) -> bool {
    g.contains_key(a) && g[a].0.contains(b)
}

/// The conflicts form a graph: no transaction conflicts with itself, and
/// whatever a transaction conflicts with is known and conflicts with it too.
pub open spec fn coherent(g: VisionMap) -> bool {
    forall|a: TxId, b: TxId| #[trigger] conflict(g, a, b) ==> a != b && conflict(g, b, a)
}

/// The opinion vector likes `tx`.
pub open spec fn likes(opinions: Seq<(TxId, bool)>, tx: TxId) -> bool {
    opinions.contains((tx, true))
}

/// `tx` conflicts with a transaction that the opinion vector likes.
pub open spec fn blocked(g: VisionMap, opinions: Seq<(TxId, bool)>, tx: TxId) -> bool {
    exists|j: int|
        0 <= j < opinions.len() && (#[trigger] opinions[j]).1 && conflict(g, tx, opinions[j].0)
}

/// No liked transaction conflicts with a liked transaction.
pub open spec fn independent(g: VisionMap, opinions: Seq<(TxId, bool)>) -> bool {
    forall|i: int|
        0 <= i < opinions.len() && (#[trigger] opinions[i]).1 ==> !blocked(g, opinions, opinions[i].0)
}

/// Every transaction that is not liked conflicts with a liked one, so none
/// can be added to the liked set.
pub open spec fn maximal(g: VisionMap, opinions: Seq<(TxId, bool)>) -> bool {
    forall|i: int|
        0 <= i < opinions.len() && !(#[trigger] opinions[i]).1 ==> blocked(g, opinions, opinions[i].0)
}

/// One step of the pruning pass: the transaction at place `i` stops being
/// liked if it conflicts with a transaction that is liked at that moment.
pub open spec fn elim_step(g: VisionMap, s: Seq<(TxId, bool)>, i: int) -> Seq<(TxId, bool)> {
    if s[i].1 && blocked(g, s, s[i].0) {
        s.update(i, (s[i].0, false))
    } else {
        s
    }
}

/// The pruning pass from place `i` to the end of the vector.
pub open spec fn elim_from(g: VisionMap, s: Seq<(TxId, bool)>, i: int) -> Seq<(TxId, bool)>
    decreases s.len() - i,
{
    if 0 <= i < s.len() {
        elim_from(g, elim_step(g, s, i), i + 1)
    } else {
        s
    }
}

/// The pruning pass over a vector that is already in the round's order.
pub open spec fn elim_pass(g: VisionMap, s: Seq<(TxId, bool)>) -> Seq<(TxId, bool)> {
    elim_from(g, s, 0)
}

/// One step of the completing pass: the transaction at place `i` becomes
/// liked if it conflicts with no transaction that is liked at that moment.
pub open spec fn comp_step(g: VisionMap, s: Seq<(TxId, bool)>, i: int) -> Seq<(TxId, bool)> {
    if !s[i].1 && !blocked(g, s, s[i].0) {
        s.update(i, (s[i].0, true))
    } else {
        s
    }
}

/// The completing pass from place `i` to the end of the vector.
pub open spec fn comp_from(g: VisionMap, s: Seq<(TxId, bool)>, i: int) -> Seq<(TxId, bool)>
    decreases s.len() - i,
{
    if 0 <= i < s.len() {
        comp_from(g, comp_step(g, s, i), i + 1)
    } else {
        s
    }
}

/// The completing pass over a vector that is already in the round's order.
pub open spec fn comp_pass(g: VisionMap, s: Seq<(TxId, bool)>) -> Seq<(TxId, bool)> {
    comp_from(g, s, 0)
}

/// The pruning pass keeps the transactions and their places, leaves the
/// places before `i` alone, and never makes a transaction liked.
pub proof fn lemma_elim_shape(g: VisionMap, s: Seq<(TxId, bool)>, i: int)
    requires
        0 <= i <= s.len(),
    ensures
        elim_from(g, s, i).len() == s.len(),
        forall|j: int|
            0 <= j < s.len() ==> (#[trigger] elim_from(g, s, i)[j]).0 == s[j].0 && (elim_from(
                g,
                s,
                i,
            )[j].1 ==> s[j].1),
        forall|j: int| 0 <= j < i ==> #[trigger] elim_from(g, s, i)[j] == s[j],
    decreases s.len() - i,
{
    if i < s.len() {
        lemma_elim_shape(g, elim_step(g, s, i), i + 1);
    }
}

/// The completing pass keeps the transactions and their places, leaves the
/// places before `i` alone, and never takes a like away.
pub proof fn lemma_comp_shape(g: VisionMap, s: Seq<(TxId, bool)>, i: int)
    requires
        0 <= i <= s.len(),
    ensures
        comp_from(g, s, i).len() == s.len(),
        forall|j: int|
            0 <= j < s.len() ==> (#[trigger] comp_from(g, s, i)[j]).0 == s[j].0 && (s[j].1
                ==> comp_from(g, s, i)[j].1),
        forall|j: int| 0 <= j < i ==> #[trigger] comp_from(g, s, i)[j] == s[j],
    decreases s.len() - i,
{
    if i < s.len() {
        lemma_comp_shape(g, comp_step(g, s, i), i + 1);
    }
}

/// The liked transactions before place `i` conflict with no liked one.
spec fn unblocked_before(g: VisionMap, s: Seq<(TxId, bool)>, i: int) -> bool {
    forall|a: int| 0 <= a < i && (#[trigger] s[a]).1 ==> !blocked(g, s, s[a].0)
}

proof fn lemma_elim_from_independent(g: VisionMap, s: Seq<(TxId, bool)>, i: int)
    requires
        0 <= i <= s.len(),
        unblocked_before(g, s, i),
    ensures
        independent(g, elim_from(g, s, i)),
    decreases s.len() - i,
{
    if i < s.len() {
        let s2 = elim_step(g, s, i);
        assert forall|a: int| 0 <= a < i + 1 && (#[trigger] s2[a]).1 implies !blocked(
            g,
            s2,
            s2[a].0,
        ) by {
            if blocked(g, s2, s2[a].0) {
                let j = choose|j: int|
                    0 <= j < s2.len() && (#[trigger] s2[j]).1 && conflict(g, s2[a].0, s2[j].0);
                assert(s[j].1 && conflict(g, s[a].0, s[j].0));
                assert(blocked(g, s, s[a].0));
                assert(s[a].1);
            }
        }
        lemma_elim_from_independent(g, s2, i + 1);
    }
}

/// What the pruning pass leaves liked is an independent set.
pub proof fn lemma_elim_independent(g: VisionMap, s: Seq<(TxId, bool)>)
    ensures
        independent(g, elim_pass(g, s)),
{
    lemma_elim_from_independent(g, s, 0);
}

/// On a liked set that is already independent the pruning pass changes nothing.
pub proof fn lemma_elim_keeps_independent(g: VisionMap, s: Seq<(TxId, bool)>, i: int)
    requires
        independent(g, s),
    ensures
        elim_from(g, s, i) == s,
    decreases s.len() - i,
{
    if 0 <= i < s.len() {
        assert(elim_step(g, s, i) == s);
        lemma_elim_keeps_independent(g, s, i + 1);
    }
}

/// The transactions before place `i` that are not liked conflict with a liked one.
spec fn blocked_before(g: VisionMap, s: Seq<(TxId, bool)>, i: int) -> bool {
    forall|a: int| 0 <= a < i && !(#[trigger] s[a]).1 ==> blocked(g, s, s[a].0)
}

proof fn lemma_comp_from_maximal(g: VisionMap, s: Seq<(TxId, bool)>, i: int)
    requires
        0 <= i <= s.len(),
        blocked_before(g, s, i),
    ensures
        maximal(g, comp_from(g, s, i)),
    decreases s.len() - i,
{
    if i < s.len() {
        let s2 = comp_step(g, s, i);
        assert forall|a: int| 0 <= a < i + 1 && !(#[trigger] s2[a]).1 implies blocked(
            g,
            s2,
            s2[a].0,
        ) by {
            assert(!s[a].1);
            assert(blocked(g, s, s[a].0));
            let j = choose|j: int|
                0 <= j < s.len() && (#[trigger] s[j]).1 && conflict(g, s[a].0, s[j].0);
            assert(s2[j].1 && conflict(g, s2[a].0, s2[j].0));
        }
        lemma_comp_from_maximal(g, s2, i + 1);
    }
}

/// After the completing pass no transaction can be added to the liked set.
pub proof fn lemma_comp_maximal(g: VisionMap, s: Seq<(TxId, bool)>)
    ensures
        maximal(g, comp_pass(g, s)),
{
    lemma_comp_from_maximal(g, s, 0);
}

/// The completing pass keeps an independent liked set independent.
pub proof fn lemma_comp_independent(g: VisionMap, s: Seq<(TxId, bool)>, i: int)
    requires
        coherent(g),
        independent(g, s),
        0 <= i <= s.len(),
    ensures
        independent(g, comp_from(g, s, i)),
    decreases s.len() - i,
{
    if i < s.len() {
        let s2 = comp_step(g, s, i);
        assert forall|a: int| 0 <= a < s2.len() && (#[trigger] s2[a]).1 implies !blocked(
            g,
            s2,
            s2[a].0,
        ) by {
            if blocked(g, s2, s2[a].0) {
                let j = choose|j: int|
                    0 <= j < s2.len() && (#[trigger] s2[j]).1 && conflict(g, s2[a].0, s2[j].0);
                if a != i && j != i {
                    assert(s[j].1 && conflict(g, s[a].0, s[j].0));
                    assert(s[a].1);
                } else if a == i && j != i {
                    assert(s[j].1 && conflict(g, s[i].0, s[j].0));
                } else if a != i && j == i {
                    assert(conflict(g, s[i].0, s[a].0));
                    assert(s[a].1);
                } else {
                    assert(conflict(g, s[i].0, s[i].0));
                }
            }
        }
        lemma_comp_independent(g, s2, i + 1);
    }
}

/// On a liked set to which nothing can be added the completing pass changes nothing.
pub proof fn lemma_comp_keeps_maximal(g: VisionMap, s: Seq<(TxId, bool)>, i: int)
    requires
        maximal(g, s),
    ensures
        comp_from(g, s, i) == s,
    decreases s.len() - i,
{
    if 0 <= i < s.len() {
        assert(comp_step(g, s, i) == s);
        lemma_comp_keeps_maximal(g, s, i + 1);
    }
}

/// Whether a transaction is blocked does not depend on the order of the vector.
pub proof fn lemma_rearranged_blocked(
    g: VisionMap,
    a: Seq<(TxId, bool)>,
    b: Seq<(TxId, bool)>,
    tx: TxId,
)
    requires
        rearranged(a, b),
    ensures
        blocked(g, a, tx) == blocked(g, b, tx),
{
    if blocked(g, a, tx) {
        let j = choose|j: int| 0 <= j < a.len() && (#[trigger] a[j]).1 && conflict(g, tx, a[j].0);
        assert(a.contains(a[j]));
        let k = choose|k: int| 0 <= k < b.len() && b[k] == a[j];
        assert(b[k].1 && conflict(g, tx, b[k].0));
    }
    if blocked(g, b, tx) {
        let j = choose|j: int| 0 <= j < b.len() && (#[trigger] b[j]).1 && conflict(g, tx, b[j].0);
        assert(b.contains(b[j]));
        let k = choose|k: int| 0 <= k < a.len() && a[k] == b[j];
        assert(a[k].1 && conflict(g, tx, a[k].0));
    }
}

/// Independence and maximality do not depend on the order of the vector.
pub proof fn lemma_rearranged_sets(g: VisionMap, a: Seq<(TxId, bool)>, b: Seq<(TxId, bool)>)
    requires
        rearranged(a, b),
    ensures
        independent(g, a) == independent(g, b),
        maximal(g, a) == maximal(g, b),
{
    assert forall|i: int| 0 <= i < b.len() implies a.contains(#[trigger] b[i]) by {
        assert(b.contains(b[i]));
    }
    assert forall|i: int| 0 <= i < a.len() implies b.contains(#[trigger] a[i]) by {
        assert(a.contains(a[i]));
    }
    if independent(g, a) {
        assert forall|i: int| 0 <= i < b.len() && (#[trigger] b[i]).1 implies !blocked(
            g,
            b,
            b[i].0,
        ) by {
            let k = choose|k: int| 0 <= k < a.len() && a[k] == b[i];
            lemma_rearranged_blocked(g, a, b, b[i].0);
        }
    }
    if independent(g, b) {
        assert forall|i: int| 0 <= i < a.len() && (#[trigger] a[i]).1 implies !blocked(
            g,
            a,
            a[i].0,
        ) by {
            let k = choose|k: int| 0 <= k < b.len() && b[k] == a[i];
            lemma_rearranged_blocked(g, a, b, a[i].0);
        }
    }
    if maximal(g, a) {
        assert forall|i: int| 0 <= i < b.len() && !(#[trigger] b[i]).1 implies blocked(
            g,
            b,
            b[i].0,
        ) by {
            let k = choose|k: int| 0 <= k < a.len() && a[k] == b[i];
            lemma_rearranged_blocked(g, a, b, b[i].0);
        }
    }
    if maximal(g, b) {
        assert forall|i: int| 0 <= i < a.len() && !(#[trigger] a[i]).1 implies blocked(
            g,
            a,
            a[i].0,
        ) by {
            let k = choose|k: int| 0 <= k < b.len() && b[k] == a[i];
            lemma_rearranged_blocked(g, a, b, a[i].0);
        }
    }
}

/// The transactions that the opinion vector likes.
fn liked_txs(opinions: &Vec<(TxId, bool)>) -> (liked: Vec<TxId>)
    ensures
        forall|tx: TxId| liked@.contains(tx) <==> likes(opinions@, tx),
{
    let mut liked: Vec<TxId> = Vec::new();
    let mut i: usize = 0;
    while i < opinions.len()
        invariant
            i <= opinions.len(),
            forall|tx: TxId| liked@.contains(tx) <==> likes(opinions@.take(i as int), tx),
        decreases opinions.len() - i,
    {
        let ghost before = liked@;
        let ghost prev = opinions@.take(i as int);
        if opinions[i].1 {
            liked.push(opinions[i].0);
        }
        proof {
            let now = opinions@.take(i + 1);
            assert(now == prev.push(opinions@[i as int]));
            assert forall|tx: TxId| liked@.contains(tx) <==> likes(now, tx) by {
                lemma_seq_contains_after_push(prev, opinions@[i as int], (tx, true));
                lemma_seq_contains_after_push(before, opinions@[i as int].0, tx);
                assert(before.contains(tx) <==> likes(prev, tx));
            }
        }
        i += 1;
    }
    assert(opinions@.take(i as int) == opinions@);
    liked
}

/// Takes every occurrence of `tx` out of the list.
fn remove_tx(list: &mut Vec<TxId>, tx: TxId)
    ensures
        forall|t: TxId| final(list)@.contains(t) <==> old(list)@.contains(t) && t != tx,
{
    let mut kept: Vec<TxId> = Vec::new();
    let mut i: usize = 0;
    while i < list.len()
        invariant
            i <= list.len(),
            forall|t: TxId| kept@.contains(t) <==> list@.take(i as int).contains(t) && t != tx,
        decreases list.len() - i,
    {
        let ghost before = kept@;
        let ghost prev = list@.take(i as int);
        if list[i] != tx {
            kept.push(list[i]);
        }
        proof {
            let now = list@.take(i + 1);
            assert(now == prev.push(list@[i as int]));
            assert forall|t: TxId| kept@.contains(t) <==> now.contains(t) && t != tx by {
                lemma_seq_contains_after_push(prev, list@[i as int], t);
                lemma_seq_contains_after_push(before, list@[i as int], t);
                assert(before.contains(t) <==> prev.contains(t) && t != tx);
            }
        }
        i += 1;
    }
    assert(list@.take(i as int) == list@);
    *list = kept;
}

/// With the liked transactions at hand, `tx` is blocked exactly if its
/// conflicts and the liked transactions have one in common.
proof fn lemma_blocked_by_list(
    g: VisionMap,
    opinions: Seq<(TxId, bool)>,
    tx: TxId,
    liked: Seq<TxId>,
)
    requires
        g.contains_key(tx),
        forall|t: TxId| liked.contains(t) <==> likes(opinions, t),
    ensures
        share_a_tx(g[tx].0, liked) == blocked(g, opinions, tx),
{
    if share_a_tx(g[tx].0, liked) {
        let (p, q) = choose|p: int, q: int|
            0 <= p < g[tx].0.len() && 0 <= q < liked.len() && g[tx].0[p] == liked[q];
        let t = liked[q];
        assert(liked.contains(t));
        let j = choose|j: int| 0 <= j < opinions.len() && opinions[j] == (t, true);
        assert(opinions[j].1 && conflict(g, tx, opinions[j].0));
    }
    if blocked(g, opinions, tx) {
        let j = choose|j: int|
            0 <= j < opinions.len() && (#[trigger] opinions[j]).1 && conflict(g, tx, opinions[j].0);
        let t = opinions[j].0;
        assert(opinions[j] == (t, true));
        assert(likes(opinions, t));
        let q = choose|q: int| 0 <= q < liked.len() && liked[q] == t;
        let p = choose|p: int| 0 <= p < g[tx].0.len() && g[tx].0[p] == t;
        assert(g[tx].0[p] == liked[q]);
    }
}

/// The pruning pass: walks the vector in its order and takes the like from
/// each liked transaction that conflicts with one that is liked just then.
pub fn prune(vision: &Vision, opinions: &mut Vec<(TxId, bool)>)
    requires
        vision.wf(),
        distinct_txs(old(opinions)@),
        forall|i: int| 0 <= i < old(opinions)@.len() ==> vision@.contains_key(old(opinions)@[i].0),
    ensures
        final(opinions)@ == elim_pass(vision@, old(opinions)@),
{
    let mut liked_set = liked_txs(opinions);
    let ghost start = opinions@;
    let mut i: usize = 0;
    while i < opinions.len()
        invariant
            vision.wf(),
            i <= opinions@.len(),
            opinions@.len() == start.len(),
            distinct_txs(opinions@),
            forall|j: int| 0 <= j < opinions@.len() ==> vision@.contains_key(opinions@[j].0),
            forall|tx: TxId| liked_set@.contains(tx) <==> likes(opinions@, tx),
            elim_from(vision@, opinions@, i as int) == elim_pass(vision@, start),
        decreases opinions@.len() - i,
    {
        let (txid, opinion) = opinions[i];
        let ghost before = opinions@;
        if opinion {
            let conflicts = vision.get_conflict_set(&txid);
            proof {
                lemma_blocked_by_list(vision@, before, txid, liked_set@);
            }
            if intersects(conflicts.get(), &liked_set) {
                opinions[i] = (txid, false);
                remove_tx(&mut liked_set, txid);
                proof {
                    assert(opinions@ == before.update(i as int, (txid, false)));
                    assert forall|tx: TxId| liked_set@.contains(tx) <==> likes(opinions@, tx) by {
                        if likes(opinions@, tx) {
                            let m = choose|m: int|
                                0 <= m < opinions@.len() && opinions@[m] == (tx, true);
                            assert(before[m] == (tx, true));
                            assert(before.contains((tx, true)));
                        }
                        if likes(before, tx) && tx != txid {
                            let m = choose|m: int| 0 <= m < before.len() && before[m] == (tx, true);
                            assert(opinions@[m] == (tx, true));
                        }
                    }
                }
            }
        }
        assert(opinions@ == elim_step(vision@, before, i as int));
        i += 1;
    }
}

/// The completing pass: walks the vector in its order and likes each
/// transaction that conflicts with none that is liked just then.
pub fn complete(vision: &Vision, opinions: &mut Vec<(TxId, bool)>)
    requires
        vision.wf(),
        distinct_txs(old(opinions)@),
        forall|i: int| 0 <= i < old(opinions)@.len() ==> vision@.contains_key(old(opinions)@[i].0),
    ensures
        final(opinions)@ == comp_pass(vision@, old(opinions)@),
{
    let mut liked_set = liked_txs(opinions);
    let ghost start = opinions@;
    let mut i: usize = 0;
    while i < opinions.len()
        invariant
            vision.wf(),
            i <= opinions@.len(),
            opinions@.len() == start.len(),
            distinct_txs(opinions@),
            forall|j: int| 0 <= j < opinions@.len() ==> vision@.contains_key(opinions@[j].0),
            forall|tx: TxId| liked_set@.contains(tx) <==> likes(opinions@, tx),
            comp_from(vision@, opinions@, i as int) == comp_pass(vision@, start),
        decreases opinions@.len() - i,
    {
        let (txid, opinion) = opinions[i];
        let ghost before = opinions@;
        if !opinion {
            let conflicts = vision.get_conflict_set(&txid);
            proof {
                lemma_blocked_by_list(vision@, before, txid, liked_set@);
            }
            if !intersects(conflicts.get(), &liked_set) {
                opinions[i] = (txid, true);
                let ghost liked_before = liked_set@;
                liked_set.push(txid);
                proof {
                    assert(opinions@ == before.update(i as int, (txid, true)));
                    assert forall|tx: TxId| liked_set@.contains(tx) <==> likes(opinions@, tx) by {
                        lemma_seq_contains_after_push(liked_before, txid, tx);
                        assert(liked_before.contains(tx) <==> likes(before, tx));
                        if likes(opinions@, tx) {
                            let m = choose|m: int|
                                0 <= m < opinions@.len() && opinions@[m] == (tx, true);
                            if m != i {
                                assert(before[m] == (tx, true));
                            }
                        }
                        if likes(before, tx) {
                            let m = choose|m: int| 0 <= m < before.len() && before[m] == (tx, true);
                            assert(opinions@[m] == (tx, true));
                        }
                        if tx == txid {
                            assert(opinions@[i as int] == (tx, true));
                        }
                    }
                }
            }
        }
        assert(opinions@ == comp_step(vision@, before, i as int));
        i += 1;
    }
}

} // verus!
