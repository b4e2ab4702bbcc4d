use crate::aux_types::Opinion;
use crate::aux_types::TxGlobalStatus;
use crate::aux_types::TxId;
use crate::aux_types::Vision;
use crate::aux_types::VisionMap;
use crate::hashed_order::distinct_txs;
use crate::liked_set::comp_pass;
use crate::liked_set::complete;
use crate::liked_set::lemma_comp_shape;
use crate::liked_set::likes;
use vstd::prelude::*;

verus! {

/// The number of initial likes that the carrying transaction at place `i`
/// gets when the honest nodes are shared out evenly: the quotient for each,
/// and one more for the first ones until the remainder is used up.
pub open spec fn share(honest: nat, carriers: nat, i: int) -> nat {
    honest / carriers + if i < honest % carriers {
        1nat
    } else {
        0nat
    }
}

/// The carrying transactions, each with its number of initial likes. Where
/// there are fewer transactions than carriers, the list ends with the
/// transactions.
pub open spec fn proportions(ids: Seq<TxId>, honest: nat, carriers: nat) -> Seq<(TxId, usize)> {
    Seq::new(
        if ids.len() <= carriers {
            ids.len()
        } else {
            carriers
        },
        |i: int| (ids[i], share(honest, carriers, i) as usize),
    )
}

/// Each transaction of the list repeated as often as its number says.
pub open spec fn expanded(like_proportions: Seq<(TxId, usize)>) -> Seq<TxId>
    decreases like_proportions.len(),
{
    if like_proportions.len() == 0 {
        Seq::empty()
    } else {
        expanded(like_proportions.drop_last()) + Seq::new(
            like_proportions.last().1 as nat,
            |n: int| like_proportions.last().0,
        )
    }
}

/// The transaction that the honest node at place `j` likes from the start,
/// if the seeds reach that far.
pub open spec fn seed_of(seeds: Seq<TxId>, j: int) -> Option<TxId> {
    if 0 <= j < seeds.len() {
        Some(seeds[j])
    } else {
        None
    }
}

/// The vision in which the seed, if there is one, is liked and pending.
pub open spec fn seeded(common: VisionMap, seed: Option<TxId>) -> VisionMap {
    match seed {
        Some(tx) => common.insert(tx, (common[tx].0, Opinion::Pending(true, 0))),
        None => common,
    }
}

/// The likes of the vision, listed in the order of `keys`.
pub open spec fn liked_first(keys: Seq<TxId>, v: VisionMap) -> Seq<(TxId, bool)> {
    Seq::new(keys.len(), |t: int| (keys[t], v[keys[t]].1.like()))
}

/// The vision in which every opinion that was not set is pending: a like
/// where the completing pass over the vision's likes, in the order of
/// `keys`, likes the transaction, and a dislike elsewhere.
pub open spec fn filled(keys: Seq<TxId>, v: VisionMap) -> VisionMap {
    Map::new(
        |tx: TxId| v.contains_key(tx),
        |tx: TxId|
            if v[tx].1 is Unset {
                (v[tx].0, Opinion::Pending(likes(comp_pass(v, liked_first(keys, v)), tx), 0))
            } else {
                v[tx]
            },
    )
}

/// Computes `proportions` from the transactions, the number of honest
/// nodes and the number of transactions that carry initial likes.
pub fn like_proportions(
    tx_set: &Vec<(TxId, TxGlobalStatus)>,
    honest_node_count: usize,
    liked_tx_count: usize,
) -> (list: Vec<(TxId, usize)>)
    requires
        liked_tx_count > 0,
    ensures
        list@ == proportions(
            Seq::new(tx_set@.len(), |k: int| tx_set@[k].0),
            honest_node_count as nat,
            liked_tx_count as nat,
        ),
{
    let n: usize = honest_node_count / liked_tx_count;
    let remaining_likes: usize = honest_node_count % liked_tx_count;
    let ghost ids = Seq::new(tx_set@.len(), |k: int| tx_set@[k].0);
    let ghost target = proportions(ids, honest_node_count as nat, liked_tx_count as nat);
    let count: usize = if tx_set.len() <= liked_tx_count {
        tx_set.len()
    } else {
        liked_tx_count
    };
    let mut list: Vec<(TxId, usize)> = Vec::new();
    let mut i: usize = 0;
    while i < count
        invariant
            i <= count <= tx_set@.len(),
            count == target.len(),
            liked_tx_count > 0,
            n == honest_node_count / liked_tx_count,
            remaining_likes == honest_node_count % liked_tx_count,
            ids == Seq::new(tx_set@.len(), |k: int| tx_set@[k].0),
            target == proportions(ids, honest_node_count as nat, liked_tx_count as nat),
            list@.len() == i,
            forall|j: int| 0 <= j < i ==> list@[j] == target[j],
        decreases count - i,
    {
        let likes: usize = if i < remaining_likes {
            proof {
                let h = honest_node_count as int;
                let c = liked_tx_count as int;
                assert(2 * (h / c) <= h) by (nonlinear_arith)
                    requires
                        c >= 2,
                        h >= 0,
                ;
            }
            n + 1
        } else {
            n
        };
        list.push((tx_set[i].0, likes));
        i += 1;
    }
    assert(list@ =~= target);
    list
}

/// Computes `expanded`.
pub fn expand(like_proportions: &Vec<(TxId, usize)>) -> (seeds: Vec<TxId>)
    ensures
        seeds@ == expanded(like_proportions@),
{
    let mut seeds: Vec<TxId> = Vec::new();
    let mut i: usize = 0;
    while i < like_proportions.len()
        invariant
            i <= like_proportions@.len(),
            seeds@ == expanded(like_proportions@.take(i as int)),
        decreases like_proportions@.len() - i,
    {
        let (id, size) = like_proportions[i];
        let ghost front = seeds@;
        let mut n: usize = 0;
        while n < size
            invariant
                n <= size,
                seeds@ == front + Seq::new(n as nat, |m: int| id),
            decreases size - n,
        {
            seeds.push(id);
            n += 1;
            assert(seeds@ =~= front + Seq::new(n as nat, |m: int| id));
        }
        assert(like_proportions@.take(i + 1).drop_last() == like_proportions@.take(i as int));
        i += 1;
    }
    assert(like_proportions@.take(i as int) == like_proportions@);
    seeds
}

/// In a vector on distinct transactions, a transaction is liked exactly if
/// its entry says so.
pub proof fn lemma_likes_at(s: Seq<(TxId, bool)>, t: int)
    requires
        distinct_txs(s),
        0 <= t < s.len(),
    ensures
        likes(s, s[t].0) == s[t].1,
{
    if likes(s, s[t].0) {
        let m = choose|m: int| 0 <= m < s.len() && s[m] == (s[t].0, true);
        if m < t {
            assert(s[m].0 != s[t].0);
        } else if t < m {
            assert(s[t].0 != s[m].0);
        }
    }
    if s[t].1 {
        assert(s[t] == (s[t].0, true));
    }
}

/// Sets every opinion of the vision that is not set yet: walking the
/// transactions in increasing order of identifier, a transaction becomes
/// liked if it conflicts with none that is liked just then, and disliked
/// else. Opinions that are set stay as they are.
pub fn fill_opinions(vision: &mut Vision)
    requires
        old(vision).wf(),
    ensures
        final(vision).wf(),
        final(vision).keys() == old(vision).keys(),
        final(vision)@ == filled(old(vision).keys(), old(vision)@),
{
    let txs = vision.get_txs();
    let ghost keys = vision.keys();
    let ghost start = vision@;
    let ghost first = liked_first(keys, start);
    let mut opinions: Vec<(TxId, bool)> = Vec::new();
    let mut t: usize = 0;
    while t < txs.len()
        invariant
            t <= txs@.len(),
            txs@ == keys,
            vision.wf(),
            vision@ == start,
            Vision::lists_keys(keys, start),
            first == liked_first(keys, start),
            opinions@.len() == t,
            forall|u: int| 0 <= u < t ==> opinions@[u] == first[u],
        decreases txs@.len() - t,
    {
        assert(keys.contains(keys[t as int]));
        opinions.push((txs[t], vision.get_opinion(txs[t])));
        t += 1;
    }
    proof {
        assert(opinions@ =~= first);
        assert forall|a: int, b: int| 0 <= a < b < first.len() implies first[a].0 != first[b].0 by {
            assert(keys[a].0 < keys[b].0);
        }
        assert forall|u: int| 0 <= u < first.len() implies start.contains_key(first[u].0) by {
            assert(keys.contains(keys[u]));
        }
    }
    complete(vision, &mut opinions);
    let ghost done = opinions@;
    let ghost target = filled(keys, start);
    proof {
        lemma_comp_shape(start, first, 0);
    }
    let mut u: usize = 0;
    while u < opinions.len()
        invariant
            u <= opinions@.len(),
            opinions@ == done,
            first == liked_first(keys, start),
            done == comp_pass(start, first),
            done.len() == keys.len(),
            forall|j: int| 0 <= j < done.len() ==> (#[trigger] done[j]).0 == keys[j],
            Vision::lists_keys(keys, start),
            target == filled(keys, start),
            vision.wf(),
            vision.keys() == keys,
            vision@.dom() == start.dom(),
            forall|j: int| 0 <= j < u ==> vision@[#[trigger] keys[j]] == target[keys[j]],
            forall|j: int| u <= j < keys.len() ==> vision@[#[trigger] keys[j]] == start[keys[j]],
        decreases opinions@.len() - u,
    {
        let (txid, like) = opinions[u];
        let ghost before = vision@;
        proof {
            assert(done[u as int].0 == keys[u as int]);
            assert(keys.contains(keys[u as int]));
            assert forall|a: int, b: int| 0 <= a < b < done.len() implies done[a].0 != done[b].0 by {
                assert(keys[a].0 < keys[b].0);
            }
            lemma_likes_at(done, u as int);
        }
        if vision.get_opinion_status(&txid).is_none() {
            vision.set_opinion(&txid, Opinion::Pending(like, 0));
        }
        proof {
            assert(vision@.dom() =~= start.dom());
            assert forall|j: int| 0 <= j < u + 1 implies vision@[#[trigger] keys[j]]
                == target[keys[j]] by {
                if j < u {
                    assert(keys[j].0 < keys[u as int].0);
                    assert(before[keys[j]] == target[keys[j]]);
                }
            }
            assert forall|j: int| u + 1 <= j < keys.len() implies vision@[#[trigger] keys[j]]
                == start[keys[j]] by {
                assert(keys[u as int].0 < keys[j].0);
                assert(before[keys[j]] == start[keys[j]]);
            }
        }
        u += 1;
    }
    proof {
        assert forall|tx: TxId| vision@.contains_key(tx) implies vision@[tx] == target[tx] by {
            assert(keys.contains(tx));
            let j = choose|j: int| 0 <= j < keys.len() && keys[j] == tx;
            assert(vision@[keys[j]] == target[keys[j]]);
        }
        assert(vision@ =~= target);
    }
}

/// Every transaction of the expansion is one of the list.
pub proof fn lemma_expanded_members(like_proportions: Seq<(TxId, usize)>, j: int)
    requires
        0 <= j < expanded(like_proportions).len(),
    ensures
        exists|p: int|
            0 <= p < like_proportions.len() && (#[trigger] like_proportions[p]).0 == expanded(
                like_proportions,
            )[j],
    decreases like_proportions.len(),
{
    if like_proportions.len() > 0 {
        let front = like_proportions.drop_last();
        if j < expanded(front).len() {
            lemma_expanded_members(front, j);
            let p = choose|p: int|
                0 <= p < front.len() && (#[trigger] front[p]).0 == expanded(front)[j];
            assert(like_proportions[p].0 == expanded(like_proportions)[j]);
        } else {
            let p = like_proportions.len() - 1;
            assert(like_proportions[p].0 == expanded(like_proportions)[j]);
        }
    }
}

} // verus!
