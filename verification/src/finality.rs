use crate::aux_types::Opinion;
use crate::aux_types::TxId;
use crate::aux_types::VisionMap;
use crate::constants::L;
use crate::liked_set::coherent;
use crate::liked_set::conflict;
use vstd::prelude::*;

verus! {

/// One more round of agreement; the count stays where it is once it has
/// reached the largest number it can hold.
pub open spec fn next_streak(streak: u32) -> u32 {
    if streak < u32::MAX {
        (streak + 1) as u32
    } else {
        streak
    }
}

/// The opinion that follows `prior` when the round's outcome is `like`.
pub open spec fn next_opinion(prior: Opinion, like: bool) -> Opinion {
    match prior {
        Opinion::Pending(a, streak) => {
            if a && like && streak >= L - 1 {
                Opinion::Final(true)
            } else if a == like {
                Opinion::Pending(a, next_streak(streak))
            } else {
                Opinion::Pending(like, 0)
            }
        },
        _ => prior,
    }
}

/// Whether the round's outcome `like` makes a pending opinion final.
pub open spec fn becomes_final(prior: Opinion, like: bool) -> bool {
    prior is Pending && next_opinion(prior, like) == Opinion::Final(true)
}

/// The vision in which every transaction that `tx` conflicts with is
/// finally rejected.
pub open spec fn reject_conflicts(v: VisionMap, tx: TxId) -> VisionMap {
    Map::new(
        |t: TxId| v.contains_key(t),
        |t: TxId|
            if conflict(v, tx, t) {
                (v[t].0, Opinion::Final(false))
            } else {
                v[t]
            },
    )
}

/// The vision after the round's outcome for one transaction is taken in:
/// its opinion moves on, and where it becomes final and liked, all that it
/// conflicts with is finally rejected.
pub open spec fn apply_opinion(v: VisionMap, tx: TxId, like: bool) -> VisionMap {
    let moved = v.insert(tx, (v[tx].0, next_opinion(v[tx].1, like)));
    if becomes_final(v[tx].1, like) {
        reject_conflicts(moved, tx)
    } else {
        moved
    }
}

/// The vision after the round's outcomes are taken in one after the other.
pub open spec fn apply_opinions(v: VisionMap, opinions: Seq<(TxId, bool)>) -> VisionMap
    decreases opinions.len(),
{
    if opinions.len() == 0 {
        v
    } else {
        apply_opinion(
            apply_opinions(v, opinions.drop_last()),
            opinions.last().0,
            opinions.last().1,
        )
    }
}

/// Around every transaction that is final and liked, all that it conflicts
/// with is finally rejected.
pub open spec fn settled(v: VisionMap) -> bool {
    forall|a: TxId, b: TxId|
        v.contains_key(a) && v[a].1 == Opinion::Final(true) && #[trigger] conflict(v, a, b)
            ==> v[b].1 == Opinion::Final(false)
}

/// No two transactions that are final and liked conflict.
pub open spec fn final_likes_independent(v: VisionMap) -> bool {
    forall|a: TxId, b: TxId|
        v.contains_key(a) && v.contains_key(b) && v[a].1 == Opinion::Final(true) && v[b].1
            == Opinion::Final(true) ==> !#[trigger] conflict(v, a, b)
}

/// From `before` to `after` the transactions and their conflicts are the
/// same, and every opinion that was final is still the same opinion.
pub open spec fn finality_kept(before: VisionMap, after: VisionMap) -> bool {
    &&& after.dom() == before.dom()
    &&& forall|tx: TxId|
        before.contains_key(tx) ==> (#[trigger] after[tx]).0 == before[tx].0 && (before[tx].1 is Final
            ==> after[tx].1 == before[tx].1)
}

/// Where the final likes are settled, no two of them conflict.
pub proof fn lemma_settled_independent(v: VisionMap)
    requires
        settled(v),
    ensures
        final_likes_independent(v),
{
}

/// Taking in one outcome keeps what was final, keeps the conflict graph,
/// and leaves the final likes settled.
pub proof fn lemma_apply_opinion(v: VisionMap, tx: TxId, like: bool)
    requires
        coherent(v),
        settled(v),
        v.contains_key(tx),
    ensures
        finality_kept(v, apply_opinion(v, tx, like)),
        coherent(apply_opinion(v, tx, like)),
        settled(apply_opinion(v, tx, like)),
{
    let after = apply_opinion(v, tx, like);
    assert(after.dom() =~= v.dom());
    assert forall|a: TxId, b: TxId| conflict(after, a, b) == conflict(v, a, b) by {}
    assert forall|t: TxId| v.contains_key(t) implies (#[trigger] after[t]).0 == v[t].0 && (v[t].1 is Final
        ==> after[t].1 == v[t].1) by {
        if becomes_final(v[tx].1, like) && conflict(v, tx, t) && v[t].1 == Opinion::Final(true) {
            assert(conflict(v, t, tx));
        }
    }
    assert forall|a: TxId, b: TxId|
        after.contains_key(a) && after[a].1 == Opinion::Final(true) && #[trigger] conflict(
            after,
            a,
            b,
        ) implies after[b].1 == Opinion::Final(false) by {
        assert(conflict(v, a, b));
        assert(conflict(v, b, a));
        if a != tx {
            assert(v[a].1 == Opinion::Final(true));
        }
    }
}

/// Finality that is kept over two stretches is kept over both together.
pub proof fn lemma_finality_kept_twice(a: VisionMap, b: VisionMap, c: VisionMap)
    requires
        finality_kept(a, b),
        finality_kept(b, c),
    ensures
        finality_kept(a, c),
{
    assert forall|tx: TxId| a.contains_key(tx) implies (#[trigger] c[tx]).0 == a[tx].0 && (a[tx].1 is Final
        ==> c[tx].1 == a[tx].1) by {
        assert(b.contains_key(tx));
        assert(b[tx].0 == a[tx].0);
    }
}

/// Taking in a whole vector of outcomes keeps what was final, keeps the
/// conflict graph, and leaves the final likes settled.
pub proof fn lemma_apply_opinions(v: VisionMap, opinions: Seq<(TxId, bool)>)
    requires
        coherent(v),
        settled(v),
        forall|i: int| 0 <= i < opinions.len() ==> v.contains_key((#[trigger] opinions[i]).0),
    ensures
        finality_kept(v, apply_opinions(v, opinions)),
        coherent(apply_opinions(v, opinions)),
        settled(apply_opinions(v, opinions)),
    decreases opinions.len(),
{
    if opinions.len() > 0 {
        let front = opinions.drop_last();
        assert forall|i: int| 0 <= i < front.len() implies v.contains_key((#[trigger] front[i]).0) by {
            assert(front[i] == opinions[i]);
        }
        lemma_apply_opinions(v, front);
        let mid = apply_opinions(v, front);
        assert(mid.contains_key(opinions.last().0));
        lemma_apply_opinion(mid, opinions.last().0, opinions.last().1);
        lemma_finality_kept_twice(v, mid, apply_opinions(v, opinions));
    }
}

} // verus!
