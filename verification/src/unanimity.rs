use crate::aux_types::drawn_sample;
use crate::aux_types::lemma_drawn_sample;
use crate::aux_types::all_final;
use crate::aux_types::NodeId;
use crate::aux_types::NodeStatus;
use crate::aux_types::Opinion;
use crate::aux_types::TxId;
use crate::aux_types::Vision;
use crate::aux_types::VisionMap;
use crate::constants::L;
use crate::finality::apply_opinion;
use crate::finality::apply_opinions;
use crate::aux_types::TxGraphType;
use crate::conflict_graph::graph_conflicts;
use crate::conflict_graph::graph_map;
use crate::constants::K;
use crate::fpcs::initial_vision;
use crate::liked_set::lemma_comp_keeps_maximal;
use crate::liked_set::likes;
use crate::seeding::expanded;
use crate::seeding::filled;
use crate::seeding::liked_first;
use crate::seeding::proportions;
use crate::seeding::seed_of;
use crate::seeding::seeded;
use crate::fpcs::sweep_step;
use crate::fpcs::swept;
use crate::fpcs::takes_turn;
use crate::fpcs::turn;
use crate::fpcs::Node;
use crate::fpcs::NodeType;
use crate::hashed_order::arranged;
use crate::hashed_order::distinct_txs;
use crate::hashed_order::lemma_arranged_is_arrangement;
use crate::hashed_order::lemma_rearranged_same_txs;
use crate::hashed_order::tx_ids;
use crate::liked_set::blocked;
use crate::liked_set::coherent;
use crate::liked_set::comp_pass;
use crate::liked_set::conflict;
use crate::liked_set::elim_pass;
use crate::liked_set::lemma_comp_independent;
use crate::liked_set::lemma_comp_maximal;
use crate::liked_set::lemma_comp_shape;
use crate::liked_set::lemma_elim_independent;
use crate::liked_set::lemma_elim_keeps_independent;
use crate::liked_set::lemma_elim_shape;
use crate::liked_set::lemma_rearranged_sets;
use crate::tally::first_opinions;
use crate::tally::has_id;
use crate::tally::node_with_id;
use crate::tally::queries;
use crate::tally::round_opinions;
use crate::tally::tally_of;
use crate::threshold::lemma_threshold_below_queries;
use crate::threshold::threshold_of;
use vstd::prelude::*;

verus! {

/// Every two distinct transactions of the vision conflict.
pub open spec fn all_conflict(v: VisionMap) -> bool {
    forall|a: TxId, b: TxId|
        v.contains_key(a) && v.contains_key(b) && a != b ==> #[trigger] conflict(v, a, b)
}

/// The vision likes `tx` and nothing else.
pub open spec fn likes_only(v: VisionMap, tx: TxId) -> bool {
    &&& v.contains_key(tx)
    &&& forall|t: TxId| v.contains_key(t) ==> ((#[trigger] v[t]).1.like() <==> t == tx)
}

/// `tx` is liked and pending with the given streak, and every other
/// transaction is disliked and pending.
pub open spec fn pending_on(v: VisionMap, tx: TxId, streak: u32) -> bool {
    &&& v.contains_key(tx)
    &&& v[tx].1 == Opinion::Pending(true, streak)
    &&& forall|t: TxId|
        v.contains_key(t) && t != tx ==> (#[trigger] v[t]).1 is Pending && !v[t].1.like()
}

/// `tx` is liked for good and every other transaction is rejected for good.
pub open spec fn decided_on(v: VisionMap, tx: TxId) -> bool {
    &&& v.contains_key(tx)
    &&& v[tx].1 == Opinion::Final(true)
    &&& forall|t: TxId| v.contains_key(t) && t != tx ==> (#[trigger] v[t]).1 == Opinion::Final(false)
}

/// The opinion vector likes `tx` and nothing else.
pub open spec fn outcome_is(opinions: Seq<(TxId, bool)>, tx: TxId) -> bool {
    forall|i: int| 0 <= i < opinions.len() ==> ((#[trigger] opinions[i]).1 <==> opinions[i].0 == tx)
}

/// Where every node is honest and likes `tx` alone, every sampled node
/// reports a like of `tx` and none of any other transaction.
pub proof fn lemma_unanimous_tally(
    nodes: Seq<Node>,
    querier: VisionMap,
    sample: Seq<NodeId>,
    tx: TxId,
    t: TxId,
)
    requires
        forall|i: int| 0 <= i < sample.len() ==> has_id(nodes, #[trigger] sample[i]),
        forall|j: int|
            0 <= j < nodes.len() ==> (#[trigger] nodes[j]).node_type == NodeType::Regular
                && likes_only(nodes[j].vision@, tx) && nodes[j].vision@.contains_key(t),
    ensures
        tally_of(nodes, querier, sample, t) == if t == tx {
            sample.len()
        } else {
            0
        },
    decreases sample.len(),
{
    if sample.len() > 0 {
        let front = sample.drop_last();
        assert forall|i: int| 0 <= i < front.len() implies has_id(nodes, #[trigger] front[i]) by {
            assert(front[i] == sample[i]);
        }
        lemma_unanimous_tally(nodes, querier, front, tx, t);
        let last = sample[sample.len() - 1];
        assert(has_id(nodes, last));
        let node = node_with_id(nodes, last);
        let c = choose|c: int| 0 <= c < nodes.len() && (#[trigger] nodes[c]).id == last;
        assert(node == nodes[c]);
        assert(node.vision@[t].1.like() <==> t == tx);
    }
}

/// Where every node is honest and likes `tx` alone, and every two
/// transactions conflict, the outcome of a round likes `tx` alone, whatever
/// the sample and the random number: with at least one sampled node `tx`
/// passes the threshold and nothing else does, and where `tx` is the only
/// transaction the completing pass likes it.
pub proof fn lemma_unanimous_outcome(
    me: Node,
    nodes: Seq<Node>,
    sample: Seq<NodeId>,
    k: nat,
    random_number: u32,
    tx: TxId,
)
    requires
        me.vision.wf(),
        coherent(me.vision@),
        all_conflict(me.vision@),
        me.vision@.contains_key(tx),
        forall|i: int| 0 <= i < sample.len() ==> has_id(nodes, #[trigger] sample[i]),
        forall|j: int|
            0 <= j < nodes.len() ==> (#[trigger] nodes[j]).node_type == NodeType::Regular
                && likes_only(nodes[j].vision@, tx) && me.vision@.dom().subset_of(
                nodes[j].vision@.dom(),
            ),
        sample.len() == queries(k, me.neighborhood@.len()),
        sample.len() >= 1 || forall|t: TxId| me.vision@.contains_key(t) ==> t == tx,
    ensures
        distinct_txs(round_opinions(me, nodes, sample, k, random_number)),
        forall|t: TxId|
            me.vision@.contains_key(t) <==> tx_ids(
                round_opinions(me, nodes, sample, k, random_number),
            ).contains(t),
        outcome_is(round_opinions(me, nodes, sample, k, random_number), tx),
{
    let g = me.vision@;
    let keys = me.vision.keys();
    me.vision.lemma_keys();
    let th = threshold_of(random_number, queries(k, me.neighborhood@.len()));
    let first = first_opinions(keys, nodes, g, sample, th);
    assert forall|a: int, b: int| 0 <= a < b < first.len() implies first[a].0 != first[b].0 by {
        assert(keys[a].0 < keys[b].0);
    }
    lemma_arranged_is_arrangement(first, random_number, true);
    let s1 = arranged(first, random_number, true);
    let e = elim_pass(g, s1);
    lemma_elim_shape(g, s1, 0);
    lemma_elim_independent(g, s1);
    assert forall|a: int, b: int| 0 <= a < b < e.len() implies e[a].0 != e[b].0 by {
        assert(s1[a].0 != s1[b].0);
    }
    lemma_arranged_is_arrangement(e, random_number, false);
    let s2 = arranged(e, random_number, false);
    let o = comp_pass(g, s2);
    assert(o == round_opinions(me, nodes, sample, k, random_number));
    lemma_comp_shape(g, s2, 0);
    lemma_comp_maximal(g, s2);
    lemma_rearranged_sets(g, e, s2);
    lemma_comp_independent(g, s2, 0);
    assert forall|a: int, b: int| 0 <= a < b < o.len() implies o[a].0 != o[b].0 by {
        assert(s2[a].0 != s2[b].0);
    }
    lemma_rearranged_same_txs(first, s1);
    lemma_rearranged_same_txs(e, s2);
    assert(tx_ids(e) =~= tx_ids(s1));
    assert(tx_ids(o) =~= tx_ids(s2));
    assert forall|t: TxId| g.contains_key(t) <==> tx_ids(o).contains(t) by {
        assert(keys.contains(t) <==> g.contains_key(t));
        if keys.contains(t) {
            let u = choose|u: int| 0 <= u < keys.len() && keys[u] == t;
            assert(tx_ids(first)[u] == t);
        }
        if tx_ids(first).contains(t) {
            let u = choose|u: int| 0 <= u < first.len() && tx_ids(first)[u] == t;
            assert(keys[u] == t);
        }
        assert(tx_ids(first).contains(t) <==> tx_ids(s1).contains(t));
        assert(tx_ids(e).contains(t) <==> tx_ids(s2).contains(t));
    }
    // `tx` is liked in the outcome
    assert(tx_ids(o).contains(tx));
    let m = choose|m: int| 0 <= m < o.len() && tx_ids(o)[m] == tx;
    assert(o[m].0 == tx);
    if sample.len() >= 1 {
        lemma_threshold_below_queries(random_number, sample.len());
        assert forall|u: int| 0 <= u < first.len() implies ((#[trigger] first[u]).1 <==> first[u].0
            == tx) by {
            assert(keys.contains(keys[u]));
            assert forall|j: int| 0 <= j < nodes.len() implies (#[trigger] nodes[j]).node_type
                == NodeType::Regular && likes_only(nodes[j].vision@, tx)
                && nodes[j].vision@.contains_key(keys[u]) by {
                assert(me.vision@.dom().subset_of(nodes[j].vision@.dom()));
                assert(me.vision@.dom().contains(keys[u]));
            }
            lemma_unanimous_tally(nodes, g, sample, tx, keys[u]);
        }
        assert forall|i: int| 0 <= i < first.len() && (#[trigger] first[i]).1 implies !blocked(
            g,
            first,
            first[i].0,
        ) by {
            if blocked(g, first, first[i].0) {
                let j = choose|j: int|
                    0 <= j < first.len() && (#[trigger] first[j]).1 && conflict(
                        g,
                        first[i].0,
                        first[j].0,
                    );
                assert(conflict(g, tx, tx));
            }
        }
        lemma_rearranged_sets(g, first, s1);
        lemma_elim_keeps_independent(g, s1, 0);
        assert(e == s1);
        assert(keys.contains(tx));
        let u = choose|u: int| 0 <= u < keys.len() && keys[u] == tx;
        assert(first[u] == (tx, true));
        assert(first.contains((tx, true)));
        assert(s1.contains((tx, true)));
        assert(s2.contains((tx, true)));
        let w = choose|w: int| 0 <= w < s2.len() && s2[w] == (tx, true);
        assert(o[w].0 == tx && o[w].1);
        if w != m {
            assert(o[w].0 == o[m].0);
        }
        assert(o[m].1);
    } else {
        if !o[m].1 {
            assert(blocked(g, o, o[m].0));
            let j = choose|j: int|
                0 <= j < o.len() && (#[trigger] o[j]).1 && conflict(g, o[m].0, o[j].0);
            assert(conflict(g, o[j].0, tx));
            assert(g.contains_key(o[j].0));
        }
        assert(o[m].1);
    }
    assert forall|i: int| 0 <= i < o.len() implies ((#[trigger] o[i]).1 <==> o[i].0 == tx) by {
        if o[i].0 == tx {
            if i != m {
                assert(o[i].0 == o[m].0);
            }
        } else if o[i].1 {
            assert(tx_ids(o)[i] == o[i].0);
            assert(tx_ids(o).contains(o[i].0));
            assert(g.contains_key(o[i].0));
            assert(conflict(g, o[i].0, o[m].0));
            assert(blocked(g, o, o[i].0));
        }
    }
}

/// The vision after the first `n` entries of an outcome that likes `tx`
/// alone are taken in, where `tx` stands at place `k` of the outcome: until
/// the turn of `tx` nothing but the streaks of the others moves; with it
/// `tx` goes one round further, or becomes final and all else is rejected.
proof fn lemma_unanimous_prefix(
    v: VisionMap,
    outcome: Seq<(TxId, bool)>,
    tx: TxId,
    streak: u32,
    k: int,
    n: int,
)
    requires
        coherent(v),
        all_conflict(v),
        pending_on(v, tx, streak),
        distinct_txs(outcome),
        forall|i: int| 0 <= i < outcome.len() ==> v.contains_key((#[trigger] outcome[i]).0),
        outcome_is(outcome, tx),
        0 <= k < outcome.len(),
        outcome[k].0 == tx,
        0 <= n <= outcome.len(),
    ensures
        apply_opinions(v, outcome.take(n)).dom() == v.dom(),
        forall|t: TxId|
            v.contains_key(t) ==> (#[trigger] apply_opinions(v, outcome.take(n))[t]).0 == v[t].0,
        n <= k ==> pending_on(apply_opinions(v, outcome.take(n)), tx, streak),
        n > k && streak < L - 1 ==> pending_on(
            apply_opinions(v, outcome.take(n)),
            tx,
            (streak + 1) as u32,
        ),
        n > k && streak >= L - 1 ==> decided_on(apply_opinions(v, outcome.take(n)), tx),
    decreases n,
{
    if n > 0 {
        lemma_unanimous_prefix(v, outcome, tx, streak, k, n - 1);
        let prev = apply_opinions(v, outcome.take(n - 1));
        assert(outcome.take(n).drop_last() == outcome.take(n - 1));
        let last = outcome[n - 1];
        assert(outcome.take(n).last() == last);
        let w = apply_opinion(prev, last.0, last.1);
        assert(w == apply_opinions(v, outcome.take(n)));
        assert(prev.contains_key(last.0));
        assert(w.dom() =~= v.dom());
        assert forall|a: TxId, b: TxId| conflict(prev, a, b) == conflict(v, a, b) by {
            if v.contains_key(a) {
                assert(prev[a].0 == v[a].0);
            }
        }
        if n - 1 == k {
            assert(last.1);
            assert(!conflict(v, tx, tx));
            if streak >= L - 1 {
                assert forall|t: TxId| w.contains_key(t) && t != tx implies (#[trigger] w[t]).1
                    == Opinion::Final(false) by {
                    assert(conflict(v, tx, t));
                }
            }
        } else {
            assert(last.0 != tx) by {
                if n - 1 < k {
                    assert(outcome[n - 1].0 != outcome[k].0);
                } else {
                    assert(outcome[k].0 != outcome[n - 1].0);
                }
            }
            assert(!last.1);
            assert(prev[last.0].1 is Pending && !prev[last.0].1.like() || prev[last.0].1
                == Opinion::Final(false));
            if prev[last.0].1 == Opinion::Final(false) {
                assert(w =~= prev);
            }
        }
    } else {
        assert(outcome.take(0) =~= Seq::<(TxId, bool)>::empty());
    }
}

/// Taking in an outcome that likes `tx` alone brings a vision that stands
/// on `tx` one round further: a streak that is not long enough yet grows
/// by one, a streak that is long enough ends in a final like of `tx` and a
/// final rejection of everything else.
pub proof fn lemma_unanimous_apply(v: VisionMap, outcome: Seq<(TxId, bool)>, tx: TxId, streak: u32)
    requires
        coherent(v),
        all_conflict(v),
        pending_on(v, tx, streak),
        distinct_txs(outcome),
        forall|t: TxId| v.contains_key(t) <==> tx_ids(outcome).contains(t),
        outcome_is(outcome, tx),
    ensures
        apply_opinions(v, outcome).dom() == v.dom(),
        forall|t: TxId| v.contains_key(t) ==> (#[trigger] apply_opinions(v, outcome)[t]).0 == v[t].0,
        streak < L - 1 ==> pending_on(apply_opinions(v, outcome), tx, (streak + 1) as u32),
        streak >= L - 1 ==> decided_on(apply_opinions(v, outcome), tx),
{
    assert(tx_ids(outcome).contains(tx));
    let k = choose|k: int| 0 <= k < outcome.len() && tx_ids(outcome)[k] == tx;
    assert forall|i: int| 0 <= i < outcome.len() implies v.contains_key((#[trigger] outcome[i]).0) by {
        assert(tx_ids(outcome)[i] == outcome[i].0);
        assert(tx_ids(outcome).contains(outcome[i].0));
    }
    lemma_unanimous_prefix(v, outcome, tx, streak, k, outcome.len() as int);
    assert(outcome.take(outcome.len() as int) == outcome);
}

/// The identifiers of the nodes.
pub open spec fn ids_of(nodes: Seq<Node>) -> Seq<NodeId> {
    Seq::new(nodes.len(), |i: int| nodes[i].id)
}

/// Every node is honest, takes a turn in the next round and stands on `tx`
/// with the given streak; every two transactions conflict; and every node
/// has all the others for neighbours.
pub open spec fn unanimous(
    nodes: Seq<Node>,
    roster: Seq<(NodeId, NodeType, NodeStatus)>,
    tx: TxId,
    streak: u32,
) -> bool {
    &&& roster.len() == nodes.len()
    &&& forall|j: int|
        0 <= j < nodes.len() ==> {
            &&& (#[trigger] nodes[j]).node_type == NodeType::Regular
            &&& takes_turn(roster[j])
            &&& nodes[j].vision.wf()
            &&& coherent(nodes[j].vision@)
            &&& all_conflict(nodes[j].vision@)
            &&& pending_on(nodes[j].vision@, tx, streak)
            &&& nodes[j].vision@.dom() == nodes[0].vision@.dom()
            &&& nodes[j].neighborhood@ == ids_of(nodes).remove(j)
        }
}

/// Where the node at place `j` stands after the first `p` nodes of a sweep
/// over unanimous nodes have had their turn.
spec fn swept_so_far(start: Seq<Node>, now: Seq<Node>, tx: TxId, streak: u32, p: int, j: int) -> bool {
    &&& now[j].id == start[j].id
    &&& now[j].node_type == start[j].node_type
    &&& now[j].neighborhood == start[j].neighborhood
    &&& now[j].vision@.dom() == start[j].vision@.dom()
    &&& (j >= p ==> now[j] == start[j])
    &&& (j < p && streak < L - 1 ==> pending_on(now[j].vision@, tx, (streak + 1) as u32)
        && now[j].status == NodeStatus::NotFinalized)
    &&& (j < p && streak >= L - 1 ==> decided_on(now[j].vision@, tx) && now[j].status
        == NodeStatus::Finalized)
}

proof fn lemma_sweep_upto(
    states: Seq<Seq<Node>>,
    samples: Seq<Seq<NodeId>>,
    roster: Seq<(NodeId, NodeType, NodeStatus)>,
    random_number: u32,
    tx: TxId,
    streak: u32,
    p: int,
)
    requires
        states.len() == states[0].len() + 1,
        samples.len() == states[0].len(),
        unanimous(states[0], roster, tx, streak),
        states[0].len() >= 2 || forall|t: TxId| states[0][0].vision@.contains_key(t) ==> t == tx,
        forall|place: int|
            0 <= place < states[0].len() ==> #[trigger] sweep_step(
                states,
                samples,
                roster,
                random_number,
                place,
            ),
        0 <= p <= states[0].len(),
    ensures
        states[p].len() == states[0].len(),
        forall|j: int|
            0 <= j < states[0].len() ==> #[trigger] swept_so_far(
                states[0],
                states[p],
                tx,
                streak,
                p,
                j,
            ),
    decreases p,
{
    let start = states[0];
    let n = start.len() as int;
    if p > 0 {
        lemma_sweep_upto(states, samples, roster, random_number, tx, streak, p - 1);
        let place = p - 1;
        let before = states[place];
        let after = states[p];
        let sample = samples[place];
        assert(sweep_step(states, samples, roster, random_number, place));
        assert(takes_turn(roster[place])) by {
            assert(start[place].node_type == NodeType::Regular);
        }
        assert(turn(before, after, place, sample, random_number));
        assert(swept_so_far(start, before, tx, streak, place, place));
        let me = before[place];
        assert(me == start[place]);
        let draws = choose|draws: Seq<u64>|
            sample == drawn_sample(me.neighborhood@, K as nat, draws);
        lemma_drawn_sample(me.neighborhood@, K as nat, draws);
        assert(me.neighborhood@ == ids_of(start).remove(place));
        assert forall|i: int| 0 <= i < sample.len() implies has_id(before, #[trigger] sample[i]) by {
            let others = ids_of(start).remove(place);
            assert(others.contains(sample[i]));
            let q = choose|q: int| 0 <= q < others.len() && others[q] == sample[i];
            let at = if q < place {
                q
            } else {
                q + 1
            };
            assert(start[at].id == sample[i]);
            assert(swept_so_far(start, before, tx, streak, place, at));
            assert(before[at].id == sample[i]);
        }
        assert forall|j: int| 0 <= j < before.len() implies (#[trigger] before[j]).node_type
            == NodeType::Regular && likes_only(before[j].vision@, tx) && me.vision@.dom().subset_of(
            before[j].vision@.dom(),
        ) by {
            assert(swept_so_far(start, before, tx, streak, place, j));
            assert(start[j].node_type == NodeType::Regular);
            assert(pending_on(start[j].vision@, tx, streak));
            assert(start[j].vision@.dom() == start[0].vision@.dom());
            assert(start[place].vision@.dom() == start[0].vision@.dom());
        }
        assert(sample.len() >= 1 || forall|t: TxId| me.vision@.contains_key(t) ==> t == tx) by {
            if n >= 2 {
                assert(me.neighborhood@.len() == n - 1);
            } else {
                assert(place == 0);
            }
        }
        lemma_unanimous_outcome(me, before, sample, K as nat, random_number, tx);
        let outcome = round_opinions(me, before, sample, K as nat, random_number);
        lemma_unanimous_apply(me.vision@, outcome, tx, streak);
        assert forall|j: int| 0 <= j < n implies #[trigger] swept_so_far(
            start,
            after,
            tx,
            streak,
            p,
            j,
        ) by {
            assert(swept_so_far(start, before, tx, streak, place, j));
            if j != place {
                assert(after[j] == before[j]);
            } else {
                let v = after[place].vision@;
                if streak < L - 1 {
                    assert(v[tx].1 is Pending);
                    assert(!all_final(v));
                } else {
                    assert forall|t: TxId| v.contains_key(t) implies (#[trigger] v[t]).1 is Final by {
                        if t != tx {
                            assert(v[t].1 == Opinion::Final(false));
                        }
                    }
                }
            }
        }
    } else {
        assert forall|j: int| 0 <= j < n implies #[trigger] swept_so_far(
            start,
            states[0],
            tx,
            streak,
            0,
            j,
        ) by {}
    }
}

/// A round over unanimous nodes brings every node one round further: as
/// long as the streak is not long enough, every node stands on `tx` with
/// the streak grown by one; once it is, every node likes `tx` for good,
/// rejects everything else for good and is finalized. This holds whatever
/// is drawn, for at least two nodes, and for one node where `tx` is the
/// only transaction.
pub proof fn lemma_unanimous_round(
    start: Seq<Node>,
    end: Seq<Node>,
    roster: Seq<(NodeId, NodeType, NodeStatus)>,
    random_number: u32,
    tx: TxId,
    streak: u32,
)
    requires
        swept(start, end, roster, random_number),
        unanimous(start, roster, tx, streak),
        start.len() >= 1,
        start.len() >= 2 || forall|t: TxId| start[0].vision@.contains_key(t) ==> t == tx,
    ensures
        end.len() == start.len(),
        streak < L - 1 ==> forall|j: int|
            0 <= j < end.len() ==> pending_on((#[trigger] end[j]).vision@, tx, (streak + 1) as u32)
                && end[j].status == NodeStatus::NotFinalized,
        streak >= L - 1 ==> forall|j: int|
            0 <= j < end.len() ==> decided_on((#[trigger] end[j]).vision@, tx) && end[j].status
                == NodeStatus::Finalized,
{
    let (states, samples) = choose|states: Seq<Seq<Node>>, samples: Seq<Seq<NodeId>>|
        {
            &&& states.len() == start.len() + 1
            &&& samples.len() == start.len()
            &&& states[0] == start
            &&& states[start.len() as int] == end
            &&& forall|place: int|
                0 <= place < start.len() ==> #[trigger] sweep_step(
                    states,
                    samples,
                    roster,
                    random_number,
                    place,
                )
        };
    lemma_sweep_upto(states, samples, roster, random_number, tx, streak, start.len() as int);
    assert forall|j: int| 0 <= j < end.len() implies (streak < L - 1 ==> pending_on(
        (#[trigger] end[j]).vision@,
        tx,
        (streak + 1) as u32,
    ) && end[j].status == NodeStatus::NotFinalized) && (streak >= L - 1 ==> decided_on(
        end[j].vision@,
        tx,
    ) && end[j].status == NodeStatus::Finalized) by {
        assert(swept_so_far(start, end, tx, streak, start.len() as int, j));
    }
}

/// In the complete conflict graph over distinct transactions every two
/// transactions conflict.
pub proof fn lemma_complete_graph_all_conflict(ids: Seq<TxId>)
    requires
        ids.no_duplicates(),
    ensures
        all_conflict(graph_map(TxGraphType::Complete, ids)),
{
    let g = graph_map(TxGraphType::Complete, ids);
    assert forall|a: TxId, b: TxId|
        g.contains_key(a) && g.contains_key(b) && a != b implies #[trigger] conflict(g, a, b) by {
        let i = ids.index_of(a);
        let j = ids.index_of(b);
        assert(ids[i] == a && ids[j] == b);
        let list = graph_conflicts(TxGraphType::Complete, ids, i);
        assert(g[a].0 == list);
        if j < i {
            assert(list[j] == b);
        } else {
            assert(list[j - 1] == b);
        }
    }
}

/// Where all initial likes are concentrated on the first transaction of a
/// complete conflict graph, every honest node starts out standing on that
/// transaction with no streak yet.
pub proof fn lemma_concentrated_start(keys: Seq<TxId>, ids: Seq<TxId>, honest: nat, i: int)
    requires
        ids.no_duplicates(),
        ids.len() >= 1,
        Vision::lists_keys(keys, graph_map(TxGraphType::Complete, ids)),
        honest <= usize::MAX,
        0 <= i < honest,
    ensures
        pending_on(
            initial_vision(
                keys,
                graph_map(TxGraphType::Complete, ids),
                expanded(proportions(ids, honest, 1)),
                honest as int,
                i,
            ),
            ids[0],
            0,
        ),
        all_conflict(
            initial_vision(
                keys,
                graph_map(TxGraphType::Complete, ids),
                expanded(proportions(ids, honest, 1)),
                honest as int,
                i,
            ),
        ),
{
    let common = graph_map(TxGraphType::Complete, ids);
    let t0 = ids[0];
    lemma_complete_graph_all_conflict(ids);
    let props = proportions(ids, honest, 1);
    assert(props.len() == 1);
    assert(props[0] == (t0, honest as usize));
    assert(props.drop_last() =~= Seq::<(TxId, usize)>::empty());
    let seeds = expanded(props);
    assert(seeds =~= Seq::new(honest, |n: int| t0)) by {
        reveal_with_fuel(expanded, 2);
    }
    assert(seed_of(seeds, i) == Some(t0));
    assert(ids.contains(t0));
    let s = seeded(common, Some(t0));
    assert(s.dom() =~= common.dom());
    let first = liked_first(keys, s);
    assert forall|u: int| 0 <= u < first.len() implies ((#[trigger] first[u]).1 <==> first[u].0
        == t0) by {
        assert(keys.contains(keys[u]));
        assert(common.contains_key(keys[u]));
    }
    assert(keys.contains(t0));
    let at = choose|at: int| 0 <= at < keys.len() && keys[at] == t0;
    assert(first[at] == (t0, true));
    assert forall|a: TxId, b: TxId| conflict(s, a, b) == conflict(common, a, b) by {}
    assert forall|u: int| 0 <= u < first.len() && !(#[trigger] first[u]).1 implies blocked(
        s,
        first,
        first[u].0,
    ) by {
        assert(keys.contains(keys[u]));
        assert(conflict(common, first[u].0, t0));
        assert(first[at].1 && conflict(s, first[u].0, first[at].0));
    }
    lemma_comp_keeps_maximal(s, first, 0);
    let v = filled(keys, s);
    assert(v == initial_vision(keys, common, seeds, honest as int, i));
    assert(v.dom() =~= common.dom());
    assert forall|t: TxId| v.contains_key(t) && t != t0 implies (#[trigger] v[t]).1 is Pending
        && !v[t].1.like() by {
        if likes(first, t) {
            let u = choose|u: int| 0 <= u < first.len() && first[u] == (t, true);
            assert(first[u].1);
        }
    }
    assert forall|a: TxId, b: TxId| conflict(v, a, b) == conflict(common, a, b) by {}
}

} // verus!
