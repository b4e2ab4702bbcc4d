use crate::aux_types::Conflicts;
use crate::aux_types::Opinion;
use crate::aux_types::TxGlobalStatus;
use crate::aux_types::TxGraphType;
use crate::aux_types::TxId;
use crate::aux_types::Vision;
use crate::aux_types::VisionMap;
use crate::fresh_ids::distinct_tx_ids;
use crate::liked_set::coherent;
use crate::liked_set::conflict;
use vstd::prelude::*;

verus! {

/// What the transaction at place `i` conflicts with in a graph of the given
/// kind: in a complete graph all the others; in a star the centre, which is
/// the first transaction, conflicts with all the leaves and each leaf with
/// the centre alone.
pub open spec fn graph_conflicts(kind: TxGraphType, ids: Seq<TxId>, i: int) -> Seq<TxId> {
    match kind {
        TxGraphType::Complete => ids.remove(i),
        TxGraphType::Star => if i == 0 {
            ids.remove(0)
        } else {
            seq![ids[0]]
        },
    }
}

/// The vision is the conflict graph of the given kind over the
/// transactions, with no opinion formed yet.
pub open spec fn is_conflict_graph(v: VisionMap, kind: TxGraphType, ids: Seq<TxId>) -> bool {
    &&& v.dom() == ids.to_set()
    &&& forall|i: int|
        0 <= i < ids.len() ==> #[trigger] v[ids[i]] == (graph_conflicts(kind, ids, i), Opinion::Unset)
}

/// The conflict graph of the given kind over the transactions, with no
/// opinion formed yet.
pub open spec fn graph_map(kind: TxGraphType, ids: Seq<TxId>) -> VisionMap {
    Map::new(
        |tx: TxId| ids.contains(tx),
        |tx: TxId| (graph_conflicts(kind, ids, ids.index_of(tx)), Opinion::Unset),
    )
}

/// Over distinct transactions there is one conflict graph of each kind.
pub proof fn lemma_graph_map(v: VisionMap, kind: TxGraphType, ids: Seq<TxId>)
    requires
        ids.no_duplicates(),
        is_conflict_graph(v, kind, ids),
    ensures
        v == graph_map(kind, ids),
{
    let g = graph_map(kind, ids);
    assert forall|tx: TxId| v.contains_key(tx) <==> g.contains_key(tx) by {
        assert(ids.to_set().contains(tx) <==> ids.contains(tx));
    }
    assert forall|tx: TxId| v.contains_key(tx) implies v[tx] == g[tx] by {
        assert(ids.contains(tx));
        let i = ids.index_of(tx);
        assert(ids[i] == tx);
        assert(v[ids[i]] == (graph_conflicts(kind, ids, i), Opinion::Unset));
    }
    assert(v =~= g);
}

/// The transactions with nothing published as finalized yet.
pub open spec fn fresh_tx_set(ids: Seq<TxId>) -> Seq<(TxId, TxGlobalStatus)> {
    Seq::new(ids.len(), |k: int| (ids[k], TxGlobalStatus::NotFinalized))
}

/// A conflict graph of either kind over distinct transactions is coherent.
pub proof fn lemma_conflict_graph_coherent(v: VisionMap, kind: TxGraphType, ids: Seq<TxId>)
    requires
        ids.no_duplicates(),
        is_conflict_graph(v, kind, ids),
        kind is Star ==> ids.len() >= 1,
    ensures
        coherent(v),
{
    assert forall|a: TxId, b: TxId| #[trigger] conflict(v, a, b) implies a != b && conflict(v, b, a) by {
        assert(ids.to_set().contains(a));
        let i = choose|i: int| 0 <= i < ids.len() && ids[i] == a;
        assert(v[ids[i]] == (graph_conflicts(kind, ids, i), Opinion::Unset));
        let list = graph_conflicts(kind, ids, i);
        let p = choose|p: int| 0 <= p < list.len() && list[p] == b;
        let j = if kind is Star && i != 0 {
            0int
        } else if p < i {
            p
        } else {
            p + 1
        };
        assert(ids[j] == b);
        assert(j != i);
        assert(ids.to_set().contains(b));
        assert(v[ids[j]] == (graph_conflicts(kind, ids, j), Opinion::Unset));
        let back = graph_conflicts(kind, ids, j);
        if kind is Star && j != 0 {
            assert(back[0] == a);
        } else if i < j {
            assert(back[i] == a);
        } else {
            assert(back[i - 1] == a);
        }
    }
}

/// Builds the vision that holds the given conflicts for each transaction.
fn graph_vision(entries: &Vec<(TxId, Conflicts, Opinion)>, Ghost(kind): Ghost<TxGraphType>, Ghost(ids): Ghost<
    Seq<TxId>,
>) -> (vision: Vision)
    requires
        ids.no_duplicates(),
        entries@.len() == ids.len(),
        forall|i: int|
            0 <= i < ids.len() ==> (#[trigger] entries@[i]).0 == ids[i] && entries@[i].1@
                == graph_conflicts(kind, ids, i) && entries@[i].2 == Opinion::Unset,
    ensures
        vision.wf(),
        is_conflict_graph(vision@, kind, ids),
{
    let vision = Vision::new_from(entries);
    proof {
        Vision::lemma_map_of_distinct(entries@);
        assert forall|tx: TxId| vision@.dom().contains(tx) <==> ids.to_set().contains(tx) by {
            if vision@.dom().contains(tx) {
                let i = choose|i: int| 0 <= i < entries@.len() && (#[trigger] entries@[i]).0 == tx;
                assert(ids[i] == tx);
            }
            if ids.to_set().contains(tx) {
                let i = choose|i: int| 0 <= i < ids.len() && ids[i] == tx;
                assert(entries@[i].0 == tx);
            }
        }
        assert(vision@.dom() =~= ids.to_set());
        assert forall|i: int| 0 <= i < ids.len() implies #[trigger] vision@[ids[i]] == (
            graph_conflicts(kind, ids, i),
            Opinion::Unset,
        ) by {
            assert(entries@[i].0 == ids[i]);
        }
    }
    vision
}

/// The list without the item at place `skip`.
fn all_but(ids: &Vec<TxId>, skip: usize) -> (rest: Vec<TxId>)
    requires
        skip < ids@.len(),
    ensures
        rest@ == ids@.remove(skip as int),
{
    let mut rest: Vec<TxId> = Vec::new();
    let mut i: usize = 0;
    while i < ids.len()
        invariant
            i <= ids@.len(),
            skip < ids@.len(),
            rest@.len() == if i <= skip {
                i as int
            } else {
                i - 1
            },
            forall|j: int| 0 <= j < rest@.len() ==> rest@[j] == ids@.remove(skip as int)[j],
        decreases ids@.len() - i,
    {
        if i != skip {
            rest.push(ids[i]);
        }
        i += 1;
    }
    assert(rest@ =~= ids@.remove(skip as int));
    rest
}

/// The transactions with their status, none published as finalized.
fn fresh_statuses(ids: &Vec<TxId>) -> (tx_set: Vec<(TxId, TxGlobalStatus)>)
    ensures
        tx_set@ == fresh_tx_set(ids@),
{
    let mut tx_set: Vec<(TxId, TxGlobalStatus)> = Vec::new();
    let mut i: usize = 0;
    while i < ids.len()
        invariant
            i <= ids@.len(),
            tx_set@.len() == i,
            forall|j: int| 0 <= j < i ==> tx_set@[j] == (ids@[j], TxGlobalStatus::NotFinalized),
        decreases ids@.len() - i,
    {
        tx_set.push((ids[i], TxGlobalStatus::NotFinalized));
        i += 1;
    }
    assert(tx_set@ =~= fresh_tx_set(ids@));
    tx_set
}

/// The complete conflict graph over the given transactions: every two of
/// them conflict, so that only one can be liked.
pub fn complete_conflict_graph(ids: &Vec<TxId>) -> (graph: (Vec<(TxId, TxGlobalStatus)>, Vision))
    requires
        ids@.no_duplicates(),
    ensures
        graph.0@ == fresh_tx_set(ids@),
        graph.1.wf(),
        graph.1@ == graph_map(TxGraphType::Complete, ids@),
        is_conflict_graph(graph.1@, TxGraphType::Complete, ids@),
        coherent(graph.1@),
{
    let tx_set = fresh_statuses(ids);
    let mut entries: Vec<(TxId, Conflicts, Opinion)> = Vec::new();
    let mut i: usize = 0;
    while i < ids.len()
        invariant
            i <= ids@.len(),
            entries@.len() == i,
            forall|j: int|
                0 <= j < i ==> (#[trigger] entries@[j]).0 == ids@[j] && entries@[j].1@
                    == graph_conflicts(TxGraphType::Complete, ids@, j) && entries@[j].2
                    == Opinion::Unset,
        decreases ids@.len() - i,
    {
        let conflicts = all_but(ids, i);
        let conflict_set = Conflicts::new_from(&conflicts);
        entries.push((ids[i], conflict_set, Opinion::Unset));
        i += 1;
    }
    let vision = graph_vision(&entries, Ghost(TxGraphType::Complete), Ghost(ids@));
    proof {
        lemma_conflict_graph_coherent(vision@, TxGraphType::Complete, ids@);
        lemma_graph_map(vision@, TxGraphType::Complete, ids@);
    }
    (tx_set, vision)
}

/// The star conflict graph over the given transactions: the first is the
/// centre and conflicts with every other one; the others, the leaves, do
/// not conflict with one another.
pub fn star_conflict_graph(ids: &Vec<TxId>) -> (graph: (Vec<(TxId, TxGlobalStatus)>, Vision))
    requires
        ids@.no_duplicates(),
        ids@.len() >= 1,
    ensures
        graph.0@ == fresh_tx_set(ids@),
        graph.1.wf(),
        graph.1@ == graph_map(TxGraphType::Star, ids@),
        is_conflict_graph(graph.1@, TxGraphType::Star, ids@),
        coherent(graph.1@),
{
    let tx_set = fresh_statuses(ids);
    let mut entries: Vec<(TxId, Conflicts, Opinion)> = Vec::new();
    let center = ids[0];
    let leaves = all_but(ids, 0);
    let leaves = Conflicts::new_from(&leaves);
    entries.push((center, leaves, Opinion::Unset));
    let mut only_center: Vec<TxId> = Vec::new();
    only_center.push(center);
    let center = Conflicts::new_from(&only_center);
    assert(center@ =~= seq![ids@[0]]);
    let mut i: usize = 1;
    while i < ids.len()
        invariant
            1 <= i <= ids@.len(),
            entries@.len() == i,
            center@ == seq![ids@[0]],
            forall|j: int|
                0 <= j < i ==> (#[trigger] entries@[j]).0 == ids@[j] && entries@[j].1@
                    == graph_conflicts(TxGraphType::Star, ids@, j) && entries@[j].2 == Opinion::Unset,
        decreases ids@.len() - i,
    {
        entries.push((ids[i], center.clone(), Opinion::Unset));
        i += 1;
    }
    let vision = graph_vision(&entries, Ghost(TxGraphType::Star), Ghost(ids@));
    proof {
        lemma_conflict_graph_coherent(vision@, TxGraphType::Star, ids@);
        lemma_graph_map(vision@, TxGraphType::Star, ids@);
    }
    (tx_set, vision)
}

/// A complete conflict graph over as many transactions as asked for, with
/// identifiers drawn at random and all distinct.
pub fn generate_complete_conflict_graph(tx_count: usize) -> (graph: (Vec<(TxId, TxGlobalStatus)>, Vision))
    requires
        tx_count <= 0x1_0000_0000,
    ensures
        graph.0@.len() == tx_count,
        exists|ids: Seq<TxId>|
            ids.no_duplicates() && graph.0@ == fresh_tx_set(ids) && graph.1@ == graph_map(
                TxGraphType::Complete,
                ids,
            ),
        graph.1.wf(),
        coherent(graph.1@),
{
    let ids = distinct_tx_ids(tx_count);
    complete_conflict_graph(&ids)
}

/// A star conflict graph over as many transactions as asked for, with
/// identifiers drawn at random and all distinct.
pub fn generate_star_conflict_graph(tx_count: usize) -> (graph: (Vec<(TxId, TxGlobalStatus)>, Vision))
    requires
        1 <= tx_count <= 0x1_0000_0000,
    ensures
        graph.0@.len() == tx_count,
        exists|ids: Seq<TxId>|
            ids.no_duplicates() && graph.0@ == fresh_tx_set(ids) && graph.1@ == graph_map(
                TxGraphType::Star,
                ids,
            ),
        graph.1.wf(),
        coherent(graph.1@),
{
    let ids = distinct_tx_ids(tx_count);
    star_conflict_graph(&ids)
}

} // verus!
