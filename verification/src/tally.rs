use crate::aux_types::NodeId;
use crate::aux_types::NodeStatus;
use crate::aux_types::Opinion;
use crate::aux_types::TxGlobalStatus;
use crate::aux_types::TxId;
use crate::aux_types::VisionMap;
use crate::fpcs::Node;
use crate::fpcs::NodeType;
use crate::hashed_order::arranged;
use crate::liked_set::comp_pass;
use crate::liked_set::elim_pass;
use crate::threshold::threshold_of;
use vstd::prelude::*;

verus! {

/// One of the nodes has the identifier.
pub open spec fn has_id(nodes: Seq<Node>, id: NodeId) -> bool {
    exists|i: int| 0 <= i < nodes.len() && (#[trigger] nodes[i]).id == id
}

/// No two of the nodes have the same identifier.
pub open spec fn distinct_ids(nodes: Seq<Node>) -> bool {
    forall|i: int, j: int|
        0 <= i < j < nodes.len() ==> (#[trigger] nodes[i]).id != (#[trigger] nodes[j]).id
}

/// The node that has the identifier.
pub open spec fn node_with_id(nodes: Seq<Node>, id: NodeId) -> Node {
    nodes[choose|i: int| 0 <= i < nodes.len() && (#[trigger] nodes[i]).id == id]
}

/// Whether the queried node reports a like of `tx` to the node whose vision
/// is `querier`: an honest node reports its own opinion, a malicious node
/// reports the querier's, a faulty node reports nothing.
pub open spec fn reports_like(nodes: Seq<Node>, querier: VisionMap, queried: NodeId, tx: TxId) -> bool {
    let node = node_with_id(nodes, queried);
    match node.node_type {
        NodeType::Regular => node.vision@[tx].1.like(),
        NodeType::Malicious => querier[tx].1.like(),
        NodeType::Faulty => false,
    }
}

/// The number of likes of `tx` that the sampled nodes report.
pub open spec fn tally_of(nodes: Seq<Node>, querier: VisionMap, sample: Seq<NodeId>, tx: TxId) -> nat
    decreases sample.len(),
{
    if sample.len() == 0 {
        0
    } else {
        tally_of(nodes, querier, sample.drop_last(), tx) + if reports_like(
            nodes,
            querier,
            sample.last(),
            tx,
        ) {
            1nat
        } else {
            0nat
        }
    }
}

/// The number of sampled nodes that are not faulty.
pub open spec fn responders(nodes: Seq<Node>, sample: Seq<NodeId>) -> nat
    decreases sample.len(),
{
    if sample.len() == 0 {
        0
    } else {
        responders(nodes, sample.drop_last()) + if node_with_id(nodes, sample.last()).node_type
            != NodeType::Faulty {
            1nat
        } else {
            0nat
        }
    }
}

/// A transaction gets no more likes than there are sampled nodes that
/// answer: the silence of a faulty node shrinks the sample.
pub proof fn lemma_tally_bound(nodes: Seq<Node>, querier: VisionMap, sample: Seq<NodeId>, tx: TxId)
    ensures
        tally_of(nodes, querier, sample, tx) <= responders(nodes, sample) <= sample.len(),
    decreases sample.len(),
{
    if sample.len() > 0 {
        lemma_tally_bound(nodes, querier, sample.drop_last(), tx);
    }
}

/// The opinions before pruning: a transaction is liked if its likes exceed
/// the threshold. The transactions stand in the order of `keys`.
pub open spec fn first_opinions(
    keys: Seq<TxId>,
    nodes: Seq<Node>,
    querier: VisionMap,
    sample: Seq<NodeId>,
    threshold: nat,
) -> Seq<(TxId, bool)> {
    Seq::new(
        keys.len(),
        |i: int| (keys[i], tally_of(nodes, querier, sample, keys[i]) > threshold),
    )
}

/// The number of queries that a node with that many neighbours makes.
pub open spec fn queries(k: nat, neighbours: nat) -> nat {
    if k <= neighbours {
        k
    } else {
        neighbours
    }
}

/// The outcome of a round for the node `me`, given the nodes it sampled:
/// likes counted and held against the threshold, then pruned in descending
/// order and completed in ascending order of the hashed transactions.
pub open spec fn round_opinions(
    me: Node,
    nodes: Seq<Node>,
    sample: Seq<NodeId>,
    k: nat,
    random_number: u32,
) -> Seq<(TxId, bool)> {
    let first = first_opinions(
        me.vision.keys(),
        nodes,
        me.vision@,
        sample,
        threshold_of(random_number, queries(k, me.neighborhood@.len())),
    );
    comp_pass(
        me.vision@,
        arranged(elim_pass(me.vision@, arranged(first, random_number, true)), random_number, false),
    )
}

/// Every honest node holds a final opinion on `tx`.
pub open spec fn honest_all_final(nodes: Seq<Node>, tx: TxId) -> bool {
    forall|i: int|
        0 <= i < nodes.len() && (#[trigger] nodes[i]).node_type == NodeType::Regular
            ==> nodes[i].vision@[tx].1 is Final
}

/// The number of honest nodes.
pub open spec fn honest_count(nodes: Seq<Node>) -> nat
    decreases nodes.len(),
{
    if nodes.len() == 0 {
        0
    } else {
        honest_count(nodes.drop_last()) + if nodes.last().node_type == NodeType::Regular {
            1nat
        } else {
            0nat
        }
    }
}

/// The number of honest nodes that like `tx`.
pub open spec fn honest_likes(nodes: Seq<Node>, tx: TxId) -> nat
    decreases nodes.len(),
{
    if nodes.len() == 0 {
        0
    } else {
        honest_likes(nodes.drop_last(), tx) + if nodes.last().node_type == NodeType::Regular
            && nodes.last().vision@[tx].1.like() {
            1nat
        } else {
            0nat
        }
    }
}

/// No more honest nodes like a transaction than there are honest nodes,
/// and no more of these than there are nodes.
pub proof fn lemma_honest_likes_bound(nodes: Seq<Node>, tx: TxId)
    ensures
        honest_likes(nodes, tx) <= honest_count(nodes) <= nodes.len(),
    decreases nodes.len(),
{
    if nodes.len() > 0 {
        lemma_honest_likes_bound(nodes.drop_last(), tx);
    }
}

/// The transactions that were not yet published as finalized and on which
/// every honest node now holds a final opinion, in the order of `txs`.
pub open spec fn newly_final_txs(txs: Seq<(TxId, TxGlobalStatus)>, nodes: Seq<Node>) -> Seq<TxId>
    decreases txs.len(),
{
    if txs.len() == 0 {
        Seq::empty()
    } else {
        let front = newly_final_txs(txs.drop_last(), nodes);
        if txs.last().1 == TxGlobalStatus::NotFinalized && honest_all_final(nodes, txs.last().0) {
            front.push(txs.last().0)
        } else {
            front
        }
    }
}

/// The honest nodes that were not yet published as finalized and are
/// finalized now, in the order of the roster.
pub open spec fn newly_final_nodes(
    roster: Seq<(NodeId, NodeType, NodeStatus)>,
    nodes: Seq<Node>,
    upto: nat,
) -> Seq<NodeId>
    decreases upto,
{
    if upto == 0 {
        Seq::empty()
    } else {
        let front = newly_final_nodes(roster, nodes, (upto - 1) as nat);
        let i = upto - 1;
        if roster[i].1 == NodeType::Regular && roster[i].2 == NodeStatus::NotFinalized
            && nodes[i].status == NodeStatus::Finalized {
            front.push(roster[i].0)
        } else {
            front
        }
    }
}

/// The opinions of a node, in increasing order of transaction identifier.
pub open spec fn opinions_of(node: Node) -> Seq<(TxId, Opinion)> {
    Seq::new(
        node.vision.keys().len(),
        |t: int| (node.vision.keys()[t], node.vision@[node.vision.keys()[t]].1),
    )
}

/// The places of the honest nodes, in increasing order.
pub open spec fn honest_places(nodes: Seq<Node>) -> Seq<int>
    decreases nodes.len(),
{
    if nodes.len() == 0 {
        Seq::empty()
    } else if nodes.last().node_type == NodeType::Regular {
        honest_places(nodes.drop_last()).push(nodes.len() - 1)
    } else {
        honest_places(nodes.drop_last())
    }
}

} // verus!
