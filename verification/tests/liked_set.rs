use fpcs::aux_types::{
    Conflicts, Neighborhood, NodeId, NodeStatus, Opinion, TxId, Vision,
};
use fpcs::fpcs::{Node, NodeType};
use fpcs::hashed_order::{hashed_key, sort_by_hash};
use fpcs::liked_set::{complete, prune};

fn graph_node(edges: &[(u32, u32)], txs: &[u32]) -> Node {
    let mut entries = Vec::new();
    for tx in txs {
        let mut conflicts = Conflicts::new();
        for (a, b) in edges {
            if a == tx {
                conflicts.add(TxId(*b));
            }
            if b == tx {
                conflicts.add(TxId(*a));
            }
        }
        entries.push((TxId(*tx), conflicts, Opinion::Pending(false, 0)));
    }
    Node {
        id: NodeId(1),
        vision: Vision::new_from(&entries),
        neighborhood: Neighborhood::new(),
        status: NodeStatus::NotFinalized,
        node_type: NodeType::Regular,
    }
}

fn conflicting(edges: &[(u32, u32)], a: TxId, b: TxId) -> bool {
    edges.iter().any(|(x, y)| (TxId(*x) == a && TxId(*y) == b) || (TxId(*x) == b && TxId(*y) == a))
}

fn is_independent(edges: &[(u32, u32)], opinions: &[(TxId, bool)]) -> bool {
    opinions.iter().all(|(a, la)| {
        !*la || opinions.iter().all(|(b, lb)| !*lb || !conflicting(edges, *a, *b))
    })
}

fn is_maximal(edges: &[(u32, u32)], opinions: &[(TxId, bool)]) -> bool {
    opinions.iter().all(|(a, la)| {
        *la || opinions.iter().any(|(b, lb)| *lb && conflicting(edges, *a, *b))
    })
}

fn like_of(opinions: &[(TxId, bool)], tx: u32) -> bool {
    opinions.iter().find(|(t, _)| *t == TxId(tx)).unwrap().1
}

const PATH: [(u32, u32); 4] = [(1, 2), (2, 3), (3, 4), (4, 5)];
const PATH_TXS: [u32; 5] = [1, 2, 3, 4, 5];

#[test]
fn prune_walks_in_the_given_order() {
    let node = graph_node(&PATH, &PATH_TXS);
    // All liked, walked from 1 to 5: 1 goes (2 is liked), 2 goes (3 is
    // liked), 3 goes, 4 goes, 5 stays.
    let mut opinions: Vec<(TxId, bool)> = PATH_TXS.iter().map(|t| (TxId(*t), true)).collect();
    prune(&node.vision, &mut opinions);
    assert_eq!(
        opinions,
        vec![
            (TxId(1), false),
            (TxId(2), false),
            (TxId(3), false),
            (TxId(4), false),
            (TxId(5), true)
        ]
    );
    // Walked from 5 to 1 the other end stays.
    let mut opinions: Vec<(TxId, bool)> = PATH_TXS.iter().rev().map(|t| (TxId(*t), true)).collect();
    prune(&node.vision, &mut opinions);
    assert_eq!(like_of(&opinions, 1), true);
    assert_eq!(opinions.iter().filter(|(_, l)| *l).count(), 1);
}

#[test]
fn prune_keeps_what_conflicts_with_nothing_liked() {
    let node = graph_node(&PATH, &PATH_TXS);
    let mut opinions =
        vec![(TxId(1), true), (TxId(2), true), (TxId(3), false), (TxId(4), true), (TxId(5), false)];
    prune(&node.vision, &mut opinions);
    assert_eq!(
        opinions,
        vec![(TxId(1), false), (TxId(2), true), (TxId(3), false), (TxId(4), true), (TxId(5), false)]
    );
}

#[test]
fn complete_walks_in_the_given_order() {
    let node = graph_node(&PATH, &PATH_TXS);
    let mut opinions: Vec<(TxId, bool)> = PATH_TXS.iter().map(|t| (TxId(*t), false)).collect();
    complete(&node.vision, &mut opinions);
    assert_eq!(
        opinions,
        vec![(TxId(1), true), (TxId(2), false), (TxId(3), true), (TxId(4), false), (TxId(5), true)]
    );
    let mut opinions =
        vec![(TxId(1), false), (TxId(2), false), (TxId(3), false), (TxId(4), true), (TxId(5), false)];
    complete(&node.vision, &mut opinions);
    assert_eq!(
        opinions,
        vec![(TxId(1), true), (TxId(2), false), (TxId(3), false), (TxId(4), true), (TxId(5), false)]
    );
}

#[test]
fn elim_orders_descending_and_leaves_an_independent_set() {
    let node = graph_node(&PATH, &PATH_TXS);
    for r in [1u32, 99, 1_234_567, 4_000_000_000] {
        let mut opinions: Vec<(TxId, bool)> = PATH_TXS.iter().map(|t| (TxId(*t), true)).collect();
        node.elim(&mut opinions, r);
        assert_eq!(opinions.len(), 5);
        for pair in opinions.windows(2) {
            assert!(hashed_key(pair[0].0, r) >= hashed_key(pair[1].0, r));
        }
        assert!(is_independent(&PATH, &opinions));
        assert!(opinions.iter().any(|(_, l)| *l));
    }
}

#[test]
fn elim_is_the_pruning_pass_over_the_sorted_vector() {
    let node = graph_node(&PATH, &PATH_TXS);
    for r in [7u32, 70_000, 3_333_333_333] {
        let given =
            vec![(TxId(1), true), (TxId(2), true), (TxId(3), true), (TxId(4), false), (TxId(5), true)];
        let mut by_elim = given.clone();
        node.elim(&mut by_elim, r);
        let mut by_hand = given.clone();
        sort_by_hash(&mut by_hand, r, true);
        prune(&node.vision, &mut by_hand);
        assert_eq!(by_elim, by_hand);
    }
}

#[test]
fn elim_changes_nothing_on_an_independent_set() {
    let node = graph_node(&PATH, &PATH_TXS);
    for r in [5u32, 50_000, 2_999_999_999] {
        let given =
            vec![(TxId(1), true), (TxId(2), false), (TxId(3), false), (TxId(4), true), (TxId(5), false)];
        let mut pruned = given.clone();
        node.elim(&mut pruned, r);
        for (tx, like) in &given {
            assert_eq!(like_of(&pruned, tx.0), *like);
        }
        let mut sorted = given.clone();
        sort_by_hash(&mut sorted, r, true);
        assert_eq!(pruned, sorted);
        // a second run changes nothing at all
        let mut again = pruned.clone();
        node.elim(&mut again, r);
        assert_eq!(again, pruned);
    }
}

#[test]
fn comp_orders_ascending_and_leaves_a_maximal_set() {
    let node = graph_node(&PATH, &PATH_TXS);
    for r in [1u32, 99, 1_234_567, 4_000_000_000] {
        let opinions: Vec<(TxId, bool)> = PATH_TXS.iter().map(|t| (TxId(*t), false)).collect();
        let completed = node.comp(opinions, r);
        assert_eq!(completed.len(), 5);
        for pair in completed.windows(2) {
            assert!(hashed_key(pair[0].0, r) <= hashed_key(pair[1].0, r));
        }
        assert!(is_independent(&PATH, &completed));
        assert!(is_maximal(&PATH, &completed));
    }
}

#[test]
fn comp_changes_nothing_on_a_maximal_set() {
    let node = graph_node(&PATH, &PATH_TXS);
    for r in [5u32, 50_000, 2_999_999_999] {
        let given =
            vec![(TxId(1), true), (TxId(2), false), (TxId(3), true), (TxId(4), false), (TxId(5), true)];
        let completed = node.comp(given.clone(), r);
        for (tx, like) in &given {
            assert_eq!(like_of(&completed, tx.0), *like);
        }
        let again = node.comp(completed.clone(), r);
        assert_eq!(again, completed);
    }
}

#[test]
fn elim_then_comp_gives_a_maximal_independent_set() {
    // a ring of six with a chord, and an isolated transaction
    let edges = [(1, 2), (2, 3), (3, 4), (4, 5), (5, 6), (6, 1), (1, 4)];
    let txs = [1, 2, 3, 4, 5, 6, 7];
    let node = graph_node(&edges, &txs);
    for r in 0..60u32 {
        for pattern in 0..128u32 {
            let mut opinions: Vec<(TxId, bool)> = txs
                .iter()
                .enumerate()
                .map(|(i, t)| (TxId(*t), pattern & (1 << i) != 0))
                .collect();
            node.elim(&mut opinions, r * 71_000_003);
            assert!(is_independent(&edges, &opinions));
            let completed = node.comp(opinions, r * 71_000_003);
            assert!(is_independent(&edges, &completed));
            assert!(is_maximal(&edges, &completed));
            assert!(like_of(&completed, 7));
        }
    }
}

#[test]
fn complete_graph_ends_with_exactly_one_like() {
    let edges = [(1, 2), (1, 3), (1, 4), (2, 3), (2, 4), (3, 4)];
    let txs = [1, 2, 3, 4];
    let node = graph_node(&edges, &txs);
    for r in [0u32, 17, 1 << 20, u32::MAX] {
        for pattern in 0..16u32 {
            let mut opinions: Vec<(TxId, bool)> = txs
                .iter()
                .enumerate()
                .map(|(i, t)| (TxId(*t), pattern & (1 << i) != 0))
                .collect();
            node.elim(&mut opinions, r);
            let completed = node.comp(opinions, r);
            assert_eq!(completed.iter().filter(|(_, l)| *l).count(), 1);
        }
    }
}
