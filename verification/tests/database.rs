use fpcs::aux_types::{
    NodeGraphType, NodeId, NodeStatus, Opinion, TxGlobalStatus, TxGraphType, TxId,
};
use fpcs::conflict_graph::{
    complete_conflict_graph, generate_complete_conflict_graph, generate_star_conflict_graph,
    star_conflict_graph,
};
use fpcs::fpcs::{Database, LikeDistributions, NodeType};
use fpcs::fresh_ids::{distinct_node_ids, distinct_numbers, distinct_tx_ids, unused_from};
use fpcs::seeding::{expand, fill_opinions, like_proportions};

fn node_ids(count: u32) -> Vec<NodeId> {
    (1..=count).map(NodeId).collect()
}

fn tx_ids(numbers: &[u32]) -> Vec<TxId> {
    numbers.iter().map(|n| TxId(*n)).collect()
}

fn opinion(database: &Database, node: usize, tx: u32) -> Opinion {
    *database.data()[node].vision.get_opinion_status(&TxId(tx))
}

#[test]
fn complete_graph_makes_every_pair_conflict() {
    let ids = tx_ids(&[30, 10, 20]);
    let (tx_set, vision) = complete_conflict_graph(&ids);
    assert_eq!(
        tx_set,
        vec![
            (TxId(30), TxGlobalStatus::NotFinalized),
            (TxId(10), TxGlobalStatus::NotFinalized),
            (TxId(20), TxGlobalStatus::NotFinalized)
        ]
    );
    assert_eq!(vision.get_txs(), tx_ids(&[10, 20, 30]));
    assert_eq!(vision.get_conflict_set(&TxId(30)).get(), &tx_ids(&[10, 20]));
    assert_eq!(vision.get_conflict_set(&TxId(10)).get(), &tx_ids(&[30, 20]));
    assert_eq!(vision.get_conflict_set(&TxId(20)).get(), &tx_ids(&[30, 10]));
    for tx in &ids {
        assert_eq!(*vision.get_opinion_status(tx), Opinion::Unset);
    }
    let (tx_set, vision) = complete_conflict_graph(&vec![]);
    assert!(tx_set.is_empty());
    assert!(vision.get_txs().is_empty());
}

#[test]
fn star_graph_has_the_first_tx_for_its_centre() {
    let ids = tx_ids(&[30, 10, 20, 40]);
    let (tx_set, vision) = star_conflict_graph(&ids);
    assert_eq!(tx_set.len(), 4);
    assert_eq!(tx_set[0], (TxId(30), TxGlobalStatus::NotFinalized));
    assert_eq!(vision.get_conflict_set(&TxId(30)).get(), &tx_ids(&[10, 20, 40]));
    assert_eq!(vision.get_conflict_set(&TxId(10)).get(), &tx_ids(&[30]));
    assert_eq!(vision.get_conflict_set(&TxId(20)).get(), &tx_ids(&[30]));
    assert_eq!(vision.get_conflict_set(&TxId(40)).get(), &tx_ids(&[30]));
    let (_, lonely) = star_conflict_graph(&tx_ids(&[5]));
    assert!(lonely.get_conflict_set(&TxId(5)).get().is_empty());
}

#[test]
fn generated_graphs_have_distinct_txs() {
    let (tx_set, vision) = generate_complete_conflict_graph(12);
    assert_eq!(tx_set.len(), 12);
    assert_eq!(vision.get_txs().len(), 12);
    for (tx, status) in &tx_set {
        assert_eq!(*status, TxGlobalStatus::NotFinalized);
        assert_eq!(vision.get_conflict_set(tx).get().len(), 11);
        assert!(!vision.get_conflict_set(tx).get().contains(tx));
    }
    let (tx_set, vision) = generate_star_conflict_graph(9);
    assert_eq!(vision.get_txs().len(), 9);
    assert_eq!(vision.get_conflict_set(&tx_set[0].0).get().len(), 8);
    for (tx, _) in &tx_set[1..] {
        assert_eq!(vision.get_conflict_set(tx).get(), &vec![tx_set[0].0]);
    }
}

#[test]
fn unused_from_skips_what_is_taken() {
    assert_eq!(unused_from(&vec![], 5), 5);
    assert_eq!(unused_from(&vec![5, 6, 7], 5), 8);
    assert_eq!(unused_from(&vec![7, 5], 5), 6);
    assert_eq!(unused_from(&vec![5, 6, 7], 9), 9);
    assert_eq!(unused_from(&vec![u32::MAX, 0], u32::MAX), 1);
    assert_eq!(unused_from(&vec![u32::MAX], u32::MAX), 0);
}

#[test]
fn drawn_identifiers_are_distinct() {
    let numbers = distinct_numbers(300);
    assert_eq!(numbers.len(), 300);
    let mut sorted = numbers.clone();
    sorted.sort();
    sorted.dedup();
    assert_eq!(sorted.len(), 300);
    let txs = distinct_tx_ids(40);
    assert_eq!(txs.len(), 40);
    for (i, a) in txs.iter().enumerate() {
        assert!(!txs[i + 1..].contains(a));
    }
    let nodes = distinct_node_ids(40);
    for (i, a) in nodes.iter().enumerate() {
        assert!(!nodes[i + 1..].contains(a));
    }
    assert!(distinct_numbers(0).is_empty());
}

#[test]
fn like_proportions_share_the_honest_nodes_out() {
    let tx_set: Vec<(TxId, TxGlobalStatus)> =
        [10u32, 20, 30].iter().map(|n| (TxId(*n), TxGlobalStatus::NotFinalized)).collect();
    assert_eq!(
        like_proportions(&tx_set, 3, 2),
        vec![(TxId(10), 2), (TxId(20), 1)]
    );
    assert_eq!(
        like_proportions(&tx_set, 5, 2),
        vec![(TxId(10), 3), (TxId(20), 2)]
    );
    assert_eq!(
        like_proportions(&tx_set, 7, 3),
        vec![(TxId(10), 3), (TxId(20), 2), (TxId(30), 2)]
    );
    assert_eq!(
        like_proportions(&tx_set, 2, 3),
        vec![(TxId(10), 1), (TxId(20), 1), (TxId(30), 0)]
    );
    // more carriers than transactions: the list ends with the transactions
    assert_eq!(
        like_proportions(&tx_set, 7, 5),
        vec![(TxId(10), 2), (TxId(20), 2), (TxId(30), 1)]
    );
    assert_eq!(like_proportions(&tx_set, 4, 1), vec![(TxId(10), 4)]);
}

#[test]
fn expand_repeats_each_tx() {
    assert_eq!(
        expand(&vec![(TxId(10), 2), (TxId(20), 0), (TxId(30), 1)]),
        tx_ids(&[10, 10, 30])
    );
    assert!(expand(&vec![]).is_empty());
}

#[test]
fn fill_opinions_sets_what_is_not_set() {
    let (_, mut vision) = star_conflict_graph(&tx_ids(&[50, 10, 20, 30]));
    vision.set_opinion(&TxId(20), Opinion::Pending(true, 0));
    fill_opinions(&mut vision);
    assert_eq!(*vision.get_opinion_status(&TxId(10)), Opinion::Pending(true, 0));
    assert_eq!(*vision.get_opinion_status(&TxId(20)), Opinion::Pending(true, 0));
    assert_eq!(*vision.get_opinion_status(&TxId(30)), Opinion::Pending(true, 0));
    assert_eq!(*vision.get_opinion_status(&TxId(50)), Opinion::Pending(false, 0));

    // with the centre first in the order and nothing liked, the centre wins
    let (_, mut vision) = star_conflict_graph(&tx_ids(&[5, 10, 20, 30]));
    fill_opinions(&mut vision);
    assert_eq!(*vision.get_opinion_status(&TxId(5)), Opinion::Pending(true, 0));
    assert_eq!(*vision.get_opinion_status(&TxId(10)), Opinion::Pending(false, 0));
    assert_eq!(*vision.get_opinion_status(&TxId(30)), Opinion::Pending(false, 0));
}

#[test]
fn with_ids_seeds_three_nodes_over_two_txs() {
    let database = Database::with_ids(
        &node_ids(3),
        &tx_ids(&[10, 20]),
        0,
        0,
        NodeGraphType::Complete,
        TxGraphType::Complete,
        LikeDistributions::Equal,
    );
    assert_eq!(opinion(&database, 0, 10), Opinion::Pending(true, 0));
    assert_eq!(opinion(&database, 0, 20), Opinion::Pending(false, 0));
    assert_eq!(opinion(&database, 1, 10), Opinion::Pending(true, 0));
    assert_eq!(opinion(&database, 1, 20), Opinion::Pending(false, 0));
    assert_eq!(opinion(&database, 2, 10), Opinion::Pending(false, 0));
    assert_eq!(opinion(&database, 2, 20), Opinion::Pending(true, 0));
    assert!(!database.is_final());
    assert_eq!(
        database.tx_set(),
        &vec![(TxId(10), TxGlobalStatus::NotFinalized), (TxId(20), TxGlobalStatus::NotFinalized)]
    );
}

#[test]
fn with_ids_puts_honest_nodes_first() {
    let database = Database::with_ids(
        &node_ids(6),
        &tx_ids(&[10, 20, 30]),
        2,
        1,
        NodeGraphType::Complete,
        TxGraphType::Star,
        LikeDistributions::Equal,
    );
    let kinds: Vec<NodeType> = database.node_set().iter().map(|(_, kind, _)| *kind).collect();
    assert_eq!(
        kinds,
        vec![
            NodeType::Regular,
            NodeType::Regular,
            NodeType::Regular,
            NodeType::Faulty,
            NodeType::Faulty,
            NodeType::Malicious
        ]
    );
    for (place, node) in database.data().iter().enumerate() {
        assert_eq!(node.id, NodeId(place as u32 + 1));
        assert_eq!(node.node_type, kinds[place]);
        assert_eq!(node.status, NodeStatus::NotFinalized);
        assert_eq!(database.node_set()[place], (node.id, node.node_type, node.status));
        let others: Vec<NodeId> =
            node_ids(6).into_iter().filter(|id| *id != node.id).collect();
        assert_eq!(node.neighborhood.get(), &others);
        assert_eq!(node.vision.get_txs(), tx_ids(&[10, 20, 30]));
    }
    for place in 3..6 {
        for tx in [10, 20, 30] {
            assert_eq!(opinion(&database, place, tx), Opinion::Unset);
        }
    }
    assert_eq!(database.position(&NodeId(4)), Some(3));
    assert_eq!(database.position(&NodeId(77)), None);
}

#[test]
fn with_ids_star_concentrated_on_two() {
    // 50 is the centre; 10 is the first leaf.
    let database = Database::with_ids(
        &node_ids(5),
        &tx_ids(&[50, 10, 20, 30, 40]),
        0,
        0,
        NodeGraphType::Complete,
        TxGraphType::Star,
        LikeDistributions::Concentrated(2),
    );
    for place in 0..3 {
        assert_eq!(opinion(&database, place, 50), Opinion::Pending(true, 0));
        for leaf in [10, 20, 30, 40] {
            assert_eq!(opinion(&database, place, leaf), Opinion::Pending(false, 0));
        }
    }
    for place in 3..5 {
        assert_eq!(opinion(&database, place, 50), Opinion::Pending(false, 0));
        for leaf in [10, 20, 30, 40] {
            assert_eq!(opinion(&database, place, leaf), Opinion::Pending(true, 0));
        }
    }
}

#[test]
fn with_ids_leaves_late_nodes_without_a_seed() {
    // Five carriers but two transactions: seven honest nodes share out as
    // 2, 2, 1, 1, 1, of which only the first two shares have a transaction.
    let database = Database::with_ids(
        &node_ids(7),
        &tx_ids(&[20, 10]),
        0,
        0,
        NodeGraphType::Complete,
        TxGraphType::Complete,
        LikeDistributions::Concentrated(5),
    );
    for place in 0..2 {
        assert_eq!(opinion(&database, place, 20), Opinion::Pending(true, 0));
        assert_eq!(opinion(&database, place, 10), Opinion::Pending(false, 0));
    }
    for place in 2..4 {
        assert_eq!(opinion(&database, place, 10), Opinion::Pending(true, 0));
        assert_eq!(opinion(&database, place, 20), Opinion::Pending(false, 0));
    }
    // without a seed the smallest identifier is liked
    for place in 4..7 {
        assert_eq!(opinion(&database, place, 10), Opinion::Pending(true, 0));
        assert_eq!(opinion(&database, place, 20), Opinion::Pending(false, 0));
    }
}

#[test]
fn with_ids_fewer_honest_nodes_than_carriers() {
    let database = Database::with_ids(
        &node_ids(4),
        &tx_ids(&[10, 20, 30, 40]),
        1,
        1,
        NodeGraphType::Complete,
        TxGraphType::Complete,
        LikeDistributions::Concentrated(3),
    );
    assert_eq!(opinion(&database, 0, 10), Opinion::Pending(true, 0));
    assert_eq!(opinion(&database, 1, 20), Opinion::Pending(true, 0));
    assert_eq!(opinion(&database, 1, 10), Opinion::Pending(false, 0));
    assert_eq!(opinion(&database, 2, 10), Opinion::Unset);
    assert_eq!(opinion(&database, 3, 40), Opinion::Unset);
}

#[test]
fn a_network_without_txs_is_final_from_the_start() {
    let database = Database::with_ids(
        &node_ids(3),
        &vec![],
        1,
        0,
        NodeGraphType::Complete,
        TxGraphType::Complete,
        LikeDistributions::Concentrated(1),
    );
    assert!(database.is_final());
    assert!(database.tx_set().is_empty());
    for node in database.data() {
        assert_eq!(node.status, NodeStatus::Finalized);
        assert!(node.vision.has_finalized());
    }
}

#[test]
fn generate_new_builds_a_whole_network() {
    let database = Database::generate_new(
        20,
        3,
        4,
        NodeGraphType::Complete,
        15,
        TxGraphType::Star,
        LikeDistributions::Concentrated(2),
    );
    assert_eq!(database.data().len(), 20);
    assert_eq!(database.node_set().len(), 20);
    assert_eq!(database.tx_set().len(), 15);
    assert!(!database.is_final());
    let mut txs: Vec<TxId> = database.tx_set().iter().map(|(tx, _)| *tx).collect();
    txs.sort();
    let mut deduped = txs.clone();
    deduped.dedup();
    assert_eq!(deduped.len(), 15);
    let mut ids: Vec<NodeId> = database.data().iter().map(|node| node.id).collect();
    ids.sort();
    ids.dedup();
    assert_eq!(ids.len(), 20);
    let centre = database.tx_set()[0].0;
    for (place, node) in database.data().iter().enumerate() {
        assert_eq!(node.vision.get_txs(), txs);
        assert_eq!(node.neighborhood.len(), 19);
        assert!(!node.neighborhood.get().contains(&node.id));
        let expected = if place < 13 {
            NodeType::Regular
        } else if place < 16 {
            NodeType::Faulty
        } else {
            NodeType::Malicious
        };
        assert_eq!(node.node_type, expected);
        for tx in &txs {
            let opinion = *node.vision.get_opinion_status(tx);
            if place < 13 {
                assert!(matches!(opinion, Opinion::Pending(_, 0)));
            } else {
                assert_eq!(opinion, Opinion::Unset);
            }
        }
        if place < 13 {
            // a star has two maximal independent sets
            let likes_centre = node.vision.get_opinion(centre);
            for tx in &txs {
                if *tx != centre {
                    assert_eq!(node.vision.get_opinion(*tx), !likes_centre);
                }
            }
            // 13 honest nodes over 2 carriers: 7 for the centre, 6 for the first leaf
            assert_eq!(likes_centre, place < 7);
        }
    }
}

#[test]
fn results_list_the_honest_nodes() {
    let database = Database::with_ids(
        &node_ids(4),
        &tx_ids(&[10, 20]),
        1,
        1,
        NodeGraphType::Complete,
        TxGraphType::Complete,
        LikeDistributions::Equal,
    );
    let results = database.results();
    assert_eq!(
        results,
        vec![
            (
                NodeId(1),
                NodeStatus::NotFinalized,
                vec![(TxId(10), Opinion::Pending(true, 0)), (TxId(20), Opinion::Pending(false, 0))]
            ),
            (
                NodeId(2),
                NodeStatus::NotFinalized,
                vec![(TxId(10), Opinion::Pending(false, 0)), (TxId(20), Opinion::Pending(true, 0))]
            ),
        ]
    );
}
