use fpcs::aux_types::{
    NodeGraphType, NodeId, NodeStatus, Opinion, TxGlobalStatus, TxGraphType, TxId,
};
use fpcs::constants::K;
use fpcs::fpcs::{Database, LikeDistributions, NodeType};
use fpcs::hashed_order::hashed_key;
use fpcs::threshold::{round_random, threshold};

fn opinion(database: &Database, node: usize, tx: TxId) -> Opinion {
    *database.data()[node].vision.get_opinion_status(&tx)
}

fn snapshot(database: &Database) -> Vec<Vec<(TxId, Opinion)>> {
    database.data().iter().map(|node| node.opinions()).collect()
}

// A round in which every node queries its whole neighborhood, which is what
// happens when no node has more than K neighbours.
fn full_round(database: &mut Database, random_number: u32) -> (Vec<(TxId, usize, usize)>, Vec<NodeId>) {
    let roster = database.node_set().clone();
    for (place, (_, kind, status)) in roster.iter().enumerate() {
        if !status.finalized() && *kind == NodeType::Regular {
            let sample = database.data()[place].neighborhood.get().clone();
            assert!(sample.len() <= K);
            database.update_node(place, &sample, random_number);
        }
    }
    database.close_round()
}

fn check_invariants(database: &Database) {
    let txs: Vec<TxId> = database.tx_set().iter().map(|(tx, _)| *tx).collect();
    let mut sorted = txs.clone();
    sorted.sort();
    for (place, node) in database.data().iter().enumerate() {
        // every node knows exactly the transactions of the network
        assert_eq!(node.vision.get_txs(), sorted);
        // status and roster follow the opinions
        assert_eq!(node.status.finalized(), node.vision.has_finalized());
        assert_eq!(database.node_set()[place], (node.id, node.node_type, node.status));
        for tx in &txs {
            let here = *node.vision.get_opinion_status(tx);
            if here == Opinion::Final(true) {
                // final likes are independent, and all around them is rejected
                for other in node.vision.get_conflict_set(tx).get() {
                    assert_eq!(*node.vision.get_opinion_status(other), Opinion::Final(false));
                }
            }
            if node.node_type != NodeType::Regular {
                assert_eq!(here, Opinion::Unset);
            }
        }
    }
    for (tx, status) in database.tx_set() {
        let everywhere = database
            .data()
            .iter()
            .filter(|node| node.node_type == NodeType::Regular)
            .all(|node| node.vision.get_opinion_status(tx).is_final());
        assert_eq!(status.finalized(), everywhere);
    }
    let all_honest_final = database
        .data()
        .iter()
        .filter(|node| node.node_type == NodeType::Regular)
        .all(|node| node.status.finalized());
    assert_eq!(database.is_final(), all_honest_final);
}

fn check_finality_kept(before: &Vec<Vec<(TxId, Opinion)>>, after: &Vec<Vec<(TxId, Opinion)>>) {
    assert_eq!(before.len(), after.len());
    for (old, new) in before.iter().zip(after.iter()) {
        assert_eq!(old.len(), new.len());
        for ((old_tx, old_opinion), (new_tx, new_opinion)) in old.iter().zip(new.iter()) {
            assert_eq!(old_tx, new_tx);
            if old_opinion.is_final() {
                assert_eq!(old_opinion, new_opinion);
            }
        }
    }
}

#[test]
fn trivial_convergence_with_chosen_random_numbers() {
    let t0 = TxId(10);
    let t1 = TxId(20);
    let mut database = Database::with_ids(
        &vec![NodeId(1), NodeId(2), NodeId(3)],
        &vec![t0, t1],
        0,
        0,
        NodeGraphType::Complete,
        TxGraphType::Complete,
        LikeDistributions::Equal,
    );
    // In the first round the transaction with the smaller key wins the
    // two nodes that see one like for each; pick a draw that favours t0.
    let mut draw: u32 = 0;
    while hashed_key(t0, round_random(draw)) >= hashed_key(t1, round_random(draw)) {
        draw += 1;
    }
    let mut rounds = 0;
    let mut finalized_txs = Vec::new();
    let mut finalized_nodes = Vec::new();
    while !database.is_final() {
        let before = snapshot(&database);
        let random_number = round_random(draw.wrapping_add(rounds * 1_000_003));
        let (txs, nodes) = full_round(&mut database, if rounds == 0 {
            round_random(draw)
        } else {
            random_number
        });
        check_finality_kept(&before, &snapshot(&database));
        check_invariants(&database);
        finalized_txs.extend(txs);
        finalized_nodes.extend(nodes);
        rounds += 1;
        assert!(rounds <= 20);
    }
    assert_eq!(rounds, 6);
    for place in 0..3 {
        assert_eq!(opinion(&database, place, t0), Opinion::Final(true));
        assert_eq!(opinion(&database, place, t1), Opinion::Final(false));
        assert_eq!(database.data()[place].status, NodeStatus::Finalized);
    }
    assert_eq!(
        database.tx_set(),
        &vec![(t0, TxGlobalStatus::Finalized), (t1, TxGlobalStatus::Finalized)]
    );
    assert_eq!(finalized_txs, vec![(t0, 3, 3), (t1, 0, 3)]);
    assert_eq!(finalized_nodes, vec![NodeId(1), NodeId(2), NodeId(3)]);
}

#[test]
fn trivial_convergence_first_round_outcome() {
    let t0 = TxId(10);
    let t1 = TxId(20);
    for draw in [0u32, 5, 1 << 31, u32::MAX] {
        let mut database = Database::with_ids(
            &vec![NodeId(1), NodeId(2), NodeId(3)],
            &vec![t0, t1],
            0,
            0,
            NodeGraphType::Complete,
            TxGraphType::Complete,
            LikeDistributions::Equal,
        );
        let random_number = round_random(draw);
        let winner = if hashed_key(t0, random_number) < hashed_key(t1, random_number) {
            t0
        } else {
            t1
        };
        let loser = if winner == t0 { t1 } else { t0 };
        // node 0 sees one like for each transaction
        let sample = database.data()[0].neighborhood.get().clone();
        let eta = database.data()[0].count_likes(&sample, &database);
        assert_eq!(eta, vec![(t0, 1), (t1, 1)]);
        let outcome = database.data()[0].opinions_from_sample(&sample, K, &database, random_number);
        assert_eq!(outcome.len(), 2);
        assert!(outcome.contains(&(winner, true)));
        assert!(outcome.contains(&(loser, false)));
        full_round(&mut database, random_number);
        for place in 0..3 {
            assert!(opinion(&database, place, winner).is_like());
            assert!(!opinion(&database, place, loser).is_like());
        }
    }
}

#[test]
fn trivial_convergence_with_drawn_random_numbers() {
    let mut database = Database::with_ids(
        &vec![NodeId(1), NodeId(2), NodeId(3)],
        &vec![TxId(10), TxId(20)],
        0,
        0,
        NodeGraphType::Complete,
        TxGraphType::Complete,
        LikeDistributions::Equal,
    );
    let mut rounds = 0;
    while !database.is_final() {
        let report = database.run_fpcs_round();
        assert!(10 * (report.random_number as u64 + 1) > 1u64 << 32);
        assert!(10 * (report.random_number as u64) < 9 * (1u64 << 32));
        check_invariants(&database);
        rounds += 1;
        assert!(rounds <= 20);
    }
    // all three agree on one transaction
    let first = database.data()[0].opinions();
    for node in database.data() {
        assert_eq!(node.opinions(), first);
    }
    assert_eq!(first.iter().filter(|(_, o)| *o == Opinion::Final(true)).count(), 1);
    assert_eq!(first.iter().filter(|(_, o)| *o == Opinion::Final(false)).count(), 1);
}

#[test]
fn star_with_concentrated_likes() {
    let centre = TxId(50);
    let leaves = [TxId(10), TxId(20), TxId(30), TxId(40)];
    let mut database = Database::with_ids(
        &(1..=5).map(NodeId).collect(),
        &vec![centre, leaves[0], leaves[1], leaves[2], leaves[3]],
        0,
        0,
        NodeGraphType::Complete,
        TxGraphType::Star,
        LikeDistributions::Concentrated(2),
    );
    let mut rounds = 0;
    while !database.is_final() {
        database.run_fpcs_round();
        check_invariants(&database);
        rounds += 1;
        assert!(rounds <= 5_000);
    }
    for place in 0..5 {
        let centre_wins = opinion(&database, place, centre) == Opinion::Final(true);
        if centre_wins {
            for leaf in leaves {
                assert_eq!(opinion(&database, place, leaf), Opinion::Final(false));
            }
        } else {
            assert_eq!(opinion(&database, place, centre), Opinion::Final(false));
            for leaf in leaves {
                assert_eq!(opinion(&database, place, leaf), Opinion::Final(true));
            }
        }
    }
}

#[test]
fn malicious_mimickers_do_not_block() {
    let mut database = Database::generate_new(
        20,
        0,
        18,
        NodeGraphType::Complete,
        20,
        TxGraphType::Star,
        LikeDistributions::Concentrated(2),
    );
    let mut rounds = 0;
    while !database.is_final() {
        database.run_fpcs_round();
        rounds += 1;
        assert!(rounds <= 20_000);
    }
    check_invariants(&database);
    assert!(database.is_final());
    for place in 0..2 {
        assert_eq!(database.data()[place].status, NodeStatus::Finalized);
        assert!(database.data()[place].vision.has_finalized());
    }
    for (_, status) in database.tx_set() {
        assert_eq!(*status, TxGlobalStatus::Finalized);
    }
}

#[test]
fn a_malicious_node_reports_what_the_querier_thinks() {
    let database = Database::with_ids(
        &vec![NodeId(1), NodeId(2), NodeId(3)],
        &vec![TxId(10), TxId(20)],
        0,
        1,
        NodeGraphType::Complete,
        TxGraphType::Complete,
        LikeDistributions::Equal,
    );
    // node 0 likes 10, node 1 likes 20, node 2 is malicious
    let eta = database.data()[0].count_likes(&vec![NodeId(3)], &database);
    assert_eq!(eta, vec![(TxId(10), 1), (TxId(20), 0)]);
    let eta = database.data()[1].count_likes(&vec![NodeId(3)], &database);
    assert_eq!(eta, vec![(TxId(10), 0), (TxId(20), 1)]);
    let eta = database.data()[0].count_likes(&vec![NodeId(3), NodeId(2)], &database);
    assert_eq!(eta, vec![(TxId(10), 1), (TxId(20), 1)]);
    let eta = database.data()[0].count_likes(&vec![], &database);
    assert_eq!(eta, vec![(TxId(10), 0), (TxId(20), 0)]);
}

#[test]
fn faulty_silence_shrinks_the_effective_sample() {
    let mut database = Database::generate_new(
        10,
        5,
        0,
        NodeGraphType::Complete,
        6,
        TxGraphType::Star,
        LikeDistributions::Equal,
    );
    for _ in 0..12 {
        for place in 0..5 {
            let node = &database.data()[place];
            let sample = node.sample_from_neighborhood(K);
            assert_eq!(sample.len(), K);
            let honest_in_sample = sample
                .iter()
                .filter(|id| {
                    let at = database.position(id).unwrap();
                    database.data()[at].node_type == NodeType::Regular
                })
                .count();
            for (_, likes) in node.count_likes(&sample, &database) {
                assert!(likes <= honest_in_sample);
            }
        }
        database.run_fpcs_round();
    }
    // a sample of faulty nodes alone gives no like at all
    let faulty: Vec<NodeId> = database.data()[5..10].iter().map(|node| node.id).collect();
    for (_, likes) in database.data()[0].count_likes(&faulty, &database) {
        assert_eq!(likes, 0);
    }
    // so nothing passes the threshold and the outcome is built by completion alone
    let outcome = database.data()[0].opinions_from_sample(&faulty, K, &database, round_random(77));
    assert_eq!(threshold(round_random(77), K), 0);
    assert!(outcome.iter().any(|(_, like)| *like));
}

#[test]
fn finality_is_monotone_over_a_hundred_rounds() {
    let mut database = Database::generate_new(
        12,
        2,
        3,
        NodeGraphType::Complete,
        8,
        TxGraphType::Star,
        LikeDistributions::Equal,
    );
    let mut before = snapshot(&database);
    let mut finalized: Vec<TxId> = Vec::new();
    for _ in 0..100 {
        let was: Vec<(TxId, TxGlobalStatus)> = database.tx_set().clone();
        let report = database.run_fpcs_round();
        let after = snapshot(&database);
        check_finality_kept(&before, &after);
        check_invariants(&database);
        for (place, (tx, status)) in database.tx_set().iter().enumerate() {
            assert_eq!(*tx, was[place].0);
            if was[place].1.finalized() {
                assert!(status.finalized());
            }
        }
        for (tx, likes, honest) in &report.finalized_txs {
            assert!(!finalized.contains(tx));
            finalized.push(*tx);
            assert_eq!(*honest, 7);
            let liking = database.data()[..7]
                .iter()
                .filter(|node| node.vision.get_opinion(*tx))
                .count();
            assert_eq!(*likes, liking);
        }
        before = after;
    }
}

#[test]
fn all_honest_nodes_on_one_tx_finalize_in_five_rounds() {
    let mut database = Database::generate_new(
        6,
        0,
        0,
        NodeGraphType::Complete,
        4,
        TxGraphType::Complete,
        LikeDistributions::Concentrated(1),
    );
    let liked = database.tx_set()[0].0;
    let mut rounds = 0;
    while !database.is_final() {
        let report = database.run_fpcs_round();
        rounds += 1;
        assert!(rounds <= 5);
        if rounds == 5 {
            assert_eq!(report.finalized_txs.len(), 4);
            assert_eq!(report.finalized_nodes.len(), 6);
            for (tx, likes, honest) in &report.finalized_txs {
                assert_eq!(*honest, 6);
                assert_eq!(*likes, if *tx == liked { 6 } else { 0 });
            }
        } else {
            assert!(report.finalized_txs.is_empty());
            assert!(report.finalized_nodes.is_empty());
        }
    }
    assert_eq!(rounds, 5);
    for node in database.data() {
        for (tx, opinion) in node.opinions() {
            assert_eq!(opinion, Opinion::Final(tx == liked));
        }
    }
}

#[test]
fn update_node_leaves_other_kinds_alone() {
    let mut database = Database::with_ids(
        &vec![NodeId(1), NodeId(2), NodeId(3)],
        &vec![TxId(10), TxId(20)],
        1,
        1,
        NodeGraphType::Complete,
        TxGraphType::Complete,
        LikeDistributions::Equal,
    );
    let before = snapshot(&database);
    database.update_node(1, &vec![NodeId(1), NodeId(3)], round_random(3));
    database.update_node(2, &vec![NodeId(1), NodeId(2)], round_random(3));
    assert_eq!(snapshot(&database), before);
}

#[test]
fn a_finalized_network_stays_as_it_is() {
    let mut database = Database::generate_new(
        4,
        0,
        0,
        NodeGraphType::Complete,
        3,
        TxGraphType::Complete,
        LikeDistributions::Concentrated(1),
    );
    while !database.is_final() {
        database.run_fpcs_round();
    }
    let before = snapshot(&database);
    let report = database.run_fpcs_round();
    assert!(report.finalized_txs.is_empty());
    assert!(report.finalized_nodes.is_empty());
    assert_eq!(snapshot(&database), before);
    assert!(database.is_final());
}

#[test]
fn collected_outcome_is_a_maximal_independent_set() {
    let mut database = Database::generate_new(
        12,
        2,
        3,
        NodeGraphType::Complete,
        9,
        TxGraphType::Star,
        LikeDistributions::Equal,
    );
    let centre = database.tx_set()[0].0;
    for round in 0..6u32 {
        for place in 0..7 {
            let node = &database.data()[place];
            let random_number = round_random(round.wrapping_mul(2_654_435_761));
            let outcome = node.collect_and_set_new_opinion(K, &database, random_number);
            assert_eq!(outcome.len(), 9);
            let mut txs: Vec<TxId> = outcome.iter().map(|(tx, _)| *tx).collect();
            txs.sort();
            assert_eq!(txs, node.vision.get_txs());
            for pair in outcome.windows(2) {
                assert!(hashed_key(pair[0].0, random_number) <= hashed_key(pair[1].0, random_number));
            }
            // in a star either the centre is liked alone or all the leaves are
            let likes_centre = outcome.iter().find(|(tx, _)| *tx == centre).unwrap().1;
            for (tx, like) in &outcome {
                if *tx != centre {
                    assert_eq!(*like, !likes_centre);
                }
            }
        }
        database.run_fpcs_round();
    }
}

#[test]
fn a_single_node_with_a_single_tx_finalizes_in_five_rounds() {
    let mut database = Database::generate_new(
        1,
        0,
        0,
        NodeGraphType::Complete,
        1,
        TxGraphType::Complete,
        LikeDistributions::Concentrated(1),
    );
    let tx = database.tx_set()[0].0;
    for round in 1..=5u32 {
        assert!(!database.is_final());
        database.run_fpcs_round();
        if round < 5 {
            assert_eq!(opinion(&database, 0, tx), Opinion::Pending(true, round));
        }
    }
    assert!(database.is_final());
    assert_eq!(opinion(&database, 0, tx), Opinion::Final(true));
}

#[test]
fn unanimous_nodes_move_on_in_step() {
    let mut database = Database::with_ids(
        &(1..=4).map(NodeId).collect(),
        &vec![TxId(7), TxId(3), TxId(5)],
        0,
        0,
        NodeGraphType::Complete,
        TxGraphType::Complete,
        LikeDistributions::Concentrated(1),
    );
    for round in 1..=4u32 {
        database.run_fpcs_round();
        for place in 0..4 {
            assert_eq!(opinion(&database, place, TxId(7)), Opinion::Pending(true, round));
            assert_eq!(opinion(&database, place, TxId(3)), Opinion::Pending(false, round));
            assert_eq!(opinion(&database, place, TxId(5)), Opinion::Pending(false, round));
        }
    }
    database.run_fpcs_round();
    for place in 0..4 {
        assert_eq!(opinion(&database, place, TxId(7)), Opinion::Final(true));
        assert_eq!(opinion(&database, place, TxId(3)), Opinion::Final(false));
        assert_eq!(opinion(&database, place, TxId(5)), Opinion::Final(false));
    }
    assert!(database.is_final());
}
