use fpcs::aux_types::{Conflicts, Neighborhood, NodeId, NodeStatus, Opinion, TxId, Vision};
use fpcs::constants::L;
use fpcs::fpcs::{Node, NodeType};

// Transaction 1 conflicts with 2 and with 3; 2 and 3 do not conflict.
fn star_node(opinions: [Opinion; 3]) -> Node {
    let entries = vec![
        (TxId(1), Conflicts::new_from(&vec![TxId(2), TxId(3)]), opinions[0]),
        (TxId(2), Conflicts::new_from(&vec![TxId(1)]), opinions[1]),
        (TxId(3), Conflicts::new_from(&vec![TxId(1)]), opinions[2]),
    ];
    Node {
        id: NodeId(9),
        vision: Vision::new_from(&entries),
        neighborhood: Neighborhood::set_new(&vec![NodeId(4)]),
        status: NodeStatus::NotFinalized,
        node_type: NodeType::Regular,
    }
}

fn opinion(node: &Node, tx: u32) -> Opinion {
    *node.vision.get_opinion_status(&TxId(tx))
}

#[test]
fn agreement_lengthens_the_streak() {
    let mut node = star_node([
        Opinion::Pending(true, 3),
        Opinion::Pending(false, 7),
        Opinion::Pending(false, 0),
    ]);
    node.update_opinions(vec![(TxId(1), true), (TxId(2), false), (TxId(3), false)]);
    assert_eq!(opinion(&node, 1), Opinion::Pending(true, 4));
    assert_eq!(opinion(&node, 2), Opinion::Pending(false, 8));
    assert_eq!(opinion(&node, 3), Opinion::Pending(false, 1));
    assert_eq!(node.status, NodeStatus::NotFinalized);
}

#[test]
fn disagreement_starts_the_streak_anew() {
    let mut node = star_node([
        Opinion::Pending(true, 9),
        Opinion::Pending(false, 2),
        Opinion::Pending(false, 4),
    ]);
    node.update_opinions(vec![(TxId(1), false), (TxId(2), true), (TxId(3), true)]);
    assert_eq!(opinion(&node, 1), Opinion::Pending(false, 0));
    assert_eq!(opinion(&node, 2), Opinion::Pending(true, 0));
    assert_eq!(opinion(&node, 3), Opinion::Pending(true, 0));
}

#[test]
fn a_long_enough_liked_streak_becomes_final() {
    let mut node = star_node([
        Opinion::Pending(true, L - 1),
        Opinion::Pending(false, 2),
        Opinion::Pending(false, 0),
    ]);
    node.update_opinions(vec![(TxId(1), true)]);
    assert_eq!(opinion(&node, 1), Opinion::Final(true));
    assert_eq!(opinion(&node, 2), Opinion::Final(false));
    assert_eq!(opinion(&node, 3), Opinion::Final(false));
    assert_eq!(node.status, NodeStatus::Finalized);
}

#[test]
fn a_streak_one_short_stays_pending() {
    let mut node = star_node([
        Opinion::Pending(true, L - 2),
        Opinion::Pending(false, 2),
        Opinion::Pending(false, 0),
    ]);
    node.update_opinions(vec![(TxId(1), true)]);
    assert_eq!(opinion(&node, 1), Opinion::Pending(true, L - 1));
    assert_eq!(opinion(&node, 2), Opinion::Pending(false, 2));
    assert_eq!(node.status, NodeStatus::NotFinalized);
}

#[test]
fn a_disliked_streak_never_becomes_final_by_itself() {
    let mut node = star_node([
        Opinion::Pending(false, 1000),
        Opinion::Pending(false, 1000),
        Opinion::Pending(false, 1000),
    ]);
    node.update_opinions(vec![(TxId(1), false), (TxId(2), false), (TxId(3), false)]);
    assert_eq!(opinion(&node, 1), Opinion::Pending(false, 1001));
    assert_eq!(opinion(&node, 2), Opinion::Pending(false, 1001));
    assert_eq!(node.status, NodeStatus::NotFinalized);
}

#[test]
fn the_streak_stops_counting_at_its_largest_value() {
    let mut node = star_node([
        Opinion::Pending(false, u32::MAX),
        Opinion::Pending(false, u32::MAX - 1),
        Opinion::Pending(false, 0),
    ]);
    node.update_opinions(vec![(TxId(1), false), (TxId(2), false)]);
    assert_eq!(opinion(&node, 1), Opinion::Pending(false, u32::MAX));
    assert_eq!(opinion(&node, 2), Opinion::Pending(false, u32::MAX));
}

#[test]
fn final_and_unset_opinions_do_not_move() {
    let mut node = star_node([Opinion::Final(false), Opinion::Final(true), Opinion::Unset]);
    node.update_opinions(vec![(TxId(1), true), (TxId(2), false), (TxId(3), true)]);
    assert_eq!(opinion(&node, 1), Opinion::Final(false));
    assert_eq!(opinion(&node, 2), Opinion::Final(true));
    assert_eq!(opinion(&node, 3), Opinion::Unset);
    assert_eq!(node.status, NodeStatus::NotFinalized);
}

#[test]
fn a_leaf_that_becomes_final_rejects_the_centre_only() {
    let mut node = star_node([
        Opinion::Pending(false, 3),
        Opinion::Pending(true, 4),
        Opinion::Pending(true, 2),
    ]);
    node.update_opinions(vec![(TxId(2), true), (TxId(3), true), (TxId(1), false)]);
    assert_eq!(opinion(&node, 2), Opinion::Final(true));
    assert_eq!(opinion(&node, 1), Opinion::Final(false));
    assert_eq!(opinion(&node, 3), Opinion::Pending(true, 3));
    assert_eq!(node.status, NodeStatus::NotFinalized);
}

#[test]
fn outcomes_are_taken_in_one_after_the_other() {
    // Both could become final; the first in the vector does, and its
    // cascade makes the other one final and rejected before its turn.
    let mut node = star_node([
        Opinion::Pending(true, 4),
        Opinion::Pending(true, 4),
        Opinion::Pending(false, 0),
    ]);
    node.update_opinions(vec![(TxId(2), true), (TxId(1), true), (TxId(3), false)]);
    assert_eq!(opinion(&node, 2), Opinion::Final(true));
    assert_eq!(opinion(&node, 1), Opinion::Final(false));
    assert_eq!(opinion(&node, 3), Opinion::Pending(false, 1));

    let mut node = star_node([
        Opinion::Pending(true, 4),
        Opinion::Pending(true, 4),
        Opinion::Pending(false, 0),
    ]);
    node.update_opinions(vec![(TxId(1), true), (TxId(2), true), (TxId(3), false)]);
    assert_eq!(opinion(&node, 1), Opinion::Final(true));
    assert_eq!(opinion(&node, 2), Opinion::Final(false));
    assert_eq!(opinion(&node, 3), Opinion::Final(false));
    assert_eq!(node.status, NodeStatus::Finalized);
}

#[test]
fn an_empty_outcome_only_sets_the_status() {
    let mut node = star_node([Opinion::Final(false), Opinion::Final(true), Opinion::Final(true)]);
    node.update_opinions(vec![]);
    assert_eq!(node.status, NodeStatus::Finalized);
    assert_eq!(opinion(&node, 2), Opinion::Final(true));
}

#[test]
fn final_opinions_survive_any_sequence_of_outcomes() {
    let mut node = star_node([
        Opinion::Pending(false, 0),
        Opinion::Pending(true, 0),
        Opinion::Pending(true, 0),
    ]);
    let mut seed: u32 = 12345;
    for _ in 0..400 {
        let before =
            [opinion(&node, 1), opinion(&node, 2), opinion(&node, 3)];
        let mut outcome = Vec::new();
        for tx in [3u32, 1, 2] {
            seed = seed.wrapping_mul(1_664_525).wrapping_add(1_013_904_223);
            outcome.push((TxId(tx), seed & 0x1_0000 != 0));
        }
        node.update_opinions(outcome);
        for (i, tx) in [1u32, 2, 3].iter().enumerate() {
            if before[i].is_final() {
                assert_eq!(opinion(&node, *tx), before[i]);
            }
        }
        // around a final like everything it conflicts with is finally rejected
        if opinion(&node, 1) == Opinion::Final(true) {
            assert_eq!(opinion(&node, 2), Opinion::Final(false));
            assert_eq!(opinion(&node, 3), Opinion::Final(false));
        }
        if opinion(&node, 2) == Opinion::Final(true) || opinion(&node, 3) == Opinion::Final(true) {
            assert_eq!(opinion(&node, 1), Opinion::Final(false));
        }
        let all_final = [1u32, 2, 3].iter().all(|tx| opinion(&node, *tx).is_final());
        assert_eq!(node.status.finalized(), all_final);
    }
}

#[test]
fn node_kinds_are_told_apart() {
    let mut node = star_node([Opinion::Unset, Opinion::Unset, Opinion::Unset]);
    assert!(node.is_honest() && !node.is_faulty() && !node.is_malicious());
    node.node_type = NodeType::Faulty;
    assert!(!node.is_honest() && node.is_faulty() && !node.is_malicious());
    node.node_type = NodeType::Malicious;
    assert!(!node.is_honest() && !node.is_faulty() && node.is_malicious());
}

#[test]
fn node_opinions_are_listed_in_increasing_order() {
    let node = star_node([Opinion::Final(false), Opinion::Pending(true, 1), Opinion::Unset]);
    assert_eq!(
        node.opinions(),
        vec![
            (TxId(1), Opinion::Final(false)),
            (TxId(2), Opinion::Pending(true, 1)),
            (TxId(3), Opinion::Unset)
        ]
    );
}
