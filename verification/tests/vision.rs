use fpcs::aux_types::{intersects, Conflicts, Neighborhood, NodeId, Opinion, TxId, Vision};

fn ids(numbers: &[u32]) -> Vec<TxId> {
    numbers.iter().map(|n| TxId::from_u32(*n)).collect()
}

fn small_vision() -> Vision {
    // 30 conflicts with 10 and 20; 10 and 20 conflict with 30 only.
    Vision::new_from(&vec![
        (TxId(30), Conflicts::new_from(&ids(&[10, 20])), Opinion::Unset),
        (TxId(10), Conflicts::new_from(&ids(&[30])), Opinion::Pending(true, 2)),
        (TxId(20), Conflicts::new_from(&ids(&[30])), Opinion::Final(false)),
    ])
}

#[test]
fn conflicts_keep_what_was_put_in() {
    let mut conflicts = Conflicts::new();
    assert!(conflicts.get().is_empty());
    conflicts.add(TxId(4));
    conflicts.add(TxId(2));
    assert_eq!(conflicts.get(), &ids(&[4, 2]));
    let copy = conflicts.clone();
    assert_eq!(copy.get(), &ids(&[4, 2]));
    let built = Conflicts::new_from(&ids(&[7, 8, 9]));
    assert_eq!(built.get(), &ids(&[7, 8, 9]));
}

#[test]
fn conflicts_iterator_walks_in_order() {
    let conflicts = Conflicts::new_from(&ids(&[7, 8, 9]));
    let mut iterator = conflicts.iter();
    assert_eq!(iterator.next(), Some(&TxId(7)));
    assert_eq!(iterator.next(), Some(&TxId(8)));
    assert_eq!(iterator.next(), Some(&TxId(9)));
    assert_eq!(iterator.next(), None);
    assert_eq!(iterator.next(), None);
}

#[test]
fn neighborhood_keeps_order_and_length() {
    let mut neighborhood = Neighborhood::new();
    assert_eq!(neighborhood.len(), 0);
    neighborhood.add(NodeId(5));
    neighborhood.add(NodeId(3));
    assert_eq!(neighborhood.len(), 2);
    assert_eq!(neighborhood.get(), &vec![NodeId(5), NodeId(3)]);
    let built = Neighborhood::set_new(&vec![NodeId(1), NodeId(2), NodeId(3)]);
    assert_eq!(built.len(), 3);
    let mut iterator = built.iter();
    assert_eq!(iterator.next(), Some(&NodeId(1)));
    assert_eq!(iterator.next(), Some(&NodeId(2)));
    assert_eq!(iterator.next(), Some(&NodeId(3)));
    assert_eq!(iterator.next(), None);
}

#[test]
fn intersects_finds_a_common_tx() {
    assert!(intersects(&ids(&[1, 2, 3]), &ids(&[9, 3])));
    assert!(intersects(&ids(&[5]), &ids(&[5])));
    assert!(!intersects(&ids(&[1, 2, 3]), &ids(&[4, 5])));
    assert!(!intersects(&ids(&[]), &ids(&[4, 5])));
    assert!(!intersects(&ids(&[1]), &ids(&[])));
}

#[test]
fn vision_lists_txs_in_increasing_order() {
    let vision = small_vision();
    assert_eq!(vision.get_txs(), ids(&[10, 20, 30]));
    assert!(Vision::new().get_txs().is_empty());
}

#[test]
fn vision_returns_conflicts_and_opinions() {
    let vision = small_vision();
    assert_eq!(vision.get_conflict_set(&TxId(30)).get(), &ids(&[10, 20]));
    assert_eq!(vision.get_conflict_set(&TxId(10)).get(), &ids(&[30]));
    assert_eq!(*vision.get_opinion_status(&TxId(30)), Opinion::Unset);
    assert_eq!(*vision.get_opinion_status(&TxId(10)), Opinion::Pending(true, 2));
    assert_eq!(*vision.get_opinion_status(&TxId(20)), Opinion::Final(false));
    assert!(vision.get_opinion(TxId(10)));
    assert!(!vision.get_opinion(TxId(20)));
    assert!(!vision.get_opinion(TxId(30)));
}

#[test]
fn vision_later_entry_replaces_earlier_one() {
    let vision = Vision::new_from(&vec![
        (TxId(1), Conflicts::new_from(&ids(&[2])), Opinion::Unset),
        (TxId(2), Conflicts::new_from(&ids(&[1])), Opinion::Unset),
        (TxId(1), Conflicts::new_from(&ids(&[2, 2])), Opinion::Final(true)),
    ]);
    assert_eq!(vision.get_txs(), ids(&[1, 2]));
    assert_eq!(vision.get_conflict_set(&TxId(1)).get(), &ids(&[2, 2]));
    assert_eq!(*vision.get_opinion_status(&TxId(1)), Opinion::Final(true));
}

#[test]
fn vision_set_opinion_changes_one_opinion_only() {
    let mut vision = small_vision();
    vision.set_opinion(&TxId(30), Opinion::Pending(false, 0));
    assert_eq!(*vision.get_opinion_status(&TxId(30)), Opinion::Pending(false, 0));
    assert_eq!(*vision.get_opinion_status(&TxId(10)), Opinion::Pending(true, 2));
    assert_eq!(*vision.get_opinion_status(&TxId(20)), Opinion::Final(false));
    assert_eq!(vision.get_conflict_set(&TxId(30)).get(), &ids(&[10, 20]));
    assert_eq!(vision.get_txs(), ids(&[10, 20, 30]));
}

#[test]
fn vision_get_mut_opinion_writes_through() {
    let mut vision = small_vision();
    {
        let opinion = vision.get_mut_opinion(&TxId(10));
        assert_eq!(*opinion, Opinion::Pending(true, 2));
        *opinion = Opinion::Final(true);
    }
    assert_eq!(*vision.get_opinion_status(&TxId(10)), Opinion::Final(true));
    assert_eq!(*vision.get_opinion_status(&TxId(20)), Opinion::Final(false));
}

#[test]
fn vision_has_finalized_needs_every_opinion_final() {
    let mut vision = small_vision();
    assert!(!vision.has_finalized());
    vision.set_opinion(&TxId(10), Opinion::Final(true));
    assert!(!vision.has_finalized());
    vision.set_opinion(&TxId(30), Opinion::Final(false));
    assert!(vision.has_finalized());
    assert!(Vision::new().has_finalized());
}

#[test]
fn vision_clone_is_independent_of_its_source() {
    let vision = small_vision();
    let mut copy = vision.clone();
    copy.set_opinion(&TxId(10), Opinion::Final(true));
    assert_eq!(*vision.get_opinion_status(&TxId(10)), Opinion::Pending(true, 2));
    assert_eq!(*copy.get_opinion_status(&TxId(10)), Opinion::Final(true));
    assert_eq!(copy.get_txs(), vision.get_txs());
}
