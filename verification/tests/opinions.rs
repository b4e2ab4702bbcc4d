use fpcs::aux_types::{NodeStatus, Opinion, TxGlobalStatus, TxId};

#[test]
fn opinion_like_follows_the_payload() {
    assert!(Opinion::Final(true).is_like());
    assert!(!Opinion::Final(false).is_like());
    assert!(Opinion::Pending(true, 3).is_like());
    assert!(!Opinion::Pending(false, 0).is_like());
    assert!(!Opinion::Unset.is_like());
}

#[test]
fn opinion_kinds_are_told_apart() {
    assert!(Opinion::Unset.is_none());
    assert!(!Opinion::Pending(true, 0).is_none());
    assert!(!Opinion::Final(false).is_none());
    assert!(Opinion::Final(false).is_final());
    assert!(Opinion::Final(true).is_final());
    assert!(!Opinion::Pending(true, 4).is_final());
    assert!(!Opinion::Unset.is_final());
}

#[test]
fn statuses_report_finalized() {
    assert!(NodeStatus::Finalized.finalized());
    assert!(!NodeStatus::NotFinalized.finalized());
    assert!(TxGlobalStatus::Finalized.finalized());
    assert!(!TxGlobalStatus::NotFinalized.finalized());
}

#[test]
fn tx_id_round_trips_through_u32() {
    assert_eq!(TxId::from_u32(17).get_u32(), 17);
    assert_eq!(TxId::from_u32(0), TxId(0));
    assert_eq!(TxId::from_u32(u32::MAX).get_u32(), u32::MAX);
}
