use fpcs::aux_types::TxId;
use fpcs::hashed_order::{hashed_key, sort_by_hash};
use fpcs::hashed_tx_id::HashedTxId;

fn key_order(a: TxId, b: TxId, random_number: u32, descending: bool) -> bool {
    let ka = hashed_key(a, random_number);
    let kb = hashed_key(b, random_number);
    if ka == kb {
        a.0 < b.0
    } else if descending {
        ka > kb
    } else {
        ka < kb
    }
}

#[test]
fn hashed_key_is_a_function_of_id_and_random_number() {
    for id in [0u32, 1, 2, 77, u32::MAX] {
        for r in [0u32, 1, 429_496_729, u32::MAX] {
            assert_eq!(hashed_key(TxId(id), r), hashed_key(TxId(id), r));
            let hashed = HashedTxId { id: TxId(id), random_number: r };
            assert_eq!(hashed.key(), hashed_key(TxId(id), r));
        }
    }
}

#[test]
fn hashed_key_depends_on_both_inputs() {
    // A well-mixing hash tells these apart; equal keys would make the
    // order fall back on the identifiers alone.
    let mut keys: Vec<u64> = Vec::new();
    for id in 0..20u32 {
        for r in 0..20u32 {
            keys.push(hashed_key(TxId(id), r));
        }
    }
    let total = keys.len();
    keys.sort();
    keys.dedup();
    assert_eq!(keys.len(), total);
    assert_ne!(hashed_key(TxId(1), 2), hashed_key(TxId(2), 1));
}

#[test]
fn sort_by_hash_orders_by_key() {
    for r in [3u32, 1_000_000, 3_000_000_000] {
        for descending in [false, true] {
            let mut opinions: Vec<(TxId, bool)> =
                (0..30u32).map(|n| (TxId(n * 7 + 1), n % 3 == 0)).collect();
            let given = opinions.clone();
            sort_by_hash(&mut opinions, r, descending);
            assert_eq!(opinions.len(), given.len());
            for pair in opinions.windows(2) {
                assert!(key_order(pair[0].0, pair[1].0, r, descending));
            }
            for entry in &given {
                assert!(opinions.contains(entry));
            }
        }
    }
}

#[test]
fn sort_by_hash_gives_one_order_whatever_the_input_order() {
    let r = 2_222_222_222;
    let mut forward: Vec<(TxId, bool)> = (0..25u32).map(|n| (TxId(n), n % 2 == 0)).collect();
    let mut backward: Vec<(TxId, bool)> = forward.iter().rev().cloned().collect();
    sort_by_hash(&mut forward, r, true);
    sort_by_hash(&mut backward, r, true);
    assert_eq!(forward, backward);
    let mut ascending = forward.clone();
    sort_by_hash(&mut ascending, r, false);
    let reversed: Vec<(TxId, bool)> = forward.iter().rev().cloned().collect();
    assert_eq!(ascending, reversed);
}

#[test]
fn sort_by_hash_changes_with_the_random_number() {
    let given: Vec<(TxId, bool)> = (0..25u32).map(|n| (TxId(n), false)).collect();
    let mut first = given.clone();
    let mut second = given.clone();
    sort_by_hash(&mut first, 11, false);
    sort_by_hash(&mut second, 12, false);
    assert_ne!(first, second);
}

#[test]
fn sort_by_hash_leaves_short_vectors_alone() {
    let mut none: Vec<(TxId, bool)> = Vec::new();
    sort_by_hash(&mut none, 5, true);
    assert!(none.is_empty());
    let mut one = vec![(TxId(9), true)];
    sort_by_hash(&mut one, 5, false);
    assert_eq!(one, vec![(TxId(9), true)]);
}

#[test]
fn hashed_tx_ids_compare_by_key() {
    let r = 987_654_321;
    for a in 0..12u32 {
        for b in 0..12u32 {
            let left = HashedTxId { id: TxId(a), random_number: r };
            let right = HashedTxId { id: TxId(b), random_number: r };
            assert_eq!(left < right, key_order(TxId(a), TxId(b), r, false));
            assert_eq!(left > right, key_order(TxId(b), TxId(a), r, false));
            assert_eq!(left == right, a == b);
            assert_eq!(left <= right, left < right || a == b);
            assert_eq!(left.partial_cmp(&right).is_some(), true);
        }
    }
    let one = HashedTxId { id: TxId(3), random_number: 1 };
    let other = HashedTxId { id: TxId(3), random_number: 2 };
    assert_eq!(one < other, one.key() < other.key());
}
