use lucid_runtime::hash::{hash_bool, hash_bytes, hash_dict, hash_integer, hash_list, hash_set, hash_str};
use lucid_runtime::integer::Integer;
use num_bigint::BigInt;

#[test]
fn scalar_hashes() {
    assert_eq!(hash_bytes(&[1, 2]), 33);
    assert_eq!(hash_bytes(&[]), 0);
    assert_eq!(hash_str("ab"), 3105);
    assert_eq!(hash_str(""), 0);
    assert_eq!(hash_bool(true), 1);
    assert_eq!(hash_bool(false), 0);
}

#[test]
fn numeric_hashes_follow_numeric_equality() {
    assert_eq!(hash_integer(&Integer::Int(5)), 5);
    assert_eq!(hash_integer(&Integer::Big(BigInt::from(5))), 5);
    assert_eq!(hash_integer(&Integer::Big(BigInt::from(-7))), hash_integer(&Integer::Int(-7)));
}

#[test]
fn out_of_range_integers_hash_their_spelling() {
    let two_63 = BigInt::from(i64::MAX) + 1;
    assert_eq!(hash_integer(&Integer::Big(two_63)), -6582327484819236750);
    let below = BigInt::from(i64::MIN) - 1;
    assert_eq!(hash_integer(&Integer::Big(below)), -5887255317205821336);
}

#[test]
fn frozen_lists_hash_in_order() {
    assert_eq!(hash_list(true, &[Some(1), Some(2)]), Some(994));
    assert_eq!(hash_list(true, &[]), Some(1));
    assert_ne!(hash_list(true, &[Some(1), Some(2)]), hash_list(true, &[Some(2), Some(1)]));
    assert_eq!(hash_list(false, &[Some(1)]), None);
    assert_eq!(hash_list(true, &[Some(1), None]), None);
}

#[test]
fn sets_hash_without_regard_to_order() {
    assert_eq!(hash_set(true, &[Some(3), Some(1), Some(2)]), Some(356017));
    assert_eq!(hash_set(true, &[Some(1), Some(2), Some(3)]), Some(356017));
    assert_eq!(hash_set(true, &[Some(2), Some(3), Some(1)]), Some(356017));
    assert_eq!(hash_set(true, &[]), Some(7));
    assert_eq!(hash_set(false, &[Some(1)]), None);
    assert_eq!(hash_set(true, &[None]), None);
}

#[test]
fn dictionaries_hash_their_sorted_entries() {
    let forward = vec![("a".to_string(), Some(1)), ("b".to_string(), Some(2))];
    let backward = vec![("b".to_string(), Some(2)), ("a".to_string(), Some(1))];
    assert_eq!(hash_dict(true, &forward), Some(25885));
    assert_eq!(hash_dict(true, &backward), Some(25885));
    assert_eq!(hash_dict(true, &[]), Some(13));
    assert_eq!(hash_dict(false, &forward), None);
    assert_eq!(hash_dict(true, &[("a".to_string(), None)]), None);
}
