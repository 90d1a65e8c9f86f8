use lucid_runtime::equality::EqValue;
use lucid_runtime::integer::Integer;
use lucid_runtime::set_ops::{contains_value, set_difference, set_intersection, set_symmetric_difference, set_union};
use num_bigint::BigInt;

fn small(v: i64) -> EqValue {
    EqValue::Int(Integer::Int(v))
}

#[test]
fn membership_uses_value_equality() {
    let items = vec![small(1), EqValue::Str("a".to_string())];
    assert!(contains_value(&items, &EqValue::Int(Integer::Big(BigInt::from(1)))));
    assert!(contains_value(&items, &EqValue::Str("a".to_string())));
    assert!(!contains_value(&items, &EqValue::Str("1".to_string())));
    assert!(!contains_value(&vec![], &small(1)));
}

#[test]
fn difference_and_intersection_keep_the_order_of_the_left_set() {
    let a = vec![small(1), small(2), small(3)];
    let b = vec![small(3), small(2)];
    assert_eq!(set_difference(&a, &b), vec![0]);
    assert_eq!(set_intersection(&a, &b), vec![1, 2]);
    assert_eq!(set_difference(&b, &a), Vec::<usize>::new());
}

#[test]
fn symmetric_difference_takes_each_side_in_turn() {
    let a = vec![small(1), small(2)];
    let b = vec![small(2), small(3)];
    assert_eq!(set_symmetric_difference(&a, &b), (vec![0], vec![1]));
}

#[test]
fn union_adds_items_not_yet_present() {
    let a = vec![small(1), small(2)];
    let b = vec![small(2), small(3), small(3), small(4)];
    assert_eq!(set_union(&a, &b), vec![1, 3]);
    assert_eq!(set_union(&vec![], &b), vec![0, 1, 3]);
}
