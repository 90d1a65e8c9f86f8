use lucid_runtime::aggregate::sum_integers;
use lucid_runtime::compare::{compare_values, max_comparand, min_comparand, Comparand};
use lucid_runtime::integer::Integer;
use lucid_runtime::range::materialize_range;
use num_bigint::BigInt;
use std::cmp::Ordering;

fn ints(values: &[i64]) -> Vec<Integer> {
    values.iter().map(|v| Integer::Int(*v)).collect()
}

fn int_items(values: &[i64]) -> Vec<Comparand> {
    values.iter().map(|v| Comparand::Integer(Integer::Int(*v))).collect()
}

fn texts(values: &[&str]) -> Vec<Comparand> {
    values.iter().map(|v| Comparand::Text(v.to_string())).collect()
}

#[test]
fn builtins_over_a_range() {
    let values = materialize_range(0, 5, 1);
    match sum_integers(Integer::Int(0), &ints(&values)) {
        Integer::Int(v) => assert_eq!(v, 10),
        Integer::Big(_) => panic!("small sum widened"),
    }
    let items = int_items(&values);
    assert_eq!(min_comparand(&items).unwrap(), 0);
    assert_eq!(max_comparand(&items).unwrap(), 4);
}

#[test]
fn sums_widen_with_an_arbitrary_precision_item() {
    let items = vec![Integer::Big(BigInt::parse_bytes(b"12345678901234567890", 10).unwrap()), Integer::Int(10)];
    match sum_integers(Integer::Int(0), &items) {
        Integer::Big(b) => assert_eq!(b, BigInt::parse_bytes(b"12345678901234567900", 10).unwrap()),
        Integer::Int(_) => panic!("expected an arbitrary-precision sum"),
    }
    match sum_integers(Integer::Int(5), &[]) {
        Integer::Int(v) => assert_eq!(v, 5),
        Integer::Big(_) => panic!("empty sum widened"),
    }
}

#[test]
fn min_and_max_keep_the_first_extreme() {
    let items = int_items(&[3, 1, 4, 1, 5, 9, 2, 9]);
    assert_eq!(min_comparand(&items).unwrap(), 1);
    assert_eq!(max_comparand(&items).unwrap(), 5);
    let mixed = vec![
        Comparand::Integer(Integer::Int(7)),
        Comparand::Integer(Integer::Big(BigInt::from(-3))),
        Comparand::Integer(Integer::Int(-3)),
    ];
    assert_eq!(min_comparand(&mixed).unwrap(), 1);
    assert_eq!(min_comparand(&[]).err().unwrap().message, "min() arg is an empty sequence");
    assert_eq!(max_comparand(&[]).err().unwrap().message, "max() arg is an empty sequence");
}

#[test]
fn strings_order_by_their_bytes() {
    let words = texts(&["pear", "apple", "fig", "apple", "Zebra", "éclair"]);
    assert_eq!(min_comparand(&words).unwrap(), 4);
    assert_eq!(max_comparand(&words).unwrap(), 5);
    let a = Comparand::Text("abc".to_string());
    let b = Comparand::Text("abd".to_string());
    let prefix = Comparand::Text("ab".to_string());
    assert_eq!(compare_values(&a, &b).unwrap(), Ordering::Less);
    assert_eq!(compare_values(&b, &a).unwrap(), Ordering::Greater);
    assert_eq!(compare_values(&prefix, &a).unwrap(), Ordering::Less);
    assert_eq!(compare_values(&a, &Comparand::Text("abc".to_string())).unwrap(), Ordering::Equal);
}

#[test]
fn values_of_different_kinds_do_not_compare() {
    let n = Comparand::Integer(Integer::Int(1));
    let s = Comparand::Text("1".to_string());
    assert_eq!(compare_values(&n, &s).err().unwrap().message, "unsupported comparison between int and str");
    let none = Comparand::Other("none".to_string());
    assert_eq!(compare_values(&none, &none).err().unwrap().message, "unsupported comparison between none and none");
    let items = vec![Comparand::Integer(Integer::Int(2)), Comparand::Integer(Integer::Int(1)), Comparand::Text("x".to_string())];
    assert_eq!(min_comparand(&items).err().unwrap().message, "unsupported comparison between str and int");
    assert_eq!(max_comparand(&[Comparand::Other("list".to_string())]).unwrap(), 0);
    assert_eq!(
        compare_values(&Comparand::Integer(Integer::Big(BigInt::from(5))), &Comparand::Integer(Integer::Int(5))).unwrap(),
        Ordering::Equal
    );
}
