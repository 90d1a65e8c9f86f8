use lucid_runtime::equality::{value_eq, EqValue};
use lucid_runtime::hash::{hash_integer, hash_set};
use lucid_runtime::integer::Integer;
use num_bigint::BigInt;

fn small(v: i64) -> EqValue {
    EqValue::Int(Integer::Int(v))
}

fn text(s: &str) -> EqValue {
    EqValue::Str(s.to_string())
}

fn dict(entries: Vec<(&str, EqValue)>) -> EqValue {
    EqValue::Dict(entries.into_iter().map(|(k, v)| (k.to_string(), v)).collect())
}

#[test]
fn integers_compare_by_value_in_either_form() {
    assert!(value_eq(&small(3), &EqValue::Int(Integer::Big(BigInt::from(3)))));
    assert!(!value_eq(&small(3), &small(4)));
    assert!(!value_eq(&small(1), &EqValue::Bool(true)));
}

#[test]
fn scalars_compare_by_content() {
    assert!(value_eq(&text("a"), &text("a")));
    assert!(!value_eq(&text("a"), &text("b")));
    assert!(value_eq(&EqValue::Bytes(vec![1, 2]), &EqValue::Bytes(vec![1, 2])));
    assert!(!value_eq(&EqValue::Bytes(vec![1, 2]), &EqValue::Bytes(vec![1])));
    assert!(value_eq(&EqValue::NoneValue, &EqValue::NoneValue));
    assert!(value_eq(&EqValue::Range(0, 5, 1), &EqValue::Range(0, 5, 1)));
    assert!(!value_eq(&EqValue::Range(0, 5, 1), &EqValue::Range(0, 5, 2)));
    assert!(!value_eq(&EqValue::Opaque, &EqValue::Opaque));
}

#[test]
fn lists_compare_item_by_item() {
    let a = EqValue::List(vec![small(1), EqValue::List(vec![text("x")])]);
    let b = EqValue::List(vec![small(1), EqValue::List(vec![text("x")])]);
    let c = EqValue::List(vec![EqValue::List(vec![text("x")]), small(1)]);
    assert!(value_eq(&a, &b));
    assert!(!value_eq(&a, &c));
    assert!(!value_eq(&a, &EqValue::List(vec![small(1)])));
}

#[test]
fn sets_ignore_order() {
    let a = EqValue::SetOf(vec![small(1), small(2)]);
    let b = EqValue::SetOf(vec![small(2), small(1)]);
    assert!(value_eq(&a, &b));
    assert!(!value_eq(&a, &EqValue::SetOf(vec![small(1), small(3)])));
    assert!(!value_eq(&a, &EqValue::SetOf(vec![small(1)])));
}

#[test]
fn set_comparison_checks_only_one_direction() {
    let repeated = EqValue::SetOf(vec![small(1), small(1)]);
    let distinct = EqValue::SetOf(vec![small(1), small(2)]);
    assert!(value_eq(&repeated, &distinct));
    assert!(!value_eq(&distinct, &repeated));
}

#[test]
fn dicts_compare_entries_by_key() {
    let a = dict(vec![("x", small(1)), ("y", text("b"))]);
    let b = dict(vec![("y", text("b")), ("x", small(1))]);
    assert!(value_eq(&a, &b));
    assert!(!value_eq(&a, &dict(vec![("x", small(1)), ("y", text("c"))])));
    assert!(!value_eq(&a, &dict(vec![("x", small(1)), ("z", text("b"))])));
}

#[test]
fn objects_compare_class_and_fields() {
    let fields = |v: i64| vec![("x".to_string(), small(v))];
    let a = EqValue::Object("Point".to_string(), fields(1));
    assert!(value_eq(&a, &EqValue::Object("Point".to_string(), fields(1))));
    assert!(!value_eq(&a, &EqValue::Object("Vector".to_string(), fields(1))));
    assert!(!value_eq(&a, &EqValue::Object("Point".to_string(), fields(2))));
}

#[test]
fn runtime_markers_compare_by_content() {
    assert!(value_eq(&EqValue::Skip, &EqValue::Skip));
    assert!(!value_eq(&EqValue::Skip, &EqValue::NoneValue));
    assert!(value_eq(&EqValue::Sentinel("iteration.done".to_string()), &EqValue::Sentinel("iteration.done".to_string())));
    assert!(!value_eq(&EqValue::Sentinel("a".to_string()), &EqValue::Sentinel("b".to_string())));
    assert!(value_eq(&EqValue::Module("/m/a.lucid".to_string()), &EqValue::Module("/m/a.lucid".to_string())));
    assert!(!value_eq(&EqValue::TraitRef("Eq".to_string()), &EqValue::TraitRef("Ord".to_string())));
    let path = |parts: &[&str]| EqValue::DottedPath(parts.iter().map(|p| p.to_string()).collect());
    assert!(value_eq(&path(&["a", "b"]), &path(&["a", "b"])));
    assert!(!value_eq(&path(&["a", "b"]), &path(&["a"])));
    assert!(!value_eq(&path(&["a", "b"]), &text("a.b")));
}

#[test]
fn memory_views_and_records_compare_their_items() {
    assert!(value_eq(&EqValue::MemoryView(vec![small(1), small(2)]), &EqValue::MemoryView(vec![small(1), small(2)])));
    assert!(!value_eq(&EqValue::MemoryView(vec![small(1), small(2)]), &EqValue::MemoryView(vec![small(2), small(1)])));
    assert!(!value_eq(&EqValue::MemoryView(vec![small(1)]), &EqValue::List(vec![small(1)])));
    let record = |entries: Vec<(&str, EqValue)>| EqValue::Record(entries.into_iter().map(|(k, v)| (k.to_string(), v)).collect());
    assert!(value_eq(&record(vec![("0", small(1)), ("1", text("x"))]), &record(vec![("1", text("x")), ("0", small(1))])));
    assert!(!value_eq(&record(vec![("0", small(1))]), &record(vec![("0", small(2))])));
    assert!(!value_eq(&record(vec![("0", small(1))]), &dict(vec![("0", small(1))])));
}

#[test]
fn test_sets_compare_and_hash_without_regard_to_order() {
    let left = EqValue::SetOf(vec![small(1), small(2)]);
    let right = EqValue::SetOf(vec![small(2), small(1)]);
    assert_eq!(value_eq(&left, &right), true);
    let h_left = hash_set(true, &[Some(hash_integer(&Integer::Int(1))), Some(hash_integer(&Integer::Int(2)))]);
    let h_right = hash_set(true, &[Some(hash_integer(&Integer::Int(2))), Some(hash_integer(&Integer::Int(1)))]);
    assert_eq!(h_left, h_right);
    assert!(h_left.is_some());
}
