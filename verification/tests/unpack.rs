use lucid_runtime::classes::{BaseType, ClassDef, ClassMember, MemberKind};
use lucid_runtime::matching::PatternShape;
use lucid_runtime::unpack::{check_class_pattern, destructure_key, ident_pattern_matches, type_pattern_matches, unpack_error, unpack_slots, UnpackSlot, ValueKind};

fn name(n: &str) -> PatternShape {
    PatternShape::Ident(n.to_string())
}

fn star(n: &str) -> PatternShape {
    PatternShape::Star(Box::new(name(n)))
}

fn class(name: &str, bases: &[&str]) -> ClassDef {
    ClassDef {
        name: name.to_string(),
        bases: bases.iter().map(|b| BaseType::Named(b.to_string())).collect(),
        without_traits: Vec::new(),
        body: Vec::new(),
        is_sealed: false,
        is_final: false,
        source_file: None,
    }
}

#[test]
fn plain_tuple_takes_one_item_each() {
    let elements = vec![name("a"), name("b")];
    assert_eq!(unpack_slots(&elements, 2), Some(vec![UnpackSlot::Item(0), UnpackSlot::Item(1)]));
    assert_eq!(unpack_slots(&elements, 3), None);
    assert_eq!(unpack_error(&elements, 3, false).message, "unpacking mismatch: expected 2 items, got 3");
    assert_eq!(unpack_error(&elements, 3, true).message, "match tuple destructuring length mismatch");
}

#[test]
fn star_takes_what_lies_between() {
    let elements = vec![name("first"), star("middle"), name("last")];
    assert_eq!(
        unpack_slots(&elements, 5),
        Some(vec![UnpackSlot::Item(0), UnpackSlot::Rest(1, 4), UnpackSlot::Item(4)])
    );
    assert_eq!(
        unpack_slots(&elements, 2),
        Some(vec![UnpackSlot::Item(0), UnpackSlot::Rest(1, 1), UnpackSlot::Item(1)])
    );
    assert_eq!(unpack_slots(&elements, 1), None);
    assert_eq!(unpack_error(&elements, 1, false).message, "unpacking mismatch: expected 2 items, got 1");
}

#[test]
fn only_the_first_star_spreads() {
    let elements = vec![star("a"), star("b")];
    assert_eq!(unpack_slots(&elements, 3), Some(vec![UnpackSlot::Rest(0, 2), UnpackSlot::Item(2)]));
}

#[test]
fn type_patterns_accept_their_values() {
    let classes = vec![class("Animal", &[]), class("Dog", &["Animal"])];
    assert!(type_pattern_matches(&classes, &ValueKind::Int, "int"));
    assert!(type_pattern_matches(&classes, &ValueKind::BigInt, "int"));
    assert!(!type_pattern_matches(&classes, &ValueKind::Int, "float"));
    assert!(type_pattern_matches(&classes, &ValueKind::Bytes, "Bytes"));
    assert!(type_pattern_matches(&classes, &ValueKind::NoneValue, "None"));
    assert!(type_pattern_matches(&classes, &ValueKind::SetValue, "set"));
    assert!(type_pattern_matches(&classes, &ValueKind::Object("Dog".to_string()), "Animal"));
    assert!(type_pattern_matches(&classes, &ValueKind::Object("Dog".to_string()), "Dog"));
    assert!(!type_pattern_matches(&classes, &ValueKind::Object("Animal".to_string()), "Dog"));
    assert!(!type_pattern_matches(&classes, &ValueKind::Other, "Other"));
}

#[test]
fn identifier_patterns_also_bind() {
    let classes = vec![class("Animal", &[])];
    assert!(ident_pattern_matches(&classes, &ValueKind::Int, "x"));
    assert!(ident_pattern_matches(&classes, &ValueKind::Str, "str"));
    assert!(!ident_pattern_matches(&classes, &ValueKind::Str, "int"));
    assert!(!ident_pattern_matches(&classes, &ValueKind::Int, "Animal"));
    assert!(ident_pattern_matches(&classes, &ValueKind::Object("Animal".to_string()), "Animal"));
}

#[test]
fn class_patterns_accept_subclasses() {
    let classes = vec![class("Animal", &[]), class("Dog", &["Animal"])];
    assert!(check_class_pattern(&classes, "Animal", "Dog").is_ok());
    assert!(check_class_pattern(&classes, "Dog", "Dog").is_ok());
    assert_eq!(check_class_pattern(&classes, "Dog", "Animal").unwrap_err().message, "expected Dog, got Animal");
}

#[test]
fn unnamed_class_pattern_fields_read_declared_fields() {
    let mut point = class("Point", &["Base"]);
    point.body = vec![
        ClassMember { kind: MemberKind::Field, name: "x".to_string(), is_final: false },
        ClassMember { kind: MemberKind::Method, name: "norm".to_string(), is_final: false },
        ClassMember { kind: MemberKind::Field, name: "y".to_string(), is_final: false },
    ];
    let mut base = class("Base", &[]);
    base.body = vec![ClassMember { kind: MemberKind::Field, name: "id".to_string(), is_final: false }];
    let classes = vec![base, point];
    assert_eq!(destructure_key(&classes, "Point", &None, 0), Some("x".to_string()));
    assert_eq!(destructure_key(&classes, "Point", &None, 1), Some("y".to_string()));
    assert_eq!(destructure_key(&classes, "Point", &None, 2), None);
    assert_eq!(destructure_key(&classes, "Point", &Some("z".to_string()), 5), Some("z".to_string()));
    assert_eq!(destructure_key(&classes, "Missing", &None, 0), None);
}
