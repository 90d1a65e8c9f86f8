use lucid_runtime::attrs::{class_member_names, has_object_attribute, is_getter_for, setattr_plan, SetAttr};
use lucid_runtime::classes::{ClassDef, ClassMember, MemberKind};

fn strings(values: &[&str]) -> Vec<String> {
    values.iter().map(|s| s.to_string()).collect()
}

#[test]
fn hasattr_sees_fields_and_getters() {
    let keys = strings(&["x", "__getter__area", "__setter__x"]);
    assert!(has_object_attribute(&keys, "x"));
    assert!(has_object_attribute(&keys, "area"));
    assert!(!has_object_attribute(&keys, "y"));
    assert!(!has_object_attribute(&[], "x"));
}

#[test]
fn getters_are_recognised_by_name() {
    assert!(is_getter_for("__getter__area", "area"));
    assert!(!is_getter_for("area", "area"));
    assert!(!is_getter_for("__getter__area", "size"));
}

#[test]
fn setattr_goes_through_setters_and_refuses_the_rest() {
    let keys = strings(&["x", "y", "__setter__x"]);
    assert_eq!(setattr_plan(false, &keys, "x").unwrap(), SetAttr::CallSetter);
    assert_eq!(setattr_plan(false, &keys, "y").unwrap(), SetAttr::Store);
    assert_eq!(setattr_plan(false, &keys, "z").unwrap_err().message, "attribute 'z' not declared");
    assert_eq!(setattr_plan(true, &keys, "y").unwrap_err().message, "cannot mutate frozen object");
}

#[test]
fn fields_of_a_class_lists_its_own_members() {
    let member = |kind, name: &str| ClassMember { kind, name: name.to_string(), is_final: false };
    let shape = ClassDef {
        name: "Shape".to_string(),
        bases: Vec::new(),
        without_traits: Vec::new(),
        body: vec![
            member(MemberKind::Field, "sides"),
            member(MemberKind::ClassVar, "count"),
            member(MemberKind::Method, "area"),
            member(MemberKind::Pass, ""),
            member(MemberKind::Getter, "name"),
            member(MemberKind::Factory, "__init__"),
        ],
        is_sealed: false,
        is_final: false,
        source_file: None,
    };
    let classes = vec![shape];
    assert_eq!(class_member_names(&classes, "Shape"), strings(&["sides", "area", "name", "__init__"]));
    assert!(class_member_names(&classes, "Circle").is_empty());
}
