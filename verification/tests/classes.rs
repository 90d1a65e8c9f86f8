use lucid_runtime::classes::{BaseType, ClassDef, ClassMember, MemberKind};
use lucid_runtime::classes::{
    check_bases, check_private_access, class_field_layout, class_has_capability, define_class, field_is_final, find_class, is_subclass,
    private_member_owner, runtime_type_distance, validate_class_hierarchy,
};

fn class(name: &str, bases: &[&str]) -> ClassDef {
    ClassDef {
        name: name.to_string(),
        bases: bases.iter().map(|b| BaseType::Named(b.to_string())).collect(),
        without_traits: Vec::new(),
        body: Vec::new(),
        is_sealed: false,
        is_final: false,
        source_file: None,
    }
}

fn member(kind: MemberKind, name: &str, is_final: bool) -> ClassMember {
    ClassMember { kind, name: name.to_string(), is_final }
}

#[test]
fn distance_counts_bases_up_to_an_ancestor() {
    let classes = vec![class("Animal", &[]), class("Dog", &["Animal"]), class("Puppy", &["Dog"])];
    assert_eq!(runtime_type_distance(&classes, "Puppy", "Animal"), Some(2));
    assert_eq!(runtime_type_distance(&classes, "Puppy", "Dog"), Some(1));
    assert_eq!(runtime_type_distance(&classes, "Puppy", "Puppy"), Some(0));
    assert_eq!(runtime_type_distance(&classes, "Animal", "Puppy"), None);
    assert_eq!(runtime_type_distance(&classes, "Animal", "object"), Some(usize::MAX / 4));
    assert_eq!(runtime_type_distance(&classes, "int", "Animal"), None);
}

#[test]
fn distance_search_survives_cycles() {
    let classes = vec![class("A", &["B"]), class("B", &["A"]), class("C", &["A"])];
    assert_eq!(runtime_type_distance(&classes, "A", "Z"), None);
    assert_eq!(runtime_type_distance(&classes, "C", "B"), Some(2));
    assert!(!is_subclass(&classes, "A", "Z"));
    assert!(is_subclass(&classes, "A", "A"));
    assert!(is_subclass(&classes, "C", "B"));
}

#[test]
fn subclassing_follows_named_bases() {
    let mut classes = vec![class("Animal", &[]), class("Dog", &["Animal"]), class("Puppy", &["Dog"])];
    classes[2].bases.push(BaseType::Other);
    assert!(is_subclass(&classes, "Puppy", "Animal"));
    assert!(!is_subclass(&classes, "Animal", "Animal"));
    assert!(!is_subclass(&classes, "Animal", "Dog"));
    assert!(is_subclass(&classes, "Dog", "Animal"));
    assert_eq!(find_class(&classes, &"Dog".to_string()), Some(1));
    assert_eq!(find_class(&classes, &"Cat".to_string()), None);
}

#[test]
fn final_fields_are_inherited() {
    let mut user = class("User", &[]);
    user.body.push(member(MemberKind::Field, "id", true));
    user.body.push(member(MemberKind::Field, "name", false));
    let classes = vec![user, class("Admin", &["User"])];
    assert!(field_is_final(&classes, "User", "id"));
    assert!(field_is_final(&classes, "Admin", "id"));
    assert!(!field_is_final(&classes, "Admin", "name"));
    assert!(!field_is_final(&classes, "Guest", "id"));
}

#[test]
fn final_parents_are_rejected_in_any_order() {
    let mut base = class("Base", &[]);
    base.is_final = true;
    let classes = vec![class("Child", &["Base"]), base];
    let e = validate_class_hierarchy(&classes).err().unwrap();
    assert_eq!(e.message, "class 'Base' is final and cannot be inherited");
    let e = check_bases(&classes, &classes[0].bases, &None).err().unwrap();
    assert_eq!(e.message, "class 'Base' is final and cannot be inherited");
}

#[test]
fn sealed_parents_accept_only_their_own_file() {
    let mut base = class("Base", &[]);
    base.is_sealed = true;
    base.source_file = Some("base.lucid".to_string());
    let mut child = class("Child", &["Base"]);
    child.source_file = Some("other.lucid".to_string());
    let classes = vec![base, child];
    let e = validate_class_hierarchy(&classes).err().unwrap();
    assert_eq!(e.message, "sealed class 'Base' may only be subclassed in its defining file");
    let same_file = Some("base.lucid".to_string());
    assert!(check_bases(&classes, &classes[1].bases, &same_file).is_ok());
    let mut sealed = class("Base", &[]);
    sealed.is_sealed = true;
    let classes_ok = vec![sealed, class("Free", &[])];
    assert!(validate_class_hierarchy(&classes_ok).is_ok());
}

#[test]
fn private_members_belong_to_their_declaring_class() {
    let mut secret = class("Secret", &[]);
    secret.body.push(member(MemberKind::Field, "_value", false));
    secret.body.push(member(MemberKind::Method, "get", false));
    let classes = vec![secret, class("Child", &["Secret"])];
    let e = check_private_access(&classes, "Secret", "_value", None).err().unwrap();
    assert_eq!(e.message, "member '_value' is private to class 'Secret'");
    assert!(check_private_access(&classes, "Secret", "_value", Some("Secret")).is_ok());
    let e = check_private_access(&classes, "Child", "_value", Some("Child")).err().unwrap();
    assert_eq!(e.message, "member '_value' is private to class 'Secret'");
    assert!(check_private_access(&classes, "Secret", "get", None).is_ok());
    assert!(check_private_access(&classes, "Secret", "_missing", None).is_ok());
    assert_eq!(private_member_owner(&classes, "Child", "_value"), Some("Secret".to_string()));
    assert_eq!(private_member_owner(&classes, "Child", "get"), Some("Secret".to_string()));
    assert_eq!(private_member_owner(&classes, "Child", "nothing"), None);
}

#[test]
fn pass_and_ellipsis_declare_nothing() {
    let mut shell = class("Shell", &[]);
    shell.body.push(member(MemberKind::Pass, "", false));
    shell.body.push(member(MemberKind::Ellipsis, "", false));
    let classes = vec![shell];
    assert_eq!(private_member_owner(&classes, "Shell", ""), None);
}

#[test]
fn capabilities_follow_opt_outs_and_declared_bases() {
    let mut token = class("Token", &[]);
    token.without_traits.push("Eq".to_string());
    let classes = vec![token, class("Nominal", &[]), class("Declared", &["Sized"]), class("Derived", &["Declared"])];
    assert!(!class_has_capability(&classes, "Token", "Eq"));
    assert!(class_has_capability(&classes, "Token", "Ord"));
    assert!(!class_has_capability(&classes, "Nominal", "Sized"));
    assert!(class_has_capability(&classes, "Declared", "Sized"));
    assert!(class_has_capability(&classes, "Derived", "Sized"));
    assert!(class_has_capability(&classes, "Unknown", "Hashable"));
    assert!(!class_has_capability(&classes, "Unknown", "Sized"));
}

#[test]
fn class_statements_check_bases_then_define() {
    let mut classes = Vec::new();
    let mut base = class("Base", &[]);
    base.is_final = true;
    assert!(define_class(&mut classes, base).is_ok());
    let e = define_class(&mut classes, class("Child", &["Base"])).err().unwrap();
    assert_eq!(e.message, "class 'Base' is final and cannot be inherited");
    assert_eq!(classes.len(), 1);
    assert!(define_class(&mut classes, class("Other", &[])).is_ok());
    assert!(define_class(&mut classes, class("Base", &["Other"])).is_ok());
    assert_eq!(classes.len(), 2);
    assert_eq!(classes[0].name, "Base");
    assert!(!classes[0].is_final);
    assert!(define_class(&mut classes, class("Child", &["Base"])).is_ok());
    assert!(is_subclass(&classes, "Child", "Other"));
}

#[test]
fn instance_layout_puts_parent_fields_first() {
    let mut base = class("Base", &[]);
    base.body.push(member(MemberKind::Field, "x", false));
    base.body.push(member(MemberKind::Method, "double", false));
    let mut child = class("Child", &["Base"]);
    child.body.push(member(MemberKind::Field, "y", false));
    let mut mixin = class("Mixin", &[]);
    mixin.body.push(member(MemberKind::Field, "tag", false));
    let mut both = class("Both", &["Child", "Sized", "Mixin"]);
    both.body.push(member(MemberKind::ClassVar, "count", false));
    both.body.push(member(MemberKind::Field, "z", false));
    let classes = vec![base, child, mixin, both];
    assert_eq!(class_field_layout(&classes, "Child"), vec!["x".to_string(), "y".to_string()]);
    assert_eq!(
        class_field_layout(&classes, "Both"),
        vec!["x".to_string(), "y".to_string(), "tag".to_string(), "z".to_string()]
    );
    assert_eq!(class_field_layout(&classes, "Missing"), Vec::<String>::new());
}

#[test]
fn distance_follows_the_first_base_depth_first() {
    let classes = vec![class("A", &[]), class("B", &["A"]), class("C", &["B", "A"])];
    assert_eq!(runtime_type_distance(&classes, "C", "A"), Some(2));
    let classes = vec![class("A", &[]), class("B", &["A"]), class("C", &["A", "B"])];
    assert_eq!(runtime_type_distance(&classes, "C", "A"), Some(1));
}
