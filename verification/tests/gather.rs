use lucid_runtime::classes::{BaseType, ClassDef, ClassMember, MemberKind};
use lucid_runtime::gather::{ends_with, gather_class_fields, gather_sources, gather_target, GatherSource, GatherTarget};

fn strings(values: &[&str]) -> Vec<String> {
    values.iter().map(|s| s.to_string()).collect()
}

#[test]
fn bundles_are_named_like_arguments_or_parameters() {
    assert_eq!(gather_target("Arguments"), GatherTarget::Bundle { with_pargs: false });
    assert_eq!(gather_target("Parameters"), GatherTarget::Bundle { with_pargs: true });
    assert_eq!(gather_target("CallArguments"), GatherTarget::Bundle { with_pargs: false });
    assert_eq!(gather_target("MyParameters"), GatherTarget::Bundle { with_pargs: true });
    assert_eq!(gather_target("Point"), GatherTarget::Class);
    assert_eq!(gather_target("ArgumentsList"), GatherTarget::Class);
}

#[test]
fn suffix_test() {
    assert!(ends_with("Arguments", "Arguments"));
    assert!(ends_with("abc", ""));
    assert!(!ends_with("bc", "abc"));
    assert!(!ends_with("abd", "bc"));
}

#[test]
fn gathered_fields_take_keywords_then_positions() {
    let names = strings(&["x", "y", "z"]);
    let sources = gather_sources(&names, &strings(&["norm"]), &strings(&["y"]), 2).unwrap();
    assert_eq!(sources, vec![GatherSource::Positional(0), GatherSource::Keyword, GatherSource::Positional(1)]);
}

#[test]
fn gathered_field_without_argument_is_missing() {
    let names = strings(&["x", "y", "z"]);
    let err = gather_sources(&names, &[], &strings(&["z"]), 1).unwrap_err();
    assert_eq!(err.message, "missing gathered argument 'y'");
}

#[test]
fn unused_positional_arguments_are_too_many() {
    let names = strings(&["x"]);
    let err = gather_sources(&names, &[], &[], 2).unwrap_err();
    assert_eq!(err.message, "too many arguments for gathered class");
}

#[test]
fn repeated_field_names_without_other_members_are_too_many() {
    let names = strings(&["x", "x"]);
    let err = gather_sources(&names, &[], &[], 2).unwrap_err();
    assert_eq!(err.message, "too many arguments for gathered class");
    let sources = gather_sources(&names, &strings(&["area"]), &[], 2).unwrap();
    assert_eq!(sources, vec![GatherSource::Positional(0), GatherSource::Positional(1)]);
}

#[test]
fn keywords_that_name_no_field_are_ignored() {
    let names = strings(&["x"]);
    let sources = gather_sources(&names, &[], &strings(&["x", "extra"]), 0).unwrap();
    assert_eq!(sources, vec![GatherSource::Keyword]);
}

fn class_with_fields(name: &str, bases: &[&str], fields: &[&str]) -> ClassDef {
    ClassDef {
        name: name.to_string(),
        bases: bases.iter().map(|b| BaseType::Named(b.to_string())).collect(),
        without_traits: Vec::new(),
        body: fields.iter().map(|f| ClassMember { kind: MemberKind::Field, name: f.to_string(), is_final: false }).collect(),
        is_sealed: false,
        is_final: false,
        source_file: None,
    }
}

#[test]
fn gathered_class_fields_follow_the_layout() {
    let classes = vec![class_with_fields("Point", &[], &["x", "y"]), class_with_fields("Point3", &["Point"], &["z"])];
    let (fields, sources) = gather_class_fields(&classes, "Point3", &[], &strings(&["x"]), 2).unwrap();
    assert_eq!(fields, strings(&["x", "y", "z"]));
    assert_eq!(sources, vec![GatherSource::Keyword, GatherSource::Positional(0), GatherSource::Positional(1)]);
}

#[test]
fn gathering_into_an_unknown_class_fails() {
    let classes = vec![class_with_fields("Point", &[], &["x", "y"])];
    let err = gather_class_fields(&classes, "Vector", &[], &[], 0).unwrap_err();
    assert_eq!(err.message, "unknown gather target class 'Vector'");
    let err = gather_class_fields(&classes, "Point", &[], &[], 1).unwrap_err();
    assert_eq!(err.message, "missing gathered argument 'y'");
}
