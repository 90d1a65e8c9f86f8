use lucid_runtime::classes::{BaseType, ClassDef};
use lucid_runtime::dispatch::{call_dispatch, DispatchTable};

fn types(names: &[&str]) -> Vec<String> {
    names.iter().map(|n| n.to_string()).collect()
}

fn class(name: &str, bases: &[&str]) -> ClassDef {
    ClassDef {
        name: name.to_string(),
        bases: bases.iter().map(|b| BaseType::Named(b.to_string())).collect(),
        without_traits: Vec::new(),
        body: Vec::new(),
        is_sealed: false,
        is_final: false,
        source_file: None,
    }
}

#[test]
fn public_dispatch_table_accepts_lucidval_fallback() {
    let mut table = DispatchTable::new();
    table.register("choose".into(), vec!["LucidVal".into()], "ok");
    let selected = table.find_match("choose", &types(&["int"]));
    assert!(selected.is_some());
}

#[test]
fn exact_types_are_preferred_to_the_object_fallback() {
    let mut table = DispatchTable::new();
    table.register("show".into(), types(&["object"]), "object");
    table.register("show".into(), types(&["int"]), "int");
    assert_eq!(table.find_match("show", &types(&["int"])), Some(&"int"));
    assert_eq!(table.find_match("show", &types(&["str"])), Some(&"object"));
    assert_eq!(table.find_match("show", &types(&["int", "int"])), None);
    assert_eq!(table.find_match("missing", &types(&["int"])), None);
}

#[test]
fn equally_specific_matches_are_rejected() {
    let mut table = DispatchTable::new();
    table.register("choose".into(), types(&["int"]), "first");
    table.register("choose".into(), types(&["int"]), "second");
    assert_eq!(table.find_match("choose", &types(&["int"])), None);
}

#[test]
fn groups_are_kept_apart_by_name() {
    let mut table = DispatchTable::new();
    table.register("a".into(), types(&["int"]), 1);
    table.register("b".into(), types(&["int"]), 2);
    table.register("a".into(), types(&["str"]), 3);
    assert_eq!(table.find_match("a", &types(&["int"])), Some(&1));
    assert_eq!(table.find_match("a", &types(&["str"])), Some(&3));
    assert_eq!(table.find_match("b", &types(&["int"])), Some(&2));
    assert_eq!(table.methods.len(), 2);
}

#[test]
fn dispatch_prefers_the_nearest_ancestor() {
    let classes = vec![class("Animal", &[]), class("Dog", &["Animal"]), class("Puppy", &["Dog"])];
    let mut table = DispatchTable::new();
    table.register("choose".into(), types(&["object"]), "object");
    table.register("choose".into(), types(&["Animal"]), "animal");
    assert_eq!(table.find_match_in_hierarchy("choose", &types(&["Puppy"]), &classes), Some(&"animal"));
    table.register("choose".into(), types(&["Dog"]), "dog");
    assert_eq!(table.find_match_in_hierarchy("choose", &types(&["Puppy"]), &classes), Some(&"dog"));
    assert_eq!(table.find_match_in_hierarchy("choose", &types(&["int"]), &classes), Some(&"object"));
    assert_eq!(table.find_match_in_hierarchy("choose", &types(&["Animal"]), &classes), Some(&"animal"));
}

#[test]
fn hierarchy_dispatch_rejects_equal_distances() {
    let classes = vec![class("A", &[]), class("B", &[]), class("C", &["A", "B"])];
    let mut table = DispatchTable::new();
    table.register("f".into(), types(&["A"]), "a");
    table.register("f".into(), types(&["B"]), "b");
    assert_eq!(table.find_match_in_hierarchy("f", &types(&["C"]), &classes), None);
    assert_eq!(table.find_match_in_hierarchy("f", &types(&["A"]), &classes), Some(&"a"));
}

#[test]
fn dispatch_calls_report_what_they_could_not_match() {
    let classes = vec![class("Animal", &[])];
    let mut table = DispatchTable::new();
    table.register("speak".into(), types(&["Animal"]), "animal");
    assert_eq!(call_dispatch(&table, "speak", &types(&["Animal"]), &classes).ok(), Some(&"animal"));
    let e = call_dispatch(&table, "speak", &types(&["int", "str"]), &classes).err().unwrap();
    assert_eq!(e.message, "no dispatch method found for 'speak' with argument types [\"int\", \"str\"]");
    let e = call_dispatch(&table, "missing", &[], &classes).err().unwrap();
    assert_eq!(e.message, "no dispatch method found for 'missing' with argument types []");
}
