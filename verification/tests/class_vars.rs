use lucid_runtime::class_vars::ClassVarTable;
use lucid_runtime::classes::{BaseType, ClassDef};

fn class(name: &str, bases: &[&str]) -> ClassDef {
    ClassDef {
        name: name.to_string(),
        bases: bases.iter().map(|b| BaseType::Named(b.to_string())).collect(),
        without_traits: Vec::new(),
        body: Vec::new(),
        is_sealed: false,
        is_final: false,
        source_file: None,
    }
}

#[test]
fn class_variables_are_shared_with_subclasses() {
    let classes = vec![class("Counter", &[]), class("Child", &["Counter"])];
    let mut table: ClassVarTable<i64> = ClassVarTable::new();
    table.declare("Counter", "count".to_string(), 0);
    assert_eq!(table.class_var_get(&classes, "Child", "count"), Some(&0));
    assert!(table.class_var_set(&classes, "Counter", "count", 1));
    assert!(table.class_var_set(&classes, "Child", "count", 2));
    assert_eq!(table.class_var_get(&classes, "Counter", "count"), Some(&2));
    assert_eq!(table.class_var_get(&classes, "Child", "count"), Some(&2));
    assert_eq!(table.scopes.len(), 1);
}

#[test]
fn own_class_variables_shadow_inherited_ones() {
    let classes = vec![class("Base", &[]), class("Derived", &["Base"])];
    let mut table: ClassVarTable<i64> = ClassVarTable::new();
    table.declare("Base", "limit".to_string(), 10);
    table.declare("Derived", "limit".to_string(), 20);
    assert_eq!(table.class_var_get(&classes, "Base", "limit"), Some(&10));
    assert_eq!(table.class_var_get(&classes, "Derived", "limit"), Some(&20));
    assert!(table.class_var_set(&classes, "Derived", "limit", 21));
    assert_eq!(table.class_var_get(&classes, "Base", "limit"), Some(&10));
}

#[test]
fn unknown_class_variables_are_not_written() {
    let classes = vec![class("Base", &[]), class("Derived", &["Base"])];
    let mut table: ClassVarTable<i64> = ClassVarTable::new();
    table.declare("Base", "limit".to_string(), 10);
    assert_eq!(table.class_var_get(&classes, "Derived", "missing"), None);
    assert!(!table.class_var_set(&classes, "Derived", "missing", 1));
    assert!(!table.class_var_set(&classes, "Nowhere", "limit", 1));
    assert_eq!(table.class_var_get(&classes, "Derived", "limit"), Some(&10));
}
