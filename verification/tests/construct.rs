use lucid_runtime::classes::{BaseType, ClassDef, ClassMember, MemberKind};
use lucid_runtime::construct::{constructed_plan, instance_fields, slot_fills, SlotFill};

fn strings(values: &[&str]) -> Vec<String> {
    values.iter().map(|s| s.to_string()).collect()
}

fn class(name: &str, bases: &[&str], without: &[&str], fields: &[&str]) -> ClassDef {
    ClassDef {
        name: name.to_string(),
        bases: bases.iter().map(|b| BaseType::Named(b.to_string())).collect(),
        without_traits: strings(without),
        body: fields.iter().map(|f| ClassMember { kind: MemberKind::Field, name: f.to_string(), is_final: false }).collect(),
        is_sealed: false,
        is_final: false,
        source_file: None,
    }
}

#[test]
fn positional_slots_take_declared_names() {
    let fills = slot_fills(&strings(&["x", "y", "z"]), &strings(&["field_0", "y", "field_11", "norm"]));
    assert_eq!(fills, vec![SlotFill::Positional, SlotFill::Named, SlotFill::Absent]);
    let many: Vec<String> = (0..12).map(|i| format!("f{i}")).collect();
    let fills = slot_fills(&many, &strings(&["field_11"]));
    assert_eq!(fills[11], SlotFill::Positional);
    assert_eq!(fills[1], SlotFill::Absent);
}

#[test]
fn only_constructed_objects_of_declared_classes_are_normalised() {
    let classes = vec![class("Base", &[], &[], &["a"]), class("Point", &["Base", "Show", "Eq"], &["Eq"], &["x"])];
    let keys = strings(&["field_0", "field_1"]);
    let traits = strings(&["Show", "Eq"]);
    assert!(constructed_plan(&classes, "Point", "Point", &keys, &traits).is_none());
    assert!(constructed_plan(&classes, "Missing", "Constructed", &keys, &traits).is_none());
    let plan = constructed_plan(&classes, "Point", "Constructed", &keys, &traits).unwrap();
    assert_eq!(plan.fields, strings(&["a", "x"]));
    assert_eq!(plan.fills, vec![SlotFill::Positional, SlotFill::Positional]);
    assert_eq!(plan.traits, strings(&["Show"]));
}

#[test]
fn classes_without_factory_take_arguments_as_fields() {
    let classes = vec![class("Base", &[], &[], &["a"]), class("Point", &["Base"], &[], &["x", "y"])];
    let (fields, filled) = instance_fields(&classes, "Point", 2).unwrap();
    assert_eq!(fields, strings(&["a", "x", "y"]));
    assert_eq!(filled, 2);
    let (_, filled) = instance_fields(&classes, "Point", 5).unwrap();
    assert_eq!(filled, 3);
    assert_eq!(instance_fields(&classes, "Line", 0).unwrap_err().message, "class 'Line' not found");
}
