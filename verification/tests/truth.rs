use lucid_runtime::integer::Integer;
use lucid_runtime::truth::{hook_truth, truthiness, Truth, TruthValue};

#[test]
fn plain_values() {
    assert_eq!(truthiness(&TruthValue::Bool(false)), Truth::Known(false));
    assert_eq!(truthiness(&TruthValue::Int(Integer::Int(0))), Truth::Known(false));
    assert_eq!(truthiness(&TruthValue::Int(Integer::Int(-3))), Truth::Known(true));
    assert_eq!(truthiness(&TruthValue::Str(String::new())), Truth::Known(false));
    assert_eq!(truthiness(&TruthValue::Str("a".to_string())), Truth::Known(true));
    assert_eq!(truthiness(&TruthValue::NoneValue), Truth::Known(false));
    assert_eq!(truthiness(&TruthValue::Sized(0)), Truth::Known(false));
    assert_eq!(truthiness(&TruthValue::Sized(2)), Truth::Known(true));
    assert_eq!(truthiness(&TruthValue::Range(0, 3, 1)), Truth::Known(true));
    assert_eq!(truthiness(&TruthValue::Range(3, 0, 1)), Truth::Known(false));
    assert_eq!(truthiness(&TruthValue::Range(3, 0, -1)), Truth::Known(true));
    assert_eq!(truthiness(&TruthValue::Range(0, 3, 0)), Truth::Known(false));
    assert_eq!(truthiness(&TruthValue::Skip), Truth::Known(false));
    assert_eq!(truthiness(&TruthValue::Other), Truth::Known(true));
}

#[test]
fn objects_ask_their_hooks() {
    assert_eq!(truthiness(&TruthValue::Object { has_bool: true, has_len: true }), Truth::CallBool);
    assert_eq!(truthiness(&TruthValue::Object { has_bool: false, has_len: true }), Truth::CallLen);
    assert_eq!(truthiness(&TruthValue::Object { has_bool: false, has_len: false }), Truth::Known(true));
    assert_eq!(hook_truth(None), Truth::Known(false));
    assert_eq!(hook_truth(Some(&TruthValue::Int(Integer::Int(0)))), Truth::Known(false));
    assert_eq!(hook_truth(Some(&TruthValue::Bool(true))), Truth::Known(true));
}
