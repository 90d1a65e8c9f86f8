use lucid_runtime::error::RuntimeError;
use lucid_runtime::matching::{error_matches_handler, pattern_bound_names, pattern_identifier_binds, starts_with, ExceptionType, PatternShape};

#[test]
fn runtime_pattern_binding_skips_type_like_identifiers() {
    assert!(!pattern_identifier_binds("Pair"));
    assert!(!pattern_identifier_binds("int"));
    assert!(!pattern_identifier_binds("complex"));
    assert!(!pattern_identifier_binds("bytes"));
    assert!(!pattern_identifier_binds("MemoryView"));
    assert!(!pattern_identifier_binds("list"));
    assert!(!pattern_identifier_binds("set"));
    assert!(!pattern_identifier_binds("dict"));
    assert!(!pattern_identifier_binds("range"));
    assert!(!pattern_identifier_binds("DottedPath"));
    assert!(!pattern_identifier_binds("_"));
    assert!(pattern_identifier_binds("value"));
}

#[test]
fn lowercase_and_unicode_names_bind() {
    assert!(pattern_identifier_binds("x"));
    assert!(pattern_identifier_binds("_private"));
    assert!(pattern_identifier_binds("émile"));
    assert!(!pattern_identifier_binds("Émile"));
    assert!(!pattern_identifier_binds("None"));
}

#[test]
fn handlers_catch_by_name_and_union() {
    let error = RuntimeError { message: "raised invariant (Positive): value must be positive".to_string() };
    assert!(error_matches_handler(&error, &ExceptionType::Named("Positive".to_string())));
    assert!(!error_matches_handler(&error, &ExceptionType::Named("Other".to_string())));
    assert!(error_matches_handler(&error, &ExceptionType::Named("Exception".to_string())));
    assert!(error_matches_handler(&error, &ExceptionType::Named("Any".to_string())));
    let union = ExceptionType::Union(vec![
        ExceptionType::Named("Other".to_string()),
        ExceptionType::Named("Positive".to_string()),
    ]);
    assert!(error_matches_handler(&error, &union));
    let union = ExceptionType::Union(vec![ExceptionType::Named("Other".to_string()), ExceptionType::Other]);
    assert!(!error_matches_handler(&error, &union));
    assert!(!error_matches_handler(&error, &ExceptionType::Other));
    let plain = RuntimeError { message: "division by zero".to_string() };
    assert!(!error_matches_handler(&plain, &ExceptionType::Named("Positive".to_string())));
    assert!(error_matches_handler(&plain, &ExceptionType::Named("BaseException".to_string())));
}

#[test]
fn prefixes() {
    assert!(starts_with("hello", "he"));
    assert!(starts_with("hello", ""));
    assert!(!starts_with("he", "hello"));
    assert!(!starts_with("hello", "hx"));
}

#[test]
fn patterns_bind_their_lowercase_identifiers() {
    let pattern = PatternShape::Tuple(vec![
        PatternShape::Ident("first".to_string()),
        PatternShape::Ident("Point".to_string()),
        PatternShape::Fields(vec![PatternShape::Ident("x".to_string()), PatternShape::Other]),
        PatternShape::Star(Box::new(PatternShape::Ident("rest".to_string()))),
        PatternShape::Ident("_".to_string()),
    ]);
    assert_eq!(
        pattern_bound_names(&pattern),
        vec!["first".to_string(), "x".to_string(), "rest".to_string()]
    );
    assert!(pattern_bound_names(&PatternShape::Other).is_empty());
}
