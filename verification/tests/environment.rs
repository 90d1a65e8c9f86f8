use lucid_runtime::env::{Environment, ScopeArena};
use lucid_runtime::matching::PatternShape;

#[test]
fn bindings_are_found_through_enclosing_scopes() {
    let mut outer: Environment<i64> = Environment::new();
    outer.set("x".to_string(), 1);
    outer.set("y".to_string(), 2);
    let mut inner = Environment::with_parent(outer);
    inner.set("y".to_string(), 20);
    assert_eq!(inner.get("x"), Some(&1));
    assert_eq!(inner.get("y"), Some(&20));
    assert_eq!(inner.get("z"), None);
}

#[test]
fn rebinding_keeps_the_first_binding_order() {
    let mut env: Environment<i64> = Environment::new();
    env.set("a".to_string(), 1);
    env.set("b".to_string(), 2);
    env.set("a".to_string(), 3);
    assert_eq!(env.binding_order, vec!["a".to_string(), "b".to_string()]);
    assert_eq!(env.get("a"), Some(&3));
}

#[test]
fn mutation_rebinds_in_the_nearest_binding_scope() {
    let mut outer: Environment<i64> = Environment::new();
    outer.set("x".to_string(), 1);
    let mut inner = Environment::with_parent(outer);
    assert!(inner.mutate("x", 5));
    assert_eq!(inner.get("x"), Some(&5));
    assert!(inner.binding_order.is_empty());
    assert!(!inner.mutate("missing", 9));
    assert_eq!(inner.get("missing"), None);
}

#[test]
fn deletion_is_local() {
    let mut outer: Environment<i64> = Environment::new();
    outer.set("x".to_string(), 1);
    let mut inner = Environment::with_parent(outer);
    inner.set("x".to_string(), 2);
    assert!(inner.delete_local("x"));
    assert_eq!(inner.get("x"), Some(&1));
    assert!(!inner.delete_local("x"));
    assert!(inner.binding_order.is_empty());
}

#[test]
fn final_marks_are_seen_from_inner_scopes() {
    let mut outer: Environment<i64> = Environment::new();
    outer.set("limit".to_string(), 10);
    outer.mark_final("limit".to_string());
    let inner = Environment::with_parent(outer);
    assert!(inner.is_final("limit"));
    assert!(!inner.is_final("other"));
}

#[test]
fn final_destructuring_marks_every_bound_name() {
    let mut env: Environment<i64> = Environment::new();
    let pattern = PatternShape::Tuple(vec![
        PatternShape::Ident("a".to_string()),
        PatternShape::Ident("Type".to_string()),
        PatternShape::Star(Box::new(PatternShape::Ident("b".to_string()))),
    ]);
    env.mark_final_pattern(&pattern);
    assert!(env.is_final("a"));
    assert!(env.is_final("b"));
    assert!(!env.is_final("Type"));
}

#[test]
fn enclosing_scopes_are_shared() {
    let mut scopes: ScopeArena<i64> = ScopeArena::new();
    scopes.set(0, "x".to_string(), 1);
    let left = scopes.open(0);
    let right = scopes.open(0);
    let inner = scopes.open(left);
    assert_eq!(scopes.get(inner, "x"), Some(&1));
    assert!(scopes.mutate(inner, "x", 5));
    assert_eq!(scopes.get(right, "x"), Some(&5));
    assert_eq!(scopes.get(0, "x"), Some(&5));
    scopes.set(left, "y".to_string(), 7);
    assert_eq!(scopes.get(inner, "y"), Some(&7));
    assert_eq!(scopes.get(right, "y"), None);
    assert!(!scopes.mutate(right, "y", 8));
    scopes.set(inner, "x".to_string(), 9);
    assert_eq!(scopes.get(inner, "x"), Some(&9));
    assert_eq!(scopes.get(left, "x"), Some(&5));
}
