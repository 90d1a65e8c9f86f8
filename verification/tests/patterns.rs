use lucid_runtime::eval::{eval_expr, EvalState, Expr, RtValue};
use lucid_runtime::integer::Integer;
use lucid_runtime::patterns::{matches_pattern, Lit, Pattern, TypePat};
use num_bigint::BigInt;

fn value(st: &mut EvalState, e: Expr) -> usize {
    eval_expr(st, &e).unwrap()
}

fn holds(st: &EvalState, p: &Pattern, r: usize) -> bool {
    matches_pattern(st, p, &st.heap[r])
}

fn name(n: &str) -> Pattern {
    Pattern::Ident(n.to_string())
}

fn small(n: i64) -> Expr {
    Expr::Int(n)
}

#[test]
fn names_match_their_type_or_bind() {
    let mut st = EvalState::new();
    let three = value(&mut st, small(3));
    let none = value(&mut st, Expr::NoneLit);
    let items = value(&mut st, Expr::ListLit(vec![small(1)]));
    assert!(holds(&st, &Pattern::Wildcard, three));
    assert!(holds(&st, &name("int"), three));
    assert!(!holds(&st, &name("str"), three));
    assert!(holds(&st, &name("x"), three));
    assert!(!holds(&st, &name("Point"), three));
    assert!(holds(&st, &name("None"), none));
    assert!(holds(&st, &name("none"), none));
    assert!(holds(&st, &name("list"), items));
    assert!(!holds(&st, &name("Point"), items));
}

#[test]
fn literals_match_equal_values_of_their_kind() {
    let mut st = EvalState::new();
    let three = value(&mut st, small(3));
    let text = value(&mut st, Expr::Str("hi".to_string()));
    assert!(holds(&st, &Pattern::Literal(Lit::Int(3)), three));
    assert!(!holds(&st, &Pattern::Literal(Lit::Int(4)), three));
    assert!(!holds(&st, &Pattern::Literal(Lit::Bool(true)), three));
    assert!(holds(&st, &Pattern::Literal(Lit::Str("hi".to_string())), text));
    assert!(!holds(&st, &Pattern::Literal(Lit::NoneLit), text));
    st.heap.push(RtValue::Int(Integer::Big(BigInt::from(10).pow(20))));
    let big = st.heap.len() - 1;
    assert!(holds(&st, &Pattern::Literal(Lit::BigText("100_000_000_000_000_000_000".to_string())), big));
    assert!(!holds(&st, &Pattern::Literal(Lit::BigText("99".to_string())), big));
}

#[test]
fn type_patterns_and_unions() {
    let mut st = EvalState::new();
    let text = value(&mut st, Expr::Str("a".to_string()));
    let union = TypePat::Union(vec![TypePat::Named("int".to_string()), TypePat::Named("str".to_string())]);
    assert!(holds(&st, &Pattern::Type(union), text));
    let union = TypePat::Union(vec![TypePat::Named("int".to_string()), TypePat::Never]);
    assert!(!holds(&st, &Pattern::Type(union), text));
    assert!(holds(&st, &Pattern::Type(TypePat::Inner(Box::new(TypePat::Wildcard))), text));
    assert!(!holds(&st, &Pattern::Type(TypePat::Unmatched), text));
    assert!(holds(&st, &Pattern::Type(TypePat::Literal(Lit::Str("a".to_string()))), text));
}

#[test]
fn sequence_patterns_with_and_without_a_star() {
    let mut st = EvalState::new();
    let xs = value(&mut st, Expr::ListLit(vec![small(1), small(2), small(2), small(3)]));
    let exact = Pattern::Tuple(vec![Pattern::Literal(Lit::Int(1)), name("a"), name("b"), Pattern::Literal(Lit::Int(3))]);
    assert!(holds(&st, &exact, xs));
    let short = Pattern::Tuple(vec![name("a"), name("b")]);
    assert!(!holds(&st, &short, xs));
    let starred = Pattern::Tuple(vec![
        Pattern::Literal(Lit::Int(1)),
        Pattern::Star(Box::new(name("rest"))),
        Pattern::Literal(Lit::Int(3)),
    ]);
    assert!(holds(&st, &starred, xs));
    let middle_is_twos = Pattern::Tuple(vec![
        Pattern::Literal(Lit::Int(1)),
        Pattern::Star(Box::new(Pattern::Tuple(vec![Pattern::Literal(Lit::Int(2)), Pattern::Literal(Lit::Int(2))]))),
        Pattern::Literal(Lit::Int(3)),
    ]);
    assert!(holds(&st, &middle_is_twos, xs));
    let wrong_end = Pattern::Tuple(vec![Pattern::Star(Box::new(Pattern::Wildcard)), Pattern::Literal(Lit::Int(2))]);
    assert!(!holds(&st, &wrong_end, xs));
    let too_many = Pattern::Tuple(vec![
        name("a"), name("b"), name("c"), name("d"), Pattern::Star(Box::new(Pattern::Wildcard)), name("e"),
    ]);
    assert!(!holds(&st, &too_many, xs));
    let three = value(&mut st, small(3));
    assert!(!holds(&st, &Pattern::Tuple(vec![]), three));
}
