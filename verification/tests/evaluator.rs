use lucid_runtime::eval::{eval_expr, eval_module, eval_statement, value_type, BinOp, EvalState, Expr, Flow, RtValue, Stmt};
use lucid_runtime::integer::{Integer, INT_NAN, INT_NEG_INF, INT_POS_INF};
use num_bigint::BigInt;

fn num(n: i64) -> Expr {
    Expr::Int(n)
}

fn text(s: &str) -> Expr {
    Expr::Str(s.to_string())
}

fn var(name: &str) -> Expr {
    Expr::Name(name.to_string())
}

fn bin(op: BinOp, l: Expr, r: Expr) -> Expr {
    Expr::Binary(op, Box::new(l), Box::new(r))
}

fn list(items: Vec<Expr>) -> Expr {
    Expr::ListLit(items)
}

fn index(target: Expr, i: Expr) -> Expr {
    Expr::Index(Box::new(target), Box::new(i))
}

fn set(name: &str, e: Expr) -> Stmt {
    Stmt::Assign(name.to_string(), e)
}

fn int_at(state: &EvalState, r: usize) -> i64 {
    match &state.heap[r] {
        RtValue::Int(Integer::Int(x)) => *x,
        _ => panic!("expected a machine-word integer"),
    }
}

fn bool_at(state: &EvalState, r: usize) -> bool {
    match &state.heap[r] {
        RtValue::Bool(b) => *b,
        _ => panic!("expected a bool"),
    }
}

fn str_at(state: &EvalState, r: usize) -> String {
    match &state.heap[r] {
        RtValue::Str(s) => s.clone(),
        _ => panic!("expected a string"),
    }
}

fn binding(state: &EvalState, name: &str) -> usize {
    state.vars.iter().find(|(n, _)| n == name).map(|(_, r)| *r).expect("bound")
}

fn run(state: &mut EvalState, stmts: Vec<Stmt>) {
    for s in &stmts {
        eval_statement(state, s).unwrap();
    }
}

#[test]
fn arithmetic_follows_the_tree() {
    let mut st = EvalState::new();
    let r = eval_expr(&mut st, &bin(BinOp::Add, num(2), bin(BinOp::Mul, num(3), num(4)))).unwrap();
    assert_eq!(int_at(&st, r), 14);
    let r = eval_expr(&mut st, &bin(BinOp::Sub, num(2), num(9))).unwrap();
    assert_eq!(int_at(&st, r), -7);
}

#[test]
fn machine_overflow_widens_in_expressions() {
    let mut st = EvalState::new();
    let r = eval_expr(&mut st, &bin(BinOp::Add, num(i64::MAX), num(1))).unwrap();
    match &st.heap[r] {
        RtValue::Int(Integer::Big(b)) => assert_eq!(*b, BigInt::from(i64::MAX) + BigInt::from(1)),
        _ => panic!("expected an arbitrary-precision integer"),
    }
}

#[test]
fn strings_and_lists_concatenate() {
    let mut st = EvalState::new();
    let r = eval_expr(&mut st, &bin(BinOp::Add, text("ab"), text("cd"))).unwrap();
    assert_eq!(str_at(&st, r), "abcd");
    let r = eval_expr(&mut st, &bin(BinOp::Add, list(vec![num(1)]), list(vec![num(2), num(3)]))).unwrap();
    match &st.heap[r] {
        RtValue::List(items) => {
            let values: Vec<i64> = items.iter().map(|i| int_at(&st, *i)).collect();
            assert_eq!(values, vec![1, 2, 3]);
        },
        _ => panic!("expected a list"),
    }
}

#[test]
fn indexing_counts_from_either_end() {
    let mut st = EvalState::new();
    let xs = list(vec![num(10), num(20), num(30)]);
    let r = eval_expr(&mut st, &index(xs, num(-1))).unwrap();
    assert_eq!(int_at(&st, r), 30);
    let r = eval_expr(&mut st, &index(text("héllo"), num(1))).unwrap();
    assert_eq!(str_at(&st, r), "é");
    let e = eval_expr(&mut st, &index(list(vec![num(1)]), num(5))).unwrap_err();
    assert_eq!(e.message, "index 5 out of range");
    let e = eval_expr(&mut st, &index(text("ab"), num(-3))).unwrap_err();
    assert_eq!(e.message, "index -3 out of range");
    let e = eval_expr(&mut st, &index(num(4), num(0))).unwrap_err();
    assert_eq!(e.message, "indexing not supported on int");
}

#[test]
fn operator_errors_name_the_operands() {
    let mut st = EvalState::new();
    let e = eval_expr(&mut st, &bin(BinOp::Add, num(1), text("a"))).unwrap_err();
    assert_eq!(e.message, "no dispatch method found for '+' with argument types [\"int\", \"str\"]");
    let e = eval_expr(&mut st, &bin(BinOp::Lt, text("a"), num(1))).unwrap_err();
    assert_eq!(e.message, "unsupported operands for <");
    let e = eval_expr(&mut st, &var("missing")).unwrap_err();
    assert_eq!(e.message, "undefined variable 'missing'");
}

#[test]
fn and_or_give_an_operand() {
    let mut st = EvalState::new();
    let r = eval_expr(&mut st, &bin(BinOp::Or, num(0), text("x"))).unwrap();
    assert_eq!(str_at(&st, r), "x");
    let r = eval_expr(&mut st, &bin(BinOp::And, num(0), text("x"))).unwrap();
    assert_eq!(int_at(&st, r), 0);
    let r = eval_expr(&mut st, &Expr::Not(Box::new(list(vec![])))).unwrap();
    assert!(bool_at(&st, r));
}

#[test]
fn equality_compares_lists_item_by_item() {
    let mut st = EvalState::new();
    let a = list(vec![num(1), list(vec![text("x")])]);
    let b = list(vec![num(1), list(vec![text("x")])]);
    let r = eval_expr(&mut st, &bin(BinOp::Eq, a, b)).unwrap();
    assert!(bool_at(&st, r));
    let r = eval_expr(&mut st, &bin(BinOp::NotEq, list(vec![num(1)]), list(vec![num(2)]))).unwrap();
    assert!(bool_at(&st, r));
    let r = eval_expr(&mut st, &bin(BinOp::Eq, num(1), text("1"))).unwrap();
    assert!(!bool_at(&st, r));
}

#[test]
fn assignment_shares_lists() {
    let mut st = EvalState::new();
    run(&mut st, vec![set("a", list(vec![num(1)])), set("b", var("a"))]);
    assert_eq!(binding(&st, "a"), binding(&st, "b"));
    let r = eval_expr(&mut st, &var("b")).unwrap();
    assert_eq!(r, binding(&st, "a"));
}

#[test]
fn read_after_assign_gives_the_value() {
    let mut st = EvalState::new();
    run(&mut st, vec![set("x", num(1)), set("x", num(2))]);
    let r = eval_expr(&mut st, &var("x")).unwrap();
    assert_eq!(int_at(&st, r), 2);
    assert_eq!(st.vars.len(), 1);
}

#[test]
fn while_loop_sums() {
    let mut st = EvalState::new();
    run(&mut st, vec![set("i", num(0)), set("total", num(0))]);
    let body = vec![
        set("total", bin(BinOp::Add, var("total"), var("i"))),
        set("i", bin(BinOp::Add, var("i"), num(1))),
    ];
    let w = Stmt::While(bin(BinOp::Lt, var("i"), num(5)), body);
    assert_eq!(eval_statement(&mut st, &w).unwrap(), Flow::Normal);
    let total = binding(&st, "total");
    assert_eq!(int_at(&st, total), 10);
    assert!(!st.in_loop);
}

#[test]
fn break_leaves_the_loop_and_continue_skips() {
    let mut st = EvalState::new();
    run(&mut st, vec![set("i", num(0)), set("seen", num(0))]);
    let body = vec![
        set("i", bin(BinOp::Add, var("i"), num(1))),
        Stmt::If(bin(BinOp::Eq, var("i"), num(2)), vec![Stmt::Continue], vec![]),
        Stmt::If(bin(BinOp::Ge, var("i"), num(4)), vec![Stmt::Break], vec![]),
        set("seen", bin(BinOp::Add, var("seen"), var("i"))),
    ];
    let w = Stmt::While(Expr::Bool(true), body);
    assert_eq!(eval_statement(&mut st, &w).unwrap(), Flow::Normal);
    let seen = binding(&st, "seen");
    assert_eq!(int_at(&st, seen), 1 + 3);
}

#[test]
fn break_outside_a_loop_is_an_error() {
    let mut st = EvalState::new();
    let e = eval_statement(&mut st, &Stmt::Break).unwrap_err();
    assert_eq!(e.message, "break is only valid inside a loop");
    let e = eval_statement(&mut st, &Stmt::Continue).unwrap_err();
    assert_eq!(e.message, "continue is only valid inside a loop");
}

#[test]
fn return_carries_its_value_out_of_blocks() {
    let mut st = EvalState::new();
    let s = Stmt::If(Expr::Bool(true), vec![Stmt::Return(num(7)), set("never", num(0))], vec![Stmt::Pass]);
    match eval_statement(&mut st, &s).unwrap() {
        Flow::Return(r) => assert_eq!(int_at(&st, r), 7),
        other => panic!("expected a return, got {:?}", other),
    }
    assert!(st.vars.is_empty());
    let w = Stmt::While(Expr::Bool(true), vec![Stmt::Return(text("done"))]);
    match eval_statement(&mut st, &w).unwrap() {
        Flow::Return(r) => assert_eq!(str_at(&st, r), "done"),
        other => panic!("expected a return, got {:?}", other),
    }
}

#[test]
fn errors_stop_a_block() {
    let mut st = EvalState::new();
    let s = Stmt::If(Expr::Bool(true), vec![set("a", num(1)), Stmt::ExprStmt(var("nope")), set("b", num(2))], vec![]);
    let e = eval_statement(&mut st, &s).unwrap_err();
    assert_eq!(e.message, "undefined variable 'nope'");
    assert_eq!(st.vars.len(), 1);
}

#[test]
fn len_counts_characters_and_items() {
    let mut st = EvalState::new();
    let r = eval_expr(&mut st, &Expr::Len(Box::new(text("aé😀")))).unwrap();
    assert_eq!(int_at(&st, r), 3);
    let r = eval_expr(&mut st, &Expr::Len(Box::new(list(vec![num(1), num(2)])))).unwrap();
    assert_eq!(int_at(&st, r), 2);
    let e = eval_expr(&mut st, &Expr::Len(Box::new(num(5)))).unwrap_err();
    assert_eq!(e.message, "object of type 'int' has no len()");
}

#[test]
fn list_copies_lists_and_splits_strings() {
    let mut st = EvalState::new();
    run(&mut st, vec![set("a", list(vec![num(1), list(vec![])]))]);
    let r = eval_expr(&mut st, &Expr::ListOf(Box::new(var("a")))).unwrap();
    let original = binding(&st, "a");
    assert_ne!(r, original);
    match (&st.heap[r], &st.heap[original]) {
        (RtValue::List(copy), RtValue::List(items)) => assert_eq!(copy, items),
        _ => panic!("expected lists"),
    }
    let r = eval_expr(&mut st, &Expr::ListOf(Box::new(text("hé")))).unwrap();
    match &st.heap[r] {
        RtValue::List(items) => {
            let parts: Vec<String> = items.iter().map(|i| str_at(&st, *i)).collect();
            assert_eq!(parts, vec!["h".to_string(), "é".to_string()]);
        },
        _ => panic!("expected a list"),
    }
    let e = eval_expr(&mut st, &Expr::ListOf(Box::new(Expr::NoneLit))).unwrap_err();
    assert_eq!(e.message, "cannot convert none to list");
}

#[test]
fn modules_run_their_statements_in_order() {
    let mut st = EvalState::new();
    let program = vec![
        set("n", num(0)),
        Stmt::While(bin(BinOp::Lt, var("n"), num(3)), vec![set("n", bin(BinOp::Add, var("n"), num(1)))]),
        set("words", list(vec![text("a"), text("b")])),
        set("count", Expr::Len(Box::new(var("words")))),
    ];
    eval_module(&mut st, &program).unwrap();
    let n = binding(&st, "n");
    assert_eq!(int_at(&st, n), 3);
    let count = binding(&st, "count");
    assert_eq!(int_at(&st, count), 2);
    assert_eq!(value_type(&st.heap[binding(&st, "words")]), "list");
}

#[test]
fn a_module_cannot_return_or_break() {
    let mut st = EvalState::new();
    let e = eval_module(&mut st, &vec![set("a", num(1)), Stmt::Return(num(2)), set("b", num(3))]).unwrap_err();
    assert_eq!(e.message, "return is only valid inside a function");
    assert_eq!(st.vars.len(), 1);
    let e = eval_module(&mut st, &vec![Stmt::Break]).unwrap_err();
    assert_eq!(e.message, "break is only valid inside a loop");
}

#[test]
fn membership_in_lists_and_strings() {
    let mut st = EvalState::new();
    let xs = list(vec![num(1), list(vec![num(2)])]);
    let r = eval_expr(&mut st, &bin(BinOp::In, list(vec![num(2)]), xs)).unwrap();
    assert!(bool_at(&st, r));
    let r = eval_expr(&mut st, &bin(BinOp::NotIn, num(3), list(vec![num(1)]))).unwrap();
    assert!(bool_at(&st, r));
    let r = eval_expr(&mut st, &bin(BinOp::In, text("ell"), text("hello"))).unwrap();
    assert!(bool_at(&st, r));
    let r = eval_expr(&mut st, &bin(BinOp::In, text(""), text(""))).unwrap();
    assert!(bool_at(&st, r));
    let r = eval_expr(&mut st, &bin(BinOp::In, num(1), text("1"))).unwrap();
    assert!(!bool_at(&st, r));
    let e = eval_expr(&mut st, &bin(BinOp::In, num(1), num(1))).unwrap_err();
    assert_eq!(e.message, "'in' operator not supported for int");
    let e = eval_expr(&mut st, &bin(BinOp::NotIn, num(1), Expr::NoneLit)).unwrap_err();
    assert_eq!(e.message, "'not in' operator not supported for none");
}

#[test]
fn item_writes_are_seen_through_every_alias() {
    let mut st = EvalState::new();
    run(&mut st, vec![
        set("a", list(vec![num(1), num(2), num(3)])),
        set("b", var("a")),
        Stmt::SetItem(var("b"), num(-1), num(30)),
    ]);
    let r = eval_expr(&mut st, &index(var("a"), num(2))).unwrap();
    assert_eq!(int_at(&st, r), 30);
    let e = eval_statement(&mut st, &Stmt::SetItem(var("a"), num(3), num(0))).unwrap_err();
    assert_eq!(e.message, "list index out of range: index 3, len 3");
    let e = eval_statement(&mut st, &Stmt::SetItem(var("a"), text("x"), num(0))).unwrap_err();
    assert_eq!(e.message, "list indices must be integers, got str");
    let e = eval_statement(&mut st, &Stmt::SetItem(text("abc"), num(0), num(0))).unwrap_err();
    assert_eq!(e.message, "cannot index assign into str");
    let e = eval_statement(&mut st, &Stmt::SetItem(var("a"), num(0), var("missing"))).unwrap_err();
    assert_eq!(e.message, "undefined variable 'missing'");
}

#[test]
fn test_logical_operators_short_circuit_rhs() {
    let mut st = EvalState::new();
    let r = eval_expr(&mut st, &bin(BinOp::And, Expr::Bool(false), var("missing"))).unwrap();
    assert!(!bool_at(&st, r));
    let r = eval_expr(&mut st, &bin(BinOp::Or, Expr::Bool(true), var("missing"))).unwrap();
    assert!(bool_at(&st, r));
    let r = eval_expr(&mut st, &bin(BinOp::And, num(0), var("missing"))).unwrap();
    assert_eq!(int_at(&st, r), 0);
    let r = eval_expr(&mut st, &bin(BinOp::Or, num(0), num(5))).unwrap();
    assert_eq!(int_at(&st, r), 5);
    let e = eval_expr(&mut st, &bin(BinOp::And, num(1), var("missing"))).unwrap_err();
    assert_eq!(e.message, "undefined variable 'missing'");
}

#[test]
fn strings_order_and_repeat() {
    let mut st = EvalState::new();
    let r = eval_expr(&mut st, &bin(BinOp::Lt, text("a"), text("b"))).unwrap();
    assert!(bool_at(&st, r));
    let r = eval_expr(&mut st, &bin(BinOp::Ge, text("ab"), text("b"))).unwrap();
    assert!(!bool_at(&st, r));
    let r = eval_expr(&mut st, &bin(BinOp::Le, text("é"), text("é"))).unwrap();
    assert!(bool_at(&st, r));
    let r = eval_expr(&mut st, &bin(BinOp::Mul, text("ab"), num(3))).unwrap();
    assert_eq!(str_at(&st, r), "ababab");
    let r = eval_expr(&mut st, &bin(BinOp::Mul, text("ab"), num(-1))).unwrap();
    assert_eq!(str_at(&st, r), "");
    let r = eval_expr(&mut st, &bin(BinOp::Mul, num(2), list(vec![num(7)]))).unwrap();
    match &st.heap[r] {
        RtValue::List(items) => assert_eq!(items.len(), 2),
        _ => panic!("expected a list"),
    }
    let e = eval_expr(&mut st, &bin(BinOp::Mul, num(2), text("a"))).unwrap_err();
    assert_eq!(e.message, "no dispatch method found for '*' with argument types [\"int\", \"str\"]");
}

fn unary(f: fn(Box<Expr>) -> Expr, x: Expr) -> Expr {
    f(Box::new(x))
}

#[test]
fn test_integer_special_negation_in_expressions() {
    let mut st = EvalState::new();
    let r = eval_expr(&mut st, &unary(Expr::Neg, num(INT_POS_INF))).unwrap();
    assert_eq!(int_at(&st, r), INT_NEG_INF);
    let r = eval_expr(&mut st, &unary(Expr::Neg, unary(Expr::Neg, num(INT_POS_INF)))).unwrap();
    assert_eq!(int_at(&st, r), INT_POS_INF);
    let r = eval_expr(&mut st, &unary(Expr::Neg, num(INT_NAN))).unwrap();
    assert_eq!(int_at(&st, r), INT_NAN);
    let r = eval_expr(&mut st, &unary(Expr::Invert, num(5))).unwrap();
    assert_eq!(int_at(&st, r), -6);
    let r = eval_expr(&mut st, &unary(Expr::Pos, num(5))).unwrap();
    assert_eq!(int_at(&st, r), 5);
    let e = eval_expr(&mut st, &unary(Expr::Neg, text("a"))).unwrap_err();
    assert_eq!(e.message, "unsupported operand for unary -");
    let e = eval_expr(&mut st, &unary(Expr::Invert, Expr::Bool(true))).unwrap_err();
    assert_eq!(e.message, "unsupported operand for ~");
}

#[test]
fn division_remainder_bits_and_shifts() {
    let mut st = EvalState::new();
    let cases = [
        (BinOp::FloorDiv, 7, 2, 3), (BinOp::FloorDiv, 5, 0, INT_POS_INF), (BinOp::Mod, 5, 0, INT_NAN),
        (BinOp::Mod, -7, 3, 2), (BinOp::BitAnd, 6, 3, 2), (BinOp::BitOr, 6, 3, 7), (BinOp::BitXor, 6, 3, 5),
        (BinOp::Shl, 1, 4, 16), (BinOp::Shr, -16, 2, -4), (BinOp::Shl, 1, 64, 0),
    ];
    for (op, a, b, want) in cases {
        let r = eval_expr(&mut st, &bin(op, num(a), num(b))).unwrap();
        assert_eq!(int_at(&st, r), want);
    }
    let r = eval_expr(&mut st, &bin(BinOp::BitXor, Expr::Bool(true), Expr::Bool(true))).unwrap();
    assert!(!bool_at(&st, r));
    let e = eval_expr(&mut st, &bin(BinOp::FloorDiv, num(i64::MIN), num(-1))).unwrap_err();
    assert_eq!(e.message, "integer overflow in //");
    let e = eval_expr(&mut st, &bin(BinOp::Shl, num(1), num(-1))).unwrap_err();
    assert_eq!(e.message, "negative shift count");
    let e = eval_expr(&mut st, &bin(BinOp::Mod, text("a"), num(1))).unwrap_err();
    assert_eq!(e.message, "unsupported operands for %");
    let e = eval_expr(&mut st, &bin(BinOp::BitAnd, bin(BinOp::Mul, num(i64::MAX), num(2)), num(1))).unwrap_err();
    assert_eq!(e.message, "unsupported operands for &");
}
