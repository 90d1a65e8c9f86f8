use lucid_runtime::eval::{
    eval_expr, eval_module, eval_module_bounded, eval_statement, eval_statement_bounded, BinOp, EvalState, Expr,
    Flow, Handler, MatchArm, RtValue, Stmt,
};
use lucid_runtime::patterns::{Lit, Pattern};
use lucid_runtime::integer::Integer;
use lucid_runtime::matching::ExceptionType;

fn num(n: i64) -> Expr {
    Expr::Int(n)
}

fn var(name: &str) -> Expr {
    Expr::Name(name.to_string())
}

fn bin(op: BinOp, l: Expr, r: Expr) -> Expr {
    Expr::Binary(op, Box::new(l), Box::new(r))
}

fn set(name: &str, e: Expr) -> Stmt {
    Stmt::Assign(name.to_string(), e)
}

fn declare(name: &str, e: Expr, is_final: bool) -> Stmt {
    Stmt::VarDecl(name.to_string(), Some(e), is_final)
}

fn range(args: Vec<i64>) -> Expr {
    Expr::Range(args.into_iter().map(Expr::Int).collect())
}

fn int_at(state: &EvalState, r: usize) -> i64 {
    match &state.heap[r] {
        RtValue::Int(Integer::Int(x)) => *x,
        _ => panic!("expected a machine-word integer"),
    }
}

fn str_at(state: &EvalState, r: usize) -> String {
    match &state.heap[r] {
        RtValue::Str(s) => s.clone(),
        _ => panic!("expected a string"),
    }
}

fn lookup(state: &EvalState, name: &str) -> Option<usize> {
    state.vars.iter().rev().find(|(n, _)| n == name).map(|(_, r)| *r)
}

fn ints_of(state: &EvalState, r: usize) -> Vec<i64> {
    match &state.heap[r] {
        RtValue::List(items) => items.iter().map(|i| int_at(state, *i)).collect(),
        _ => panic!("expected a list"),
    }
}

#[test]
fn test_final_variable_cannot_be_reassigned_at_runtime() {
    let mut st = EvalState::new();
    let stmts = vec![declare("answer", num(1), true), set("answer", num(2))];
    let err = eval_module(&mut st, &stmts).unwrap_err();
    assert!(err.message.contains("final variable 'answer'"));
    assert_eq!(err.message, "cannot reassign final variable 'answer'");
    let r = lookup(&st, "answer").unwrap();
    assert_eq!(int_at(&st, r), 1);
}

#[test]
fn final_names_refuse_updates_too() {
    let mut st = EvalState::new();
    let stmts = vec![declare("limit", num(3), true), Stmt::AugAssign("limit".to_string(), BinOp::Add, num(1))];
    let err = eval_module(&mut st, &stmts).unwrap_err();
    assert_eq!(err.message, "cannot reassign final variable 'limit'");
}

#[test]
fn updates_combine_the_current_value() {
    let mut st = EvalState::new();
    let stmts = vec![
        set("x", num(5)),
        Stmt::AugAssign("x".to_string(), BinOp::Mul, num(3)),
        Stmt::AugAssign("x".to_string(), BinOp::Sub, num(1)),
    ];
    eval_module(&mut st, &stmts).unwrap();
    let r = lookup(&st, "x").unwrap();
    assert_eq!(int_at(&st, r), 14);
    let err = eval_statement(&mut st, &Stmt::AugAssign("y".to_string(), BinOp::Add, num(1))).unwrap_err();
    assert_eq!(err.message, "undefined variable 'y'");
}

#[test]
fn delete_drops_the_binding_and_its_final_mark() {
    let mut st = EvalState::new();
    let stmts = vec![declare("k", num(1), true), Stmt::Delete(vec!["k".to_string()]), set("k", num(2))];
    eval_module(&mut st, &stmts).unwrap();
    let r = lookup(&st, "k").unwrap();
    assert_eq!(int_at(&st, r), 2);
    let err = eval_statement(&mut st, &Stmt::Delete(vec!["k".to_string(), "gone".to_string()])).unwrap_err();
    assert_eq!(err.message, "cannot delete undefined variable 'gone'");
    assert!(lookup(&st, "k").is_none());
}

#[test]
fn declaration_without_value_binds_none() {
    let mut st = EvalState::new();
    eval_statement(&mut st, &Stmt::VarDecl("slot".to_string(), None, false)).unwrap();
    let r = lookup(&st, "slot").unwrap();
    assert!(matches!(st.heap[r], RtValue::NoneValue));
}

#[test]
fn comprehension_target_does_not_rebind_outer_name() {
    let mut st = EvalState::new();
    let comp = Expr::ListComp(
        "i".to_string(),
        Box::new(Expr::ListLit(vec![num(1), num(2)])),
        Box::new(var("i")),
        None,
    );
    let stmts = vec![set("i", num(99)), set("values", comp), set("result", var("i"))];
    eval_module(&mut st, &stmts).unwrap();
    let result = lookup(&st, "result").unwrap();
    assert_eq!(int_at(&st, result), 99);
    let values = lookup(&st, "values").unwrap();
    assert_eq!(ints_of(&st, values), vec![1, 2]);
    assert_eq!(st.vars.len(), 3);
}

#[test]
fn comprehension_filters_and_walks_ranges() {
    let mut st = EvalState::new();
    let comp = Expr::ListComp(
        "n".to_string(),
        Box::new(range(vec![10])),
        Box::new(bin(BinOp::Mul, var("n"), var("n"))),
        Some(Box::new(bin(BinOp::Eq, bin(BinOp::Mod, var("n"), num(3)), num(0)))),
    );
    let r = eval_expr(&mut st, &comp).unwrap();
    assert_eq!(ints_of(&st, r), vec![0, 9, 36, 81]);
    assert!(st.vars.is_empty());
    let bad = Expr::ListComp("c".to_string(), Box::new(Expr::Str("ab".to_string())), Box::new(var("c")), None);
    assert_eq!(eval_expr(&mut st, &bad).unwrap_err().message, "str is not iterable");
}

#[test]
fn range_indexing_uses_sequence_positions() {
    let mut st = EvalState::new();
    let stmts = vec![
        set("a", Expr::Index(Box::new(range(vec![1, 6, 2])), Box::new(num(1)))),
        set("b", Expr::Index(Box::new(range(vec![5, 0, -2])), Box::new(num(-1)))),
    ];
    eval_module(&mut st, &stmts).unwrap();
    let a = lookup(&st, "a").unwrap();
    assert_eq!(int_at(&st, a), 3);
    let b = lookup(&st, "b").unwrap();
    assert_eq!(int_at(&st, b), 1);
    let err = eval_expr(&mut st, &Expr::Index(Box::new(range(vec![3])), Box::new(num(3)))).unwrap_err();
    assert_eq!(err.message, "index 3 out of range");
}

#[test]
fn range_arguments_are_checked() {
    let mut st = EvalState::new();
    assert_eq!(eval_expr(&mut st, &range(vec![0, 5, 0])).unwrap_err().message, "range() step cannot be zero");
    assert_eq!(eval_expr(&mut st, &range(vec![])).unwrap_err().message, "range() takes 1 to 3 arguments, got 0");
    let text_stop = Expr::Range(vec![Expr::Str("x".to_string())]);
    assert_eq!(eval_expr(&mut st, &text_stop).unwrap_err().message, "range() stop must be an int");
    let text_step = Expr::Range(vec![num(0), num(1), Expr::Str("x".to_string())]);
    assert_eq!(eval_expr(&mut st, &text_step).unwrap_err().message, "range() arguments must be ints");
}

#[test]
fn test_for_loop_reports_range_step_overflow() {
    let mut st = EvalState::new();
    let lp = Stmt::For("value".to_string(), range(vec![9223372036854775806, 9223372036854775807, 2]), vec![Stmt::Pass]);
    let error = eval_module(&mut st, &vec![lp]).expect_err("overflow must be reported");
    assert!(error.message.contains("range step overflow"));
}

#[test]
fn for_loops_bind_each_item_in_a_scope_of_its_own() {
    let mut st = EvalState::new();
    let body = vec![
        declare("doubled", bin(BinOp::Mul, var("x"), num(2)), false),
        Stmt::AugAssign("total".to_string(), BinOp::Add, var("doubled")),
    ];
    let stmts = vec![
        set("total", num(0)),
        Stmt::For("x".to_string(), Expr::ListLit(vec![num(1), num(2), num(3)]), body),
    ];
    eval_module(&mut st, &stmts).unwrap();
    let total = lookup(&st, "total").unwrap();
    assert_eq!(int_at(&st, total), 12);
    assert!(lookup(&st, "x").is_none());
    assert!(lookup(&st, "doubled").is_none());
}

#[test]
fn for_loops_break_continue_and_refuse_strings() {
    let mut st = EvalState::new();
    let body = vec![
        Stmt::If(bin(BinOp::Eq, var("n"), num(2)), vec![Stmt::Continue], vec![]),
        Stmt::If(bin(BinOp::Eq, var("n"), num(4)), vec![Stmt::Break], vec![]),
        Stmt::AugAssign("seen".to_string(), BinOp::Add, var("n")),
    ];
    let stmts = vec![set("seen", num(0)), Stmt::For("n".to_string(), range(vec![0, 10]), body)];
    eval_module(&mut st, &stmts).unwrap();
    let seen = lookup(&st, "seen").unwrap();
    assert_eq!(int_at(&st, seen), 4);
    let err = eval_statement(&mut st, &Stmt::For("c".to_string(), Expr::Str("ab".to_string()), vec![])).unwrap_err();
    assert_eq!(err.message, "value is not iterable");
}

fn handler(name: &str, bound: Option<&str>, body: Vec<Stmt>) -> Handler {
    Handler {
        exception_type: ExceptionType::Named(name.to_string()),
        name: bound.map(|b| b.to_string()),
        body,
    }
}

#[test]
fn try_runs_the_first_handler_that_matches() {
    let mut st = EvalState::new();
    let attempt = Stmt::Try(
        vec![set("x", var("missing"))],
        vec![
            handler("ValueError", None, vec![set("which", num(1))]),
            handler("Exception", Some("err"), vec![set("which", num(2))]),
            handler("Any", None, vec![set("which", num(3))]),
        ],
        None,
    );
    assert_eq!(eval_statement(&mut st, &attempt).unwrap(), Flow::Normal);
    let which = lookup(&st, "which").unwrap();
    assert_eq!(int_at(&st, which), 2);
    let err = lookup(&st, "err").unwrap();
    assert_eq!(str_at(&st, err), "undefined variable 'missing'");
}

#[test]
fn try_without_a_matching_handler_keeps_the_error() {
    let mut st = EvalState::new();
    let attempt = Stmt::Try(
        vec![set("x", var("missing"))],
        vec![handler("ValueError", None, vec![Stmt::Pass])],
        Some(vec![set("cleaned", num(1))]),
    );
    let err = eval_statement(&mut st, &attempt).unwrap_err();
    assert_eq!(err.message, "undefined variable 'missing'");
    let cleaned = lookup(&st, "cleaned").unwrap();
    assert_eq!(int_at(&st, cleaned), 1);
}

#[test]
fn a_return_in_finally_wins() {
    let mut st = EvalState::new();
    let attempt = Stmt::Try(vec![Stmt::Return(num(1))], vec![], Some(vec![Stmt::Return(num(2))]));
    match eval_statement(&mut st, &attempt).unwrap() {
        Flow::Return(r) => assert_eq!(int_at(&st, r), 2),
        _ => panic!("expected a return"),
    }
}

#[test]
fn bounded_runs_stop_endless_loops() {
    let mut st = EvalState::new();
    let endless = Stmt::While(Expr::Bool(true), vec![Stmt::Pass]);
    assert!(eval_statement_bounded(&mut st, &endless, 50).is_none());
    let mut st = EvalState::new();
    let counting = vec![set("i", num(0)), Stmt::While(bin(BinOp::Lt, var("i"), num(3)), vec![Stmt::AugAssign("i".to_string(), BinOp::Add, num(1))])];
    assert!(eval_module_bounded(&mut st, &counting, 3).is_none());
    let mut st = EvalState::new();
    assert_eq!(eval_module_bounded(&mut st, &counting, 4).unwrap().unwrap(), ());
    let i = lookup(&st, "i").unwrap();
    assert_eq!(int_at(&st, i), 3);
}

#[test]
fn assertions_report_their_message() {
    let mut st = EvalState::new();
    let plain = Stmt::Assert(bin(BinOp::Eq, num(1), num(2)), None);
    assert_eq!(eval_statement(&mut st, &plain).unwrap_err().message, "assertion failed");
    let text = Stmt::Assert(Expr::Bool(false), Some(Expr::Str("bad".to_string())));
    assert_eq!(eval_statement(&mut st, &text).unwrap_err().message, "bad");
    let shown = Stmt::Assert(Expr::Bool(false), Some(Expr::ListLit(vec![num(1), Expr::Str("a".to_string()), Expr::NoneLit])));
    assert_eq!(eval_statement(&mut st, &shown).unwrap_err().message, "[1, \"a\", none]");
    let passing = Stmt::Assert(Expr::Bool(true), Some(var("never_evaluated")));
    assert_eq!(eval_statement(&mut st, &passing).unwrap(), Flow::Normal);
}

#[test]
fn raise_names_the_type_and_shows_the_value() {
    let mut st = EvalState::new();
    let err = eval_statement(&mut st, &Stmt::Raise(Expr::Str("oops".to_string()))).unwrap_err();
    assert_eq!(err.message, "raised invariant (str): \"oops\"");
    let err = eval_statement(&mut st, &Stmt::Raise(range(vec![0, 3]))).unwrap_err();
    assert_eq!(err.message, "raised invariant (range): range(0, 3)");
    let err = eval_statement(&mut st, &Stmt::Raise(range(vec![0, 9, 3]))).unwrap_err();
    assert_eq!(err.message, "raised invariant (range): range(0, 9, 3)");
    let caught = Stmt::Try(
        vec![Stmt::Raise(num(7))],
        vec![handler("str", None, vec![set("which", num(1))]), handler("int", Some("why"), vec![set("which", num(2))])],
        None,
    );
    eval_statement(&mut st, &caught).unwrap();
    let which = lookup(&st, "which").unwrap();
    assert_eq!(int_at(&st, which), 2);
    let why = lookup(&st, "why").unwrap();
    assert_eq!(str_at(&st, why), "raised invariant (int): 7");
}

#[test]
fn a_failed_guard_leaves_no_binding_and_the_next_arm_runs() {
    let mut st = EvalState::new();
    let first = MatchArm {
        pattern: Pattern::Tuple(vec![Pattern::Ident("a".to_string()), Pattern::Ident("b".to_string())]),
        guard: Some(bin(BinOp::Gt, var("a"), num(5))),
        body: vec![set("which", num(1))],
    };
    let second = MatchArm {
        pattern: Pattern::Tuple(vec![
            Pattern::Ident("a".to_string()),
            Pattern::Star(Box::new(Pattern::Ident("rest".to_string()))),
        ]),
        guard: None,
        body: vec![set("which", num(2))],
    };
    let m = Stmt::Match(Expr::ListLit(vec![num(1), num(2)]), Some("subject".to_string()), vec![first, second]);
    eval_statement(&mut st, &m).unwrap();
    let which = lookup(&st, "which").unwrap();
    assert_eq!(int_at(&st, which), 2);
    assert!(lookup(&st, "b").is_none());
    let rest = lookup(&st, "rest").unwrap();
    assert_eq!(ints_of(&st, rest), vec![2]);
    let a = lookup(&st, "a").unwrap();
    assert_eq!(int_at(&st, a), 1);
    let subject = lookup(&st, "subject").unwrap();
    assert_eq!(ints_of(&st, subject), vec![1, 2]);
}

#[test]
fn a_value_no_arm_takes_is_an_error() {
    let mut st = EvalState::new();
    let arm = MatchArm { pattern: Pattern::Literal(Lit::Int(4)), guard: None, body: vec![] };
    let m = Stmt::Match(num(5), None, vec![arm]);
    assert_eq!(eval_statement(&mut st, &m).unwrap_err().message, "non-exhaustive match: unhandled value 5");
}

fn slice(target: Expr, lo: Option<i64>, hi: Option<i64>, step: Option<i64>) -> Expr {
    Expr::Slice(
        Box::new(target),
        lo.map(|n| Box::new(num(n))),
        hi.map(|n| Box::new(num(n))),
        step.map(|n| Box::new(num(n))),
    )
}

fn bool_of(state: &EvalState, r: usize) -> bool {
    match &state.heap[r] {
        RtValue::Bool(b) => *b,
        _ => panic!("expected a bool"),
    }
}

#[test]
fn range_slicing_materializes_sequence_slice() {
    let mut st = EvalState::new();
    let stmts = vec![
        set("a", slice(range(vec![0, 6]), Some(1), Some(5), Some(2))),
        set("b", slice(range(vec![5, 0, -1]), None, None, Some(-2))),
    ];
    eval_module(&mut st, &stmts).unwrap();
    let a = lookup(&st, "a").unwrap();
    assert_eq!(ints_of(&st, a), vec![1, 3]);
    let b = lookup(&st, "b").unwrap();
    assert_eq!(ints_of(&st, b), vec![1, 3, 5]);
}

#[test]
fn slices_of_lists_and_strings() {
    let mut st = EvalState::new();
    let items = Expr::ListLit(vec![num(10), num(20), num(30), num(40)]);
    let r = eval_expr(&mut st, &slice(items, Some(-3), None, None)).unwrap();
    assert_eq!(ints_of(&st, r), vec![20, 30, 40]);
    let r = eval_expr(&mut st, &slice(Expr::Str("hello".to_string()), None, None, Some(-1))).unwrap();
    assert_eq!(str_at(&st, r), "olleh");
    let err = eval_expr(&mut st, &slice(Expr::Str("abc".to_string()), None, None, Some(0))).unwrap_err();
    assert_eq!(err.message, "slice step cannot be zero");
    let err = eval_expr(&mut st, &slice(num(3), None, None, None)).unwrap_err();
    assert_eq!(err.message, "slice not supported on int");
    let bad = Expr::Slice(Box::new(Expr::Str("abc".to_string())), Some(Box::new(Expr::Str("x".to_string()))), None, None);
    assert_eq!(eval_expr(&mut st, &bad).unwrap_err().message, "slice start must be an integer");
}

#[test]
fn membership_in_ranges_through_the_evaluator() {
    let mut st = EvalState::new();
    let stmts = vec![
        set("a", bin(BinOp::In, num(4), range(vec![0, 10, 2]))),
        set("b", bin(BinOp::In, num(5), range(vec![0, 10, 2]))),
        set("c", bin(BinOp::In, num(3), range(vec![5, 0, -2]))),
        set("d", bin(BinOp::NotIn, num(4), range(vec![5, 0, -2]))),
    ];
    eval_module(&mut st, &stmts).unwrap();
    for (name, want) in [("a", true), ("b", false), ("c", true), ("d", true)] {
        let r = lookup(&st, name).unwrap();
        assert_eq!(bool_of(&st, r), want);
    }
}

#[test]
fn ranges_have_length_and_list_form() {
    let mut st = EvalState::new();
    let r = eval_expr(&mut st, &Expr::Len(Box::new(range(vec![0, 10, 3])))).unwrap();
    assert_eq!(int_at(&st, r), 4);
    let r = eval_expr(&mut st, &Expr::ListOf(Box::new(range(vec![3, 0, -1])))).unwrap();
    assert_eq!(ints_of(&st, r), vec![3, 2, 1]);
    let r = eval_expr(&mut st, &Expr::Len(Box::new(range(vec![i64::MIN, i64::MAX])))).unwrap();
    match &st.heap[r] {
        RtValue::Int(Integer::Big(b)) => assert_eq!(b.to_string(), "18446744073709551615"),
        _ => panic!("expected an arbitrary-precision integer"),
    }
}

#[test]
fn conditional_expressions_evaluate_one_branch() {
    let mut st = EvalState::new();
    let pick = Expr::IfExpr(Box::new(Expr::Bool(true)), Box::new(num(1)), Box::new(var("missing")));
    let r = eval_expr(&mut st, &pick).unwrap();
    assert_eq!(int_at(&st, r), 1);
    let pick = Expr::IfExpr(Box::new(num(0)), Box::new(var("missing")), Box::new(num(2)));
    let r = eval_expr(&mut st, &pick).unwrap();
    assert_eq!(int_at(&st, r), 2);
}

#[test]
fn print_writes_one_line_per_call() {
    let mut st = EvalState::new();
    let stmts = vec![
        set("xs", Expr::ListLit(vec![num(1), Expr::Str("a".to_string())])),
        Stmt::ExprStmt(Expr::Print(vec![Expr::Str("items:".to_string()), var("xs"), Expr::Bool(true), Expr::NoneLit])),
        Stmt::For("i".to_string(), range(vec![2]), vec![Stmt::ExprStmt(Expr::Print(vec![var("i")]))]),
        Stmt::ExprStmt(Expr::Print(vec![])),
    ];
    eval_module(&mut st, &stmts).unwrap();
    assert_eq!(st.output, vec!["items: [1, \"a\"] true none".to_string(), "0".to_string(), "1".to_string(), String::new()]);
}
