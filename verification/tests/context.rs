use lucid_runtime::context::{context_plan, StmtRef, StmtShape};

#[test]
fn a_top_level_yield_splits_the_body() {
    let body = vec![StmtShape::Other, StmtShape::Yield, StmtShape::Other];
    let plan = context_plan(&body);
    assert_eq!(plan.body, vec![StmtRef::Top(0), StmtRef::Top(1), StmtRef::Top(2)]);
    assert_eq!(plan.yield_at, Some(1));
    assert!(plan.error_teardown.is_none());
}

#[test]
fn a_yield_inside_try_is_flattened() {
    let body = vec![
        StmtShape::Other,
        StmtShape::Try { body: vec![false, true], handler_lens: vec![1, 2], finally: Some(vec![false]) },
        StmtShape::Other,
    ];
    let plan = context_plan(&body);
    assert_eq!(
        plan.body,
        vec![StmtRef::Top(0), StmtRef::TryBody(0), StmtRef::TryBody(1), StmtRef::Finally(0)]
    );
    assert_eq!(plan.yield_at, Some(2));
    assert_eq!(
        plan.error_teardown,
        Some(vec![StmtRef::Handler(0, 0), StmtRef::Handler(1, 0), StmtRef::Handler(1, 1), StmtRef::Finally(0)])
    );
}

#[test]
fn a_try_without_handlers_has_no_error_teardown() {
    let body = vec![StmtShape::Try { body: vec![true], handler_lens: vec![], finally: None }];
    let plan = context_plan(&body);
    assert_eq!(plan.body, vec![StmtRef::TryBody(0)]);
    assert_eq!(plan.yield_at, Some(0));
    assert!(plan.error_teardown.is_none());
}

#[test]
fn a_body_without_yield_has_none() {
    let body = vec![StmtShape::Other, StmtShape::Try { body: vec![false], handler_lens: vec![1], finally: None }];
    let plan = context_plan(&body);
    assert_eq!(plan.body, vec![StmtRef::Top(0), StmtRef::Top(1)]);
    assert_eq!(plan.yield_at, None);
    assert!(plan.error_teardown.is_none());
    assert_eq!(context_plan(&[]).yield_at, None);
}
