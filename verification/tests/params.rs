use lucid_runtime::params::{plan_arguments, plan_error, Binding, ParamKind, ParamSpec};

fn param(name: &str, kind: ParamKind, has_default: bool) -> ParamSpec {
    ParamSpec { name: name.to_string(), kind, has_default }
}

fn positional() -> Option<String> {
    None
}

fn named(name: &str) -> Option<String> {
    Some(name.to_string())
}

fn describe(b: &Binding) -> String {
    match b {
        Binding::Keyword(i) => format!("kw{}", i),
        Binding::Positional(i) => format!("pos{}", i),
        Binding::Default => "default".to_string(),
        Binding::Missing => "missing".to_string(),
        Binding::RestPositional(v) => format!("rest{:?}", v),
        Binding::RestKeywords(v) => format!("kwargs{:?}", v),
        Binding::Gather(p, k) => format!("gather{:?}{:?}", p, k),
    }
}

fn plan_text(params: &[ParamSpec], args: &[Option<String>]) -> (Vec<String>, bool) {
    let plan = plan_arguments(params, args).unwrap();
    (plan.bindings.iter().map(describe).collect(), plan.too_many)
}

#[test]
fn arguments_bind_by_parameter_zone() {
    let params = vec![
        param("a", ParamKind::Regular, false),
        param("b", ParamKind::Regular, true),
        param("rest", ParamKind::VariadicPositional, false),
    ];
    let (b, too_many) = plan_text(&params, &[positional(), positional(), positional(), positional()]);
    assert_eq!(b, vec!["pos0", "pos1", "rest[2, 3]"]);
    assert!(!too_many);
    let (b, too_many) = plan_text(&params, &[named("b"), named("a")]);
    assert_eq!(b, vec!["kw1", "kw0", "rest[]"]);
    assert!(!too_many);
    let (b, _) = plan_text(&params, &[positional()]);
    assert_eq!(b, vec!["pos0", "default", "rest[]"]);
}

#[test]
fn keyword_arguments_are_collected() {
    let params = vec![param("kwargs", ParamKind::VariadicKeyword, false)];
    let (b, too_many) = plan_text(&params, &[named("alpha"), named("beta")]);
    assert_eq!(b, vec!["kwargs[0, 1]"]);
    assert!(!too_many);
}

#[test]
fn gathering_takes_every_remaining_argument() {
    let params = vec![param("path", ParamKind::Regular, false), param("rest", ParamKind::Gather, false)];
    let (b, too_many) = plan_text(&params, &[positional(), positional(), named("x"), positional()]);
    assert_eq!(b, vec!["pos0", "gather[1, 3][2]"]);
    assert!(!too_many);
}

#[test]
fn binding_errors() {
    let params = vec![param("a", ParamKind::Regular, false), param("b", ParamKind::Regular, false)];
    let e = plan_arguments(&params, &[named("a"), named("a")]).err().unwrap();
    assert_eq!(e.message, "multiple values for argument 'a'");
    let plan = plan_arguments(&params, &[positional()]).unwrap();
    assert_eq!(plan.bindings.len(), 2);
    assert_eq!(plan_error(&params, &plan).unwrap().message, "missing required argument 'b'");
    let plan = plan_arguments(&params, &[positional(), positional(), positional()]).unwrap();
    assert!(plan.too_many);
    assert_eq!(plan_error(&params, &plan).unwrap().message, "too many arguments for function");
    let plan = plan_arguments(&params, &[positional(), named("c"), named("b")]).unwrap();
    assert!(plan.too_many);
    let plan = plan_arguments(&params, &[named("b"), positional()]).unwrap();
    assert!(plan_error(&params, &plan).is_none());
    assert_eq!(plan.bindings.iter().map(describe).collect::<Vec<_>>(), vec!["pos1", "kw0"]);
}

#[test]
fn a_missing_argument_ends_the_plan() {
    let params = vec![
        param("a", ParamKind::Regular, false),
        param("b", ParamKind::Regular, false),
        param("c", ParamKind::Regular, false),
    ];
    let plan = plan_arguments(&params, &[named("c")]).unwrap();
    assert_eq!(plan.bindings.iter().map(describe).collect::<Vec<_>>(), vec!["missing"]);
    assert!(!plan.too_many);
    assert_eq!(plan_error(&params, &plan).unwrap().message, "missing required argument 'a'");
}
