use lucid_runtime::error::RuntimeError;
use lucid_runtime::modules::{
    builtin_module, candidate_files, cycle_step, declaration_only, finish_loading, finish_module_run, module_location,
    module_step, start_loading, BuiltinModule, ModuleAction, ModuleCache, StatementKind,
};

#[test]
fn builtin_modules_are_known_by_name() {
    assert_eq!(builtin_module("math"), Some(BuiltinModule::Math));
    assert_eq!(builtin_module("sys"), Some(BuiltinModule::Sys));
    assert_eq!(builtin_module("iteration"), Some(BuiltinModule::Iteration));
    assert_eq!(builtin_module("time"), Some(BuiltinModule::Time));
    assert_eq!(builtin_module("maths"), None);
}

#[test]
fn relative_names_climb_one_directory_per_extra_dot() {
    let p = module_location("pkg.util");
    assert_eq!((p.dots, p.ups, p.rel_path.as_str()), (0, 0, "pkg/util"));
    let p = module_location(".b");
    assert_eq!((p.dots, p.ups, p.rel_path.as_str()), (1, 0, "b"));
    let p = module_location("...core.io");
    assert_eq!((p.dots, p.ups, p.rel_path.as_str()), (3, 2, "core/io"));
}

#[test]
fn candidates_try_the_file_then_the_package() {
    assert_eq!(candidate_files("pkg/util"), vec![
        "pkg/util.lucid".to_string(),
        "pkg/util/mod.lucid".to_string(),
        "pkg/util/__init__.lucid".to_string(),
    ]);
}

#[test]
fn a_module_is_loaded_once_then_reused() {
    let mut cache: ModuleCache<u32> = ModuleCache::new();
    let mut loading: Vec<String> = Vec::new();
    assert!(matches!(module_step(&cache, &loading, "/m/a.lucid"), ModuleAction::Load));
    cache.insert("/m/a.lucid".to_string(), 1);
    start_loading(&mut loading, "/m/a.lucid");
    match module_step(&cache, &loading, "/m/a.lucid") {
        ModuleAction::CheckCycle(i) => {
            assert_eq!(cache.entries[i].1, 1);
            let e = cycle_step("/m/a.lucid", i, false).unwrap_err();
            assert_eq!(e.message, "cyclic module initialization involving '/m/a.lucid'");
            assert_eq!(cycle_step("/m/a.lucid", i, true).unwrap(), i);
        },
        _ => panic!("expected a cycle check"),
    }
    finish_loading(&mut loading, "/m/a.lucid");
    assert!(loading.is_empty());
    cache.insert("/m/a.lucid".to_string(), 2);
    assert_eq!(cache.entries.len(), 1);
    match module_step(&cache, &loading, "/m/a.lucid") {
        ModuleAction::UseCached(i) => assert_eq!(cache.entries[i].1, 2),
        _ => panic!("expected the cached module"),
    }
    cache.remove("/m/a.lucid");
    assert!(matches!(module_step(&cache, &loading, "/m/a.lucid"), ModuleAction::Load));
}

#[test]
fn loading_marks_are_kept_once() {
    let mut loading: Vec<String> = Vec::new();
    start_loading(&mut loading, "a");
    start_loading(&mut loading, "b");
    start_loading(&mut loading, "a");
    assert_eq!(loading, vec!["a".to_string(), "b".to_string()]);
    finish_loading(&mut loading, "a");
    assert_eq!(loading, vec!["b".to_string()]);
}

#[test]
fn declaration_only_modules_have_no_other_statements() {
    assert!(declaration_only(&vec![StatementKind::ClassDef, StatementKind::FromImport, StatementKind::VarDecl]));
    assert!(declaration_only(&vec![]));
    assert!(!declaration_only(&vec![StatementKind::Function, StatementKind::Other]));
}

#[test]
fn a_failed_run_leaves_neither_cache_nor_loading_list() {
    let mut cache: ModuleCache<u32> = ModuleCache::new();
    let mut loading: Vec<String> = Vec::new();
    cache.insert("m.lucid".to_string(), 0);
    start_loading(&mut loading, "m.lucid");
    let failure = RuntimeError { message: "boom".to_string() };
    let err = finish_module_run(&mut cache, &mut loading, "m.lucid".to_string(), Err(failure)).unwrap_err();
    assert_eq!(err.message, "boom");
    assert!(cache.position("m.lucid").is_none());
    assert!(loading.is_empty());
}

#[test]
fn a_finished_run_caches_the_module() {
    let mut cache: ModuleCache<u32> = ModuleCache::new();
    let mut loading: Vec<String> = Vec::new();
    cache.insert("m.lucid".to_string(), 0);
    start_loading(&mut loading, "m.lucid");
    let i = finish_module_run(&mut cache, &mut loading, "m.lucid".to_string(), Ok(7)).unwrap();
    assert_eq!(cache.entries[i].1, 7);
    assert_eq!(cache.entries.len(), 1);
    assert!(loading.is_empty());
}
