use lucid_runtime::path::{callable_name_parts, dotted_path, dotted_path_string, identity_metadata_attr, IdentityAttr};

#[test]
fn dotted_names_split_into_parts() {
    assert_eq!(dotted_path("a.b.c"), vec!["a".to_string(), "b".to_string(), "c".to_string()]);
    assert_eq!(dotted_path(".a..b."), vec!["a".to_string(), "b".to_string()]);
    assert_eq!(dotted_path(""), Vec::<String>::new());
    assert_eq!(dotted_path("single"), vec!["single".to_string()]);
}

#[test]
fn parts_join_back_with_dots() {
    let parts = vec!["pkg".to_string(), "mod".to_string(), "item".to_string()];
    assert_eq!(dotted_path_string(&parts), "pkg.mod.item");
    assert_eq!(dotted_path_string(&[]), "");
    assert_eq!(dotted_path(&dotted_path_string(&parts)), parts);
}

#[test]
fn identity_attributes_of_declarations() {
    match identity_metadata_attr("answer", "answer", "__name__") {
        Some(IdentityAttr::Name(n)) => assert_eq!(n, "answer"),
        _ => panic!("expected a name"),
    }
    match identity_metadata_attr("mathx", "pkg.mathx", "__path__") {
        Some(IdentityAttr::Path(p)) => assert_eq!(p, vec!["pkg".to_string(), "mathx".to_string()]),
        _ => panic!("expected a path"),
    }
    assert!(matches!(identity_metadata_attr("answer", "answer", "__doc__"), Some(IdentityAttr::Doc)));
    assert!(identity_metadata_attr("answer", "answer", "__qualname__").is_none());
}

#[test]
fn callable_names_resolve_to_public_paths() {
    assert_eq!(callable_name_parts("answer").unwrap(), vec!["answer".to_string()]);
    assert_eq!(callable_name_parts(".pkg.run").unwrap(), vec!["pkg".to_string(), "run".to_string()]);
    assert_eq!(callable_name_parts("bad name").err().unwrap().message, "invalid callable name 'bad name'");
    assert_eq!(callable_name_parts("").err().unwrap().message, "invalid callable name ''");
    assert_eq!(callable_name_parts("tab\there").err().unwrap().message, "invalid callable name 'tab\there'");
    assert_eq!(
        callable_name_parts("_private").err().unwrap().message,
        "name '_private' is private or malformed and cannot be invoked"
    );
    assert_eq!(
        callable_name_parts("pkg._hidden").err().unwrap().message,
        "name 'pkg._hidden' is private or malformed and cannot be invoked"
    );
    assert_eq!(
        callable_name_parts("a..b").err().unwrap().message,
        "name 'a..b' is private or malformed and cannot be invoked"
    );
    assert_eq!(
        callable_name_parts("a.").err().unwrap().message,
        "name 'a.' is private or malformed and cannot be invoked"
    );
}
