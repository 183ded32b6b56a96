use env_manage::collect::collect;
use env_manage::graph::DependencyError;
use env_manage::loader::ConfigManager;
use env_manage::loader::LoadError;
use env_manage::loader::ProfileStore;
use env_manage::loader::StoreRecord;
use env_manage::models::Profile;

fn profile(vars: &[(&str, &str)], deps: &[&str]) -> Profile {
    let mut p = Profile::new();
    for (k, v) in vars {
        p.add_variable(k, v);
    }
    for d in deps {
        p.add_profile(d);
    }
    p
}

#[test]
fn loading_a_chain_commits_everything() {
    let mut store = ProfileStore::new();
    store.insert_record("base", StoreRecord::Record(profile(&[("EDITOR", "vim")], &[])));
    store.insert_record(
        "work",
        StoreRecord::Record(profile(&[("EDITOR", "code")], &["base"])),
    );
    let mut m = ConfigManager::new(store);
    m.load_profile("work").unwrap();
    assert!(m.has_profile("work"));
    assert!(m.has_profile("base"));
    assert_eq!(
        m.resolve_dependencies("work").unwrap(),
        vec!["base".to_string(), "work".to_string()]
    );
}

#[test]
fn loading_twice_is_idempotent() {
    let mut store = ProfileStore::new();
    store.insert_record("solo", StoreRecord::Record(profile(&[], &[])));
    let mut m = ConfigManager::new(store);
    m.load_profile("solo").unwrap();
    m.load_profile("solo").unwrap();
    assert_eq!(m.list_profile_names().0, vec!["solo".to_string()]);
}

#[test]
fn one_broken_branch_does_not_hide_its_sibling() {
    // p depends on x and y; x has no record, y loads fine
    let mut store = ProfileStore::new();
    store.insert_record("p", StoreRecord::Record(profile(&[], &["x", "y"])));
    store.insert_record("y", StoreRecord::Record(profile(&[], &[])));
    let mut m = ConfigManager::new(store);
    let err = m.load_profile("p").unwrap_err();
    // exactly one failure: it comes back alone, wrapped for p, naming only x
    match &err {
        DependencyError::DependencyChain { profile, cause } => {
            assert_eq!(profile, "p");
            match cause.as_ref() {
                DependencyError::ProfileNotFound(n) => assert_eq!(n, "x"),
                _ => panic!("expected the missing record to be the root cause"),
            }
        },
        _ => panic!("expected a single wrapped error, not an aggregate"),
    }
    assert_eq!(err.message(), "Trace: p -> Profile 'x' not found.");
    // the sibling stayed loaded even though p was not committed
    assert!(m.has_profile("y"));
    assert!(!m.has_profile("p"));
}

#[test]
fn independent_failures_are_aggregated() {
    let mut store = ProfileStore::new();
    store.insert_record("p", StoreRecord::Record(profile(&[], &["x", "z"])));
    let mut m = ConfigManager::new(store);
    let err = m.load_profile("p").unwrap_err();
    match &err {
        DependencyError::MultipleErrors(list) => assert_eq!(list.len(), 2),
        _ => panic!("expected an aggregate of both failures"),
    }
    assert_eq!(
        err.message(),
        "Trace: p -> Profile 'x' not found.\nTrace: p -> Profile 'z' not found."
    );
}

#[test]
fn unreadable_records_pass_their_cause_through() {
    let mut store = ProfileStore::new();
    store.insert_record("broken", StoreRecord::IoFailure("permission denied".to_string()));
    store.insert_record("garbled", StoreRecord::ParseFailure("bad syntax".to_string()));
    let mut m = ConfigManager::new(store);
    match m.load_profile("broken").unwrap_err() {
        DependencyError::ProfileIoError(n, cause) => {
            assert_eq!(n, "broken");
            assert_eq!(cause, "permission denied");
        },
        _ => panic!("expected the read failure"),
    }
    match m.load_profile("garbled").unwrap_err() {
        DependencyError::ProfileParseError(n, cause) => {
            assert_eq!(n, "garbled");
            assert_eq!(cause, "bad syntax");
        },
        _ => panic!("expected the parse failure"),
    }
}

#[test]
fn a_stored_cycle_surfaces_as_circular_dependency() {
    let mut store = ProfileStore::new();
    store.insert_record("a", StoreRecord::Record(profile(&[], &["b"])));
    store.insert_record("b", StoreRecord::Record(profile(&[], &["a"])));
    let mut m = ConfigManager::new(store);
    let err = m.load_profile("a").unwrap_err();
    match &err {
        DependencyError::CircularDependency(path) => {
            assert_eq!(
                path,
                &vec![
                    "a".to_string(),
                    "b".to_string(),
                    "a".to_string(),
                    "b".to_string()
                ]
            );
        },
        _ => panic!("expected the cycle to surface"),
    }
    assert!(!m.has_profile("a"));
}

#[test]
fn a_deep_cycle_cannot_silently_succeed() {
    let mut store = ProfileStore::new();
    store.insert_record("a", StoreRecord::Record(profile(&[], &["b"])));
    store.insert_record("b", StoreRecord::Record(profile(&[], &["c"])));
    store.insert_record("c", StoreRecord::Record(profile(&[], &["a"])));
    let mut m = ConfigManager::new(store);
    let err = m.load_profile("a").unwrap_err();
    match &err {
        DependencyError::CircularDependency(path) => {
            assert_eq!(
                path,
                &vec![
                    "a".to_string(),
                    "b".to_string(),
                    "c".to_string(),
                    "a".to_string(),
                    "b".to_string()
                ]
            );
        },
        _ => panic!("expected the cycle to surface at the top level"),
    }
    assert!(!m.has_profile("a"));
}

#[test]
fn load_all_profiles_loads_the_whole_store() {
    let mut store = ProfileStore::new();
    store.insert_record("one", StoreRecord::Record(profile(&[("A", "1")], &[])));
    store.insert_record("two", StoreRecord::Record(profile(&[("B", "2")], &["one"])));
    let mut m = ConfigManager::new(store);
    m.load_all_profiles().unwrap();
    assert!(m.has_profile("one"));
    assert!(m.has_profile("two"));
    assert_eq!(
        m.scan_profile_names().0,
        vec!["one".to_string(), "two".to_string()]
    );
}

#[test]
fn read_profile_reports_what_the_store_holds() {
    let mut store = ProfileStore::new();
    store.insert_record("ok", StoreRecord::Record(profile(&[("K", "v")], &[])));
    store.insert_record("bad", StoreRecord::IoFailure("gone".to_string()));
    let p = store.read_profile("ok").unwrap();
    assert_eq!(p.variables, vec![("K".to_string(), "v".to_string())]);
    match store.read_profile("bad").unwrap_err() {
        LoadError::Io(c) => assert_eq!(c, "gone"),
        _ => panic!("expected the read failure"),
    }
    match store.read_profile("absent").unwrap_err() {
        LoadError::NotFound(n) => assert_eq!(n, "absent"),
        _ => panic!("expected the missing record"),
    }
    assert_eq!(
        store.read_profile("absent").unwrap_err().message(),
        "Profile 'absent' not found"
    );
}

#[test]
fn collected_variables_follow_the_activation_order() {
    // base sets EDITOR=vim; work inherits base and sets EDITOR=code
    let mut store = ProfileStore::new();
    store.insert_record("base", StoreRecord::Record(profile(&[("EDITOR", "vim")], &[])));
    store.insert_record(
        "work",
        StoreRecord::Record(profile(&[("EDITOR", "code")], &["base"])),
    );
    let mut m = ConfigManager::new(store);
    m.load_all_profiles().unwrap();
    assert_eq!(
        m.resolve_dependencies("work").unwrap(),
        vec!["base".to_string(), "work".to_string()]
    );
    let merged = collect(&m, &vec!["work".to_string()]).unwrap();
    assert_eq!(merged, vec![("EDITOR".to_string(), "code".to_string())]);
}

#[test]
fn own_variables_always_win() {
    let mut store = ProfileStore::new();
    store.insert_record(
        "base",
        StoreRecord::Record(profile(&[("EDITOR", "vim"), ("SHELLOPTS", "strict")], &[])),
    );
    let mut m = ConfigManager::new(store);
    m.load_all_profiles().unwrap();
    let work = profile(&[("EDITOR", "code")], &["base"]);
    let merged = work.collect_vars(&m).unwrap();
    assert_eq!(
        merged,
        vec![
            ("EDITOR".to_string(), "code".to_string()),
            ("SHELLOPTS".to_string(), "strict".to_string())
        ]
    );
}

#[test]
fn collect_fails_for_an_unknown_name() {
    let store = ProfileStore::new();
    let m = ConfigManager::new(store);
    match collect(&m, &vec!["ghost".to_string()]).unwrap_err() {
        DependencyError::ProfileNotFound(n) => assert_eq!(n, "ghost"),
        _ => panic!("expected the missing profile"),
    }
}

#[test]
fn manager_edits_profiles_in_memory() {
    let store = ProfileStore::new();
    let mut m = ConfigManager::new(store);
    m.add_profile("draft", profile(&[("A", "1")], &[]));
    assert!(m.has_profile("draft"));
    let moved = m.rename_profile_in_memory("draft", "final_name").unwrap();
    assert_eq!(moved.variables, vec![("A".to_string(), "1".to_string())]);
    assert!(!m.has_profile("draft"));
    assert!(m.has_profile("final_name"));
    let removed = m.remove_profile("final_name").unwrap();
    assert_eq!(removed.variables, vec![("A".to_string(), "1".to_string())]);
    assert!(!m.has_profile("final_name"));
}

#[test]
fn swapping_a_dependency_updates_the_declaration() {
    let store = ProfileStore::new();
    let mut m = ConfigManager::new(store);
    m.add_profile("p", profile(&[], &["old_dep"]));
    m.update_profile_dependencies("p", "old_dep", "new_dep");
    let p = m.get_profile("p").unwrap();
    assert_eq!(p.profiles, vec!["new_dep".to_string()]);
}

#[test]
fn rebuild_graph_reflects_the_loaded_declarations() {
    let store = ProfileStore::new();
    let mut m = ConfigManager::new(store);
    m.add_profile("a", profile(&[], &["b"]));
    m.add_profile("b", profile(&[], &[]));
    m.rebuild_graph().unwrap();
    assert_eq!(
        m.resolve_dependencies("a").unwrap(),
        vec!["b".to_string(), "a".to_string()]
    );
    assert_eq!(m.get_parents("b").unwrap(), vec!["a".to_string()]);
    assert_eq!(
        m.find_path("a", "b").unwrap(),
        vec!["a".to_string(), "b".to_string()]
    );
}

#[test]
fn graph_edits_through_the_manager() {
    let store = ProfileStore::new();
    let mut m = ConfigManager::new(store);
    m.add_profile_node("a");
    m.add_profile_node("b");
    m.add_dependency_edge("a", "b").unwrap();
    match m.add_dependency_edge("b", "a") {
        Err(DependencyError::CircularDependency(path)) => {
            assert_eq!(
                path,
                vec![
                    "b".to_string(),
                    "a".to_string(),
                    "b".to_string(),
                    "a".to_string()
                ]
            );
        },
        _ => panic!("expected a cycle rejection"),
    }
    m.remove_dependency_edge("a", "b").unwrap();
    m.add_dependency_edge("b", "a").unwrap();
    m.rename_profile_node("b", "c").unwrap();
    assert_eq!(
        m.resolve_dependencies("c").unwrap(),
        vec!["a".to_string(), "c".to_string()]
    );
    m.remove_profile_node("a").unwrap();
    assert_eq!(m.resolve_dependencies("c").unwrap(), vec!["c".to_string()]);
}

#[test]
fn nested_failures_render_a_breadcrumb() {
    // p depends on q, q's record is missing
    let mut store = ProfileStore::new();
    store.insert_record("p", StoreRecord::Record(profile(&[], &["q"])));
    store.insert_record("q", StoreRecord::Record(profile(&[], &["r"])));
    let mut m = ConfigManager::new(store);
    let err = m.load_profile("p").unwrap_err();
    assert_eq!(err.message(), "Trace: p -> q -> Profile 'r' not found.");
}
