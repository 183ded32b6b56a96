use env_manage::graph::DependencyError;
use env_manage::graph::ProfileGraph;
use env_manage::models::Profile;
use env_manage::models::ProfileSet;

fn two_node_graph() -> ProfileGraph {
    let mut g = ProfileGraph::new();
    g.add_node("base".to_string());
    g.add_node("work".to_string());
    g
}

#[test]
fn isolated_node_has_no_parents() {
    let g = two_node_graph();
    assert_eq!(g.get_parents("base"), Some(vec![]));
    assert_eq!(g.get_parents("missing"), None);
}

#[test]
fn add_node_is_idempotent() {
    let mut g = two_node_graph();
    g.add_node("base".to_string());
    assert_eq!(g.get_parents("base"), Some(vec![]));
}

#[test]
fn resolve_orders_dependencies_first() {
    let mut g = two_node_graph();
    g.add_dependency("work", "base").unwrap();
    let order = g.resolve_dependencies("work").unwrap();
    assert_eq!(order, vec!["base".to_string(), "work".to_string()]);
    assert_eq!(g.resolve_dependencies("base").unwrap(), vec!["base".to_string()]);
}

#[test]
fn resolve_unknown_profile_fails() {
    let g = two_node_graph();
    match g.resolve_dependencies("missing") {
        Err(DependencyError::ProfileNotFound(n)) => assert_eq!(n, "missing"),
        _ => panic!("expected a missing-profile error"),
    }
}

#[test]
fn self_loop_is_rejected_and_nothing_changes() {
    let mut g = two_node_graph();
    match g.add_dependency("base", "base") {
        Err(DependencyError::CircularDependency(path)) => {
            assert_eq!(
                path,
                vec!["base".to_string(), "base".to_string(), "base".to_string()]
            );
        },
        _ => panic!("expected a cycle rejection"),
    }
    // the graph is untouched: the node still resolves to itself alone
    assert_eq!(g.resolve_dependencies("base").unwrap(), vec!["base".to_string()]);
    assert_eq!(g.get_parents("base"), Some(vec![]));
}

#[test]
fn closing_edge_is_rejected_and_nothing_changes() {
    let mut g = two_node_graph();
    g.add_node("extra".to_string());
    g.add_dependency("work", "base").unwrap();
    match g.add_dependency("base", "work") {
        Err(DependencyError::CircularDependency(path)) => {
            assert_eq!(
                path,
                vec![
                    "base".to_string(),
                    "work".to_string(),
                    "base".to_string(),
                    "work".to_string()
                ]
            );
        },
        _ => panic!("expected a cycle rejection"),
    }
    // results for every profile are as before the attempt
    assert_eq!(
        g.resolve_dependencies("work").unwrap(),
        vec!["base".to_string(), "work".to_string()]
    );
    assert_eq!(g.resolve_dependencies("base").unwrap(), vec!["base".to_string()]);
    assert_eq!(g.resolve_dependencies("extra").unwrap(), vec!["extra".to_string()]);
}

#[test]
fn missing_endpoints_are_reported() {
    let mut g = two_node_graph();
    match g.add_dependency("ghost", "base") {
        Err(DependencyError::ProfileNotFound(n)) => assert_eq!(n, "ghost"),
        _ => panic!("expected a missing-parent error"),
    }
    match g.add_dependency("base", "ghost") {
        Err(DependencyError::DependencyNotFound(a, b)) => {
            assert_eq!(a, "base");
            assert_eq!(b, "ghost");
        },
        _ => panic!("expected a missing-dependency error"),
    }
}

#[test]
fn resolve_reports_a_live_cycle_in_cyclic_order() {
    let names = vec!["A".to_string(), "B".to_string(), "C".to_string()];
    let edges = vec![
        ("A".to_string(), "B".to_string()),
        ("B".to_string(), "C".to_string()),
        ("C".to_string(), "A".to_string()),
    ];
    let g = ProfileGraph::from_parts(&names, &edges).unwrap();
    match g.resolve_dependencies("A") {
        Err(DependencyError::CircularDependency(path)) => {
            assert_eq!(
                path,
                vec![
                    "A".to_string(),
                    "B".to_string(),
                    "C".to_string(),
                    "A".to_string()
                ]
            );
        },
        _ => panic!("expected a cycle report"),
    }
}

#[test]
fn from_parts_rejects_unlisted_endpoints() {
    let names = vec!["A".to_string()];
    let edges = vec![("A".to_string(), "B".to_string())];
    assert!(ProfileGraph::from_parts(&names, &edges).is_none());
}

#[test]
fn removing_an_absent_edge_is_a_no_op() {
    let mut g = two_node_graph();
    g.add_node("extra".to_string());
    g.add_dependency("work", "base").unwrap();
    g.remove_dependency("work", "extra").unwrap();
    assert_eq!(
        g.resolve_dependencies("work").unwrap(),
        vec!["base".to_string(), "work".to_string()]
    );
    assert_eq!(g.resolve_dependencies("extra").unwrap(), vec!["extra".to_string()]);
    // removing the real edge does change the result
    g.remove_dependency("work", "base").unwrap();
    assert_eq!(g.resolve_dependencies("work").unwrap(), vec!["work".to_string()]);
}

#[test]
fn remove_edge_with_missing_endpoint_fails() {
    let mut g = two_node_graph();
    assert!(matches!(
        g.remove_dependency("ghost", "base"),
        Err(DependencyError::ProfileNotFound(_))
    ));
    assert!(matches!(
        g.remove_dependency("base", "ghost"),
        Err(DependencyError::DependencyNotFound(_, _))
    ));
}

#[test]
fn rename_preserves_the_dependents() {
    let mut g = ProfileGraph::new();
    g.add_node("a".to_string());
    g.add_node("b".to_string());
    g.add_node("c".to_string());
    g.add_dependency("a", "c").unwrap();
    g.add_dependency("b", "c").unwrap();
    let before = g.get_parents("c").unwrap();
    assert_eq!(before, vec!["a".to_string(), "b".to_string()]);
    g.rename_node("c", "d".to_string()).unwrap();
    assert_eq!(g.get_parents("d").unwrap(), before);
    assert_eq!(g.get_parents("c"), None);
    assert_eq!(
        g.resolve_dependencies("a").unwrap(),
        vec!["d".to_string(), "a".to_string()]
    );
}

#[test]
fn rename_missing_node_fails() {
    let mut g = two_node_graph();
    assert!(matches!(
        g.rename_node("ghost", "other".to_string()),
        Err(DependencyError::ProfileNotFound(_))
    ));
}

#[test]
fn remove_node_drops_its_edges() {
    let mut g = ProfileGraph::new();
    g.add_node("a".to_string());
    g.add_node("b".to_string());
    g.add_node("c".to_string());
    g.add_dependency("a", "b").unwrap();
    g.add_dependency("b", "c").unwrap();
    g.remove_node("b").unwrap();
    assert_eq!(g.get_parents("c"), Some(vec![]));
    assert_eq!(g.resolve_dependencies("a").unwrap(), vec!["a".to_string()]);
    assert!(matches!(
        g.remove_node("b"),
        Err(DependencyError::ProfileNotFound(_))
    ));
}

#[test]
fn find_path_walks_a_chain() {
    let mut g = ProfileGraph::new();
    g.add_node("a".to_string());
    g.add_node("b".to_string());
    g.add_node("c".to_string());
    g.add_dependency("a", "b").unwrap();
    g.add_dependency("b", "c").unwrap();
    assert_eq!(
        g.find_path("a", "c"),
        Some(vec!["a".to_string(), "b".to_string(), "c".to_string()])
    );
    assert_eq!(g.find_path("c", "a"), None);
    assert_eq!(g.find_path("a", "a"), None);
    assert_eq!(g.find_path("a", "ghost"), None);
}

#[test]
fn find_path_never_walks_back_to_the_start() {
    let names = vec!["A".to_string(), "B".to_string()];
    let edges = vec![
        ("A".to_string(), "B".to_string()),
        ("B".to_string(), "A".to_string()),
    ];
    let g = ProfileGraph::from_parts(&names, &edges).unwrap();
    assert_eq!(g.find_path("A", "A"), None);
    assert_eq!(
        g.find_path("A", "B"),
        Some(vec!["A".to_string(), "B".to_string()])
    );
}

#[test]
fn build_orders_a_diamond() {
    let mut ps = ProfileSet::new();
    let mut a = Profile::new();
    a.add_profile("b");
    a.add_profile("c");
    let mut b = Profile::new();
    b.add_profile("d");
    let mut c = Profile::new();
    c.add_profile("d");
    ps.add_profile("a", a);
    ps.add_profile("b", b);
    ps.add_profile("c", c);
    ps.add_profile("d", Profile::new());
    let g = ProfileGraph::build(&ps).unwrap();
    assert_eq!(
        g.resolve_dependencies("a").unwrap(),
        vec![
            "d".to_string(),
            "b".to_string(),
            "c".to_string(),
            "a".to_string()
        ]
    );
}

#[test]
fn build_rejects_a_declared_cycle() {
    let mut ps = ProfileSet::new();
    let mut a = Profile::new();
    a.add_profile("b");
    let mut b = Profile::new();
    b.add_profile("a");
    ps.add_profile("a", a);
    ps.add_profile("b", b);
    match ProfileGraph::build(&ps) {
        Err(DependencyError::CircularDependency(path)) => {
            assert!(path.contains(&"a".to_string()));
            assert!(path.contains(&"b".to_string()));
            // the closing edge repeats at both ends: parent, then dependency
            assert_eq!(
                path,
                vec![
                    "b".to_string(),
                    "a".to_string(),
                    "b".to_string(),
                    "a".to_string()
                ]
            );
        },
        _ => panic!("expected a cycle rejection"),
    }
}

#[test]
fn build_reports_the_first_missing_reference() {
    let mut ps = ProfileSet::new();
    let mut a = Profile::new();
    a.add_profile("ghost");
    ps.add_profile("a", a);
    match ProfileGraph::build(&ps) {
        Err(DependencyError::DependencyNotFound(parent, dep)) => {
            assert_eq!(parent, "a");
            assert_eq!(dep, "ghost");
        },
        _ => panic!("expected a missing-dependency error"),
    }
}
