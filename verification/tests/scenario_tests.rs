use linkgraph::graph::{Graph, GraphError, Node};

#[test]
fn test_concrete_scenario() {
    let (mut g, _rx) = Graph::new();

    assert!(g.add_edge("root", "child").is_ok());
    assert_eq!(g.node_count(), 2);

    let children = g.get_root().get_children(&g);
    assert_eq!(children.len(), 1);
    assert_eq!(children[0].get_data(), "child");

    assert!(matches!(
        g.add_edge("root", "child"),
        Err(GraphError::DuplicateEdge)
    ));
    assert_eq!(g.node_count(), 2);
}

#[test]
fn test_self_loop_succeeds_exactly_once() {
    let (mut g, _rx) = Graph::new();

    assert!(g.add_edge("root", "root").is_ok());
    for _ in 0..10 {
        assert!(matches!(
            g.add_edge("root", "root"),
            Err(GraphError::DuplicateEdge)
        ));
    }

    let children = g.get_root().get_children(&g);
    assert_eq!(children.len(), 1);
    assert_eq!(children[0].get_data(), "root");
}

#[test]
fn test_cycle_construction_succeeds() {
    let (mut g, _rx) = Graph::new();

    assert!(g.add_edge("root", "A").is_ok());
    assert!(g.add_edge("A", "B").is_ok());
    assert!(g.add_edge("B", "A").is_ok());

    let a = g.get_node("A").unwrap();
    let b = g.get_node("B").unwrap();

    let a_children = a.get_children(&g);
    assert_eq!(a_children.len(), 1);
    assert_eq!(a_children[0].get_data(), "B");

    let b_children = b.get_children(&g);
    assert_eq!(b_children.len(), 1);
    assert_eq!(b_children[0].get_data(), "A");

    assert_eq!(g.node_count(), 3);
}

#[test]
fn test_node_count_monotone_over_mixed_calls() {
    let (mut g, _rx) = Graph::new();

    let mut last = g.node_count();
    let calls: [(&str, &str); 6] = [
        ("root", "a"),
        ("root", "a"), // duplicate
        ("a", "b"),
        ("b", "a"),    // cycle
        ("root", "root"), // self-loop
        ("a", "b"),    // duplicate
    ];
    for (p, c) in calls.iter() {
        let _ = g.add_edge(p, c);
        let now = g.node_count();
        assert!(now >= last, "count decreased: {} -> {}", last, now);
        last = now;
    }
}

#[test]
fn test_contains_implies_get_node_later() {
    let (mut g, _rx) = Graph::new();

    g.add_edge("root", "a").unwrap();
    g.add_edge("a", "b").unwrap();

    assert!(g.contains("a"));

    // more insertions never unregister a label
    g.add_edge("b", "c").unwrap();
    let _ = g.add_edge("root", "a");

    assert!(g.get_node("a").is_some());
    assert_eq!(g.get_node("a").unwrap().get_data(), "a");
}

#[test]
fn test_remove_node_seam() {
    let (mut g, _rx) = Graph::new();

    g.add_edge("root", "a").unwrap();
    assert!(g.remove_node("a"));
    assert!(!g.contains("a"));
    assert!(!g.remove_node("a")); // already gone
    assert!(!g.remove_node("root")); // the root entry is never removed
    assert!(g.contains("root"));
    assert_eq!(g.node_count(), 1);
}

#[test]
fn test_duplicate_with_dead_entry_changes_nothing() {
    let (mut g, mut rx) = Graph::new();

    g.add_edge("root", "c").unwrap();
    assert!(g.remove_node("c"));
    while rx.try_recv().is_ok() {} // drain the successful insertion's events

    // root's children list still names "c"; that stale entry is the edge,
    // so the repeated call is rejected before anything is created or sent
    let r = g.add_edge("root", "c");
    assert!(matches!(r, Err(GraphError::DuplicateEdge)));
    assert_eq!(g.node_count(), 1); // "c" was not re-registered
    assert!(!g.contains("c"));
    assert!(rx.try_recv().is_err()); // and nothing was announced
}

#[test]
fn test_error_messages() {
    assert!(GraphError::DuplicateEdge
        .message()
        .contains("Edge already exists"));
    assert!(GraphError::EventDeliveryFailed
        .message()
        .contains("Event dropped"));
}

#[test]
fn test_detached_node_handle() {
    let (g, _rx) = Graph::new();

    let n = Node::new("loose");
    assert_eq!(n.get_data(), "loose");
    // a handle whose label the registry does not hold resolves to nothing
    assert_eq!(n.get_children(&g).len(), 0);
}

#[test]
fn test_handle_observes_later_mutations() {
    let (mut g, _rx) = Graph::new();

    let root = g.get_root();
    assert_eq!(root.get_children(&g).len(), 0);

    g.add_edge("root", "late").unwrap();

    // the handle resolves through the registry on every read
    let children = root.get_children(&g);
    assert_eq!(children.len(), 1);
    assert_eq!(children[0].get_data(), "late");
}
