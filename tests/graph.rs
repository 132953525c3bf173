use node_maintainer::graph::{
    DemotionError, DemotionTarget, DepType, Edge, EdgeIndex, Graph, GraphValidationError, NodeIndex,
};
use node_maintainer::package::{Package, PackageResolution, PackageSpec, SpecKind, Version};

fn npm(name: &str, major: u64, minor: u64, patch: u64) -> Package {
    Package::new(
        name.to_string(),
        PackageResolution::Npm {
            version: Version::new(major, minor, patch),
            tarball: format!("https://registry.example/{name}/-/{name}-{major}.{minor}.{patch}.tgz"),
            integrity: Some(format!("sha512-{name}{major}")),
        },
    )
}

fn caret(text: &str, major: u64, minor: u64) -> PackageSpec {
    PackageSpec::new(
        text.to_string(),
        SpecKind::Range {
            min: Version::new(major, minor, 0),
            max: Version::new(major + 1, 0, 0),
        },
    )
}

fn root_graph() -> Graph {
    Graph::new(Package::new(
        "my-app".to_string(),
        PackageResolution::Dir { path: ".".to_string() },
    ))
}

fn root() -> NodeIndex {
    NodeIndex { index: 0 }
}

fn dep(g: &mut Graph, from: NodeIndex, name: &str, spec: PackageSpec, t: DepType) {
    g.add_dependency(from, name.to_string(), Edge::new(spec, t)).unwrap();
}

#[test]
fn conflicting_range_gets_nested_copy() {
    let mut g = root_graph();
    dep(&mut g, root(), "A", caret("^1.0", 1, 0), DepType::Prod);
    let a1 = g.add_child(root(), npm("A", 1, 2, 0)).unwrap();
    assert!(g.validate().is_ok());

    dep(&mut g, root(), "B", caret("^1.0", 1, 0), DepType::Dev);
    let b = g.add_child(root(), npm("B", 1, 0, 0)).unwrap();
    dep(&mut g, b, "A", caret("^2.0", 2, 0), DepType::Prod);
    // root's A 1.2.0 cannot serve ^2.0
    assert!(matches!(
        g.validate(),
        Err(GraphValidationError::Unsatisfied { .. })
    ));
    let a2 = g.add_child(b, npm("A", 2, 0, 0)).unwrap();
    assert!(g.validate().is_ok());
    assert_eq!(g.resolve_dep(b, "A"), Some(a2));
    assert_eq!(g.resolve_dep(root(), "A"), Some(a1));
    assert_ne!(a1, a2);
}

#[test]
fn shared_copy_at_common_ancestor() {
    let mut g = root_graph();
    let c = g.add_child(root(), npm("C", 1, 0, 0)).unwrap();
    let d = g.add_child(root(), npm("D", 1, 0, 0)).unwrap();
    dep(&mut g, root(), "C", caret("^1.0", 1, 0), DepType::Prod);
    dep(&mut g, root(), "D", caret("^1.0", 1, 0), DepType::Prod);
    dep(&mut g, c, "E", caret("^1.0", 1, 0), DepType::Prod);
    dep(&mut g, d, "E", caret("^1.0", 1, 0), DepType::Prod);
    let e = g.add_child(root(), npm("E", 1, 4, 0)).unwrap();
    assert!(g.validate().is_ok());
    assert_eq!(g.resolve_dep(c, "E"), Some(e));
    assert_eq!(g.resolve_dep(d, "E"), Some(e));
    assert!(g.nodes[c.index].children.is_empty());
    assert!(g.nodes[d.index].children.is_empty());
}

#[test]
fn validate_reports_unreachable_dependency() {
    let mut g = root_graph();
    dep(&mut g, root(), "missing", caret("^3.1", 3, 1), DepType::Peer);
    match g.validate() {
        Err(GraphValidationError::Unreachable { dependent, name, requested }) => {
            assert_eq!(dependent, root());
            assert_eq!(name, "missing");
            assert_eq!(requested, "^3.1");
        }
        other => panic!("unexpected {other:?}"),
    }
}

#[test]
fn validate_reports_unsatisfied_dependency() {
    let mut g = root_graph();
    dep(&mut g, root(), "x", caret("^2.0", 2, 0), DepType::Prod);
    let x = g.add_child(root(), npm("x", 1, 9, 9)).unwrap();
    match g.validate() {
        Err(GraphValidationError::Unsatisfied { dependent, name, requested, resolved }) => {
            assert_eq!(dependent, root());
            assert_eq!(name, "x");
            assert_eq!(requested, "^2.0");
            assert_eq!(resolved, x);
        }
        other => panic!("unexpected {other:?}"),
    }
}

#[test]
fn validate_accepts_empty_graph() {
    assert!(root_graph().validate().is_ok());
}

#[test]
fn range_bounds_are_half_open() {
    let spec = caret("^1.2", 1, 2);
    assert!(npm("p", 1, 2, 0).satisfies(&spec));
    assert!(npm("p", 1, 99, 3).satisfies(&spec));
    assert!(!npm("p", 1, 1, 9).satisfies(&spec));
    assert!(!npm("p", 2, 0, 0).satisfies(&spec));
    let dir = Package::new("p".to_string(), PackageResolution::Dir { path: "../p".to_string() });
    assert!(!dir.satisfies(&spec));
    let dir_spec = PackageSpec::new("file:../p".to_string(), SpecKind::Dir { path: "../p".to_string() });
    assert!(dir.satisfies(&dir_spec));
}

#[test]
fn resolution_ignores_case() {
    for placed in ["foo", "FOO", "Foo"] {
        let mut g = root_graph();
        let f = g.add_child(root(), npm(placed, 1, 0, 0)).unwrap();
        dep(&mut g, root(), "Foo", caret("^1.0", 1, 0), DepType::Prod);
        assert_eq!(g.resolve_dep(root(), "Foo"), Some(f));
        assert_eq!(g.resolve_dep(root(), "foo"), Some(f));
        assert_eq!(g.find_by_name(f, "fOO"), Some(f));
        assert!(g.validate().is_ok());
    }
}

#[test]
fn names_differing_only_in_case_collide() {
    let mut g = root_graph();
    assert!(g.add_child(root(), npm("Left", 1, 0, 0)).is_some());
    assert!(g.add_child(root(), npm("left", 2, 0, 0)).is_none());
    assert!(g.add_child(root(), npm("right", 2, 0, 0)).is_some());
    assert_eq!(g.nodes.len(), 3);
    dep(&mut g, root(), "Left", caret("^1.0", 1, 0), DepType::Prod);
    assert!(g
        .add_dependency(root(), "LEFT".to_string(), Edge::new(caret("^1.0", 1, 0), DepType::Dev))
        .is_none());
}

#[test]
fn resolve_walks_up_and_stops_at_root() {
    let mut g = root_graph();
    let a = g.add_child(root(), npm("a", 1, 0, 0)).unwrap();
    let b = g.add_child(a, npm("b", 1, 0, 0)).unwrap();
    let c = g.add_child(b, npm("c", 1, 0, 0)).unwrap();
    assert_eq!(g.resolve_dep(c, "a"), Some(a));
    assert_eq!(g.resolve_dep(c, "b"), Some(b));
    assert_eq!(g.resolve_dep(b, "c"), Some(c));
    assert_eq!(g.resolve_dep(a, "c"), None);
    assert_eq!(g.resolve_dep(c, "zzz"), None);
}

#[test]
fn ancestor_walk() {
    let mut g = root_graph();
    let a = g.add_child(root(), npm("a", 1, 0, 0)).unwrap();
    let b = g.add_child(a, npm("b", 1, 0, 0)).unwrap();
    let c = g.add_child(root(), npm("c", 1, 0, 0)).unwrap();
    for x in [a, b, c] {
        assert!(g.is_ancestor(root(), x));
        assert!(!g.is_ancestor(x, x));
    }
    assert!(!g.is_ancestor(root(), root()));
    assert!(g.is_ancestor(a, b));
    assert!(!g.is_ancestor(b, a));
    assert!(!g.is_ancestor(c, b));
}

#[test]
fn depth_counts_ancestors_below_root() {
    let mut g = root_graph();
    let a = g.add_child(root(), npm("a", 1, 0, 0)).unwrap();
    let b = g.add_child(a, npm("b", 1, 0, 0)).unwrap();
    let c = g.add_child(b, npm("c", 1, 0, 0)).unwrap();
    assert_eq!(g.nodes[0].depth(&g), 0);
    assert_eq!(g.nodes[a.index].depth(&g), 0);
    assert_eq!(g.nodes[b.index].depth(&g), 1);
    assert_eq!(g.nodes[c.index].depth(&g), 2);
}

fn edge_of(g: &Graph, n: NodeIndex, name: &str) -> EdgeIndex {
    g.nodes[n.index].dependencies.iter().find(|(k, _)| k == name).unwrap().1
}

#[test]
fn hoisting_moves_shared_copy_to_common_ancestor() {
    let mut g = root_graph();
    let c = g.add_child(root(), npm("C", 1, 0, 0)).unwrap();
    let d = g.add_child(root(), npm("D", 1, 0, 0)).unwrap();
    dep(&mut g, c, "E", caret("^1.0", 1, 0), DepType::Prod);
    dep(&mut g, d, "E", caret("^1.0", 1, 0), DepType::Prod);
    let e = g.add_child(c, npm("E", 1, 3, 0)).unwrap();
    assert!(g.validate().is_err());
    let for_c = DemotionTarget { target_idx: root(), dependent_idx: c, edge_idx: edge_of(&g, c, "E") };
    assert_eq!(g.apply_demotion(&for_c), Ok(e));
    let for_d = DemotionTarget { target_idx: root(), dependent_idx: d, edge_idx: edge_of(&g, d, "E") };
    assert_eq!(g.apply_demotion(&for_d), Ok(e));
    assert!(g.validate().is_ok());
    assert_eq!(g.resolve_dep(c, "E"), Some(e));
    assert_eq!(g.resolve_dep(d, "E"), Some(e));
    assert!(g.nodes[c.index].children.is_empty());
    assert!(g.nodes[d.index].children.is_empty());
    assert_eq!(g.nodes[e.index].parent, Some(root()));
    assert_eq!(g.node_path(e), vec!["E"]);
}

#[test]
fn demotion_errors() {
    let mut g = root_graph();
    let c = g.add_child(root(), npm("C", 1, 0, 0)).unwrap();
    dep(&mut g, c, "E", caret("^2.0", 2, 0), DepType::Prod);
    let ec = edge_of(&g, c, "E");
    let unknown = DemotionTarget { target_idx: root(), dependent_idx: c, edge_idx: EdgeIndex { index: 7 } };
    assert_eq!(g.apply_demotion(&unknown), Err(DemotionError::UnknownEdge));
    let t = DemotionTarget { target_idx: root(), dependent_idx: c, edge_idx: ec };
    assert_eq!(g.apply_demotion(&t), Err(DemotionError::NoCopy));
    let old = g.add_child(root(), npm("e", 1, 0, 0)).unwrap();
    assert_eq!(g.apply_demotion(&t), Err(DemotionError::Occupied { existing: old }));
    let mut h = root_graph();
    let c = h.add_child(root(), npm("C", 1, 0, 0)).unwrap();
    dep(&mut h, c, "E", caret("^2.0", 2, 0), DepType::Prod);
    let e = h.add_child(c, npm("E", 2, 1, 0)).unwrap();
    // the copy is already directly under the target: nothing to move
    let t = DemotionTarget { target_idx: c, dependent_idx: c, edge_idx: edge_of(&h, c, "E") };
    assert_eq!(h.apply_demotion(&t), Ok(e));
    // a copy that does not meet the requirement is not moved
    let mut k = root_graph();
    let c = k.add_child(root(), npm("C", 1, 0, 0)).unwrap();
    dep(&mut k, c, "E", caret("^2.0", 2, 0), DepType::Prod);
    k.add_child(c, npm("E", 1, 0, 0)).unwrap();
    let t = DemotionTarget { target_idx: root(), dependent_idx: c, edge_idx: edge_of(&k, c, "E") };
    assert_eq!(k.apply_demotion(&t), Err(DemotionError::NoCopy));
}

#[test]
fn parent_chain_runs_from_node_to_root() {
    let mut g = root_graph();
    let a = g.add_child(root(), npm("a", 1, 0, 0)).unwrap();
    let b = g.add_child(a, npm("b", 1, 0, 0)).unwrap();
    assert_eq!(g.node_parent_chain(b), vec![b, a, root()]);
    assert_eq!(g.node_parent_chain(root()), vec![root()]);
}

#[test]
fn new_node_is_detached() {
    let n = node_maintainer::graph::Node::new(npm("solo", 3, 1, 4));
    assert_eq!(n.package.name, "solo");
    assert!(n.parent.is_none());
    assert!(n.children.is_empty());
    assert!(n.dependencies.is_empty());
}

#[test]
fn validate_reports_missing_node() {
    let mut g = root_graph();
    g.add_child(root(), npm("a", 1, 0, 0)).unwrap();
    g.nodes[0].children.push(("ghost".to_string(), NodeIndex { index: 9 }));
    assert_eq!(g.first_malformed(), Some(root()));
    match g.validate() {
        Err(GraphValidationError::MissingNode { parent, missing }) => {
            assert_eq!(parent, root());
            assert_eq!(missing, NodeIndex { index: 9 });
        }
        other => panic!("unexpected {other:?}"),
    }
}

#[test]
fn validate_reports_malformed_links() {
    let mut g = root_graph();
    let a = g.add_child(root(), npm("a", 1, 0, 0)).unwrap();
    let b = g.add_child(a, npm("b", 1, 0, 0)).unwrap();
    assert_eq!(g.first_malformed(), None);
    // b is listed under the root too, but its parent is a
    g.nodes[0].children.push(("b".to_string(), b));
    match g.validate() {
        Err(GraphValidationError::Malformed { node }) => assert_eq!(node, root()),
        other => panic!("unexpected {other:?}"),
    }
}
