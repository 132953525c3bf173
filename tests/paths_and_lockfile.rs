use node_maintainer::fetch::{
    fetch_name, manifest_path, packument_name, tarball_url, PackageArg, RegistryFetcher,
};
use node_maintainer::graph::{DepType, Edge, Graph, NodeIndex};
use node_maintainer::lockfile::{join_install_path, LOCKFILE_VERSION};
use node_maintainer::package::{Package, PackageResolution, PackageSpec, SpecKind, Version};

fn npm(name: &str, major: u64) -> Package {
    Package::new(
        name.to_string(),
        PackageResolution::Npm {
            version: Version::new(major, 0, 0),
            tarball: format!("https://registry.example/{name}.tgz"),
            integrity: Some(format!("sha512-{major}")),
        },
    )
}

fn spec(text: &str) -> PackageSpec {
    PackageSpec::new(
        text.to_string(),
        SpecKind::Range { min: Version::new(1, 0, 0), max: Version::new(2, 0, 0) },
    )
}

fn root() -> NodeIndex {
    NodeIndex { index: 0 }
}

fn segments(key: &str) -> Vec<String> {
    key.split('/').map(|s| s.to_string()).collect()
}

/// root -> a -> @scope/b -> c, and root -> d (a git checkout), root -> e (a directory)
fn sample() -> (Graph, Vec<NodeIndex>) {
    let mut g = Graph::new(Package::new(
        "my-app".to_string(),
        PackageResolution::Dir { path: ".".to_string() },
    ));
    let a = g.add_child(root(), npm("a", 1)).unwrap();
    let b = g.add_child(a, npm("@scope/b", 1)).unwrap();
    let c = g.add_child(b, npm("c", 1)).unwrap();
    let d = g
        .add_child(
            root(),
            Package::new("d".to_string(), PackageResolution::Git { info: "github:o/d#abc".to_string() }),
        )
        .unwrap();
    let e = g
        .add_child(
            root(),
            Package::new("e".to_string(), PackageResolution::Dir { path: "../e".to_string() }),
        )
        .unwrap();
    g.add_dependency(a, "zeta".to_string(), Edge::new(spec("^1.0.0"), DepType::Prod)).unwrap();
    g.add_dependency(a, "@scope/b".to_string(), Edge::new(spec("^1.1.0"), DepType::Dev)).unwrap();
    g.add_dependency(a, "d".to_string(), Edge::new(spec("github:o/d"), DepType::Peer)).unwrap();
    g.add_dependency(a, "alpha".to_string(), Edge::new(spec("~1.0.0"), DepType::Prod)).unwrap();
    g.add_dependency(a, "opt".to_string(), Edge::new(spec("1.x"), DepType::Opt)).unwrap();
    (g, vec![a, b, c, d, e])
}

#[test]
fn node_path_lists_names_below_root() {
    let (g, ix) = sample();
    assert_eq!(g.node_path(ix[2]), vec!["a", "@scope/b", "c"]);
    assert_eq!(g.node_path(ix[0]), vec!["a"]);
    assert_eq!(g.node_path(root()), vec!["my-app"]);
}

#[test]
fn path_round_trip() {
    let (g, ix) = sample();
    for x in ix {
        let key = join_install_path(&g.node_path(x));
        let found = g.node_at_path(&segments(&key)).expect("node at its own path");
        assert_eq!(found.idx, x);
    }
}

#[test]
fn node_at_path_edge_cases() {
    let (g, ix) = sample();
    assert!(g.node_at_path(&vec![]).is_none());
    assert!(g.node_at_path(&segments("nope")).is_none());
    let at = |p: &str| g.node_at_path(&segments(p)).map(|n| n.idx);
    assert_eq!(at("A/NODE_MODULES/@Scope/B"), Some(ix[1]));
    assert_eq!(at("node_modules/a/node_modules/@scope/b/node_modules/c"), Some(ix[2]));
    // a dead end yields nothing
    assert_eq!(at("a/node_modules/missing"), None);
    assert_eq!(at("a/node_modules/@scope/missing"), None);
    assert_eq!(at("a/node_modules/@scope"), None);
    // a name right after a name, without a separator, stops the walk
    assert_eq!(at("a/c"), None);
    assert_eq!(
        g.package_at_path(&segments("a/node_modules/@scope/b")).map(|p| p.name.clone()),
        Some("@scope/b".to_string())
    );
}

#[test]
fn join_install_path_uses_level_separator() {
    let names = vec!["a".to_string(), "@s/b".to_string(), "c".to_string()];
    assert_eq!(join_install_path(&names), "a/node_modules/@s/b/node_modules/c");
    assert_eq!(join_install_path(&vec![]), "");
    assert_eq!(join_install_path(&vec!["x".to_string()]), "x");
}

#[test]
fn lockfile_records() {
    let (g, ix) = sample();
    let lock = g.to_lockfile();
    assert_eq!(lock.version, LOCKFILE_VERSION);
    assert!(lock.root.is_root);
    assert_eq!(lock.root.name, "my-app");
    assert_eq!(lock.root.resolved.as_deref(), Some("."));
    assert_eq!(lock.root.version, None);
    let keys: Vec<&str> = lock.packages.iter().map(|(k, _)| k.as_str()).collect();
    assert_eq!(
        keys,
        vec!["a", "a/node_modules/@scope/b", "a/node_modules/@scope/b/node_modules/c", "d", "e"]
    );
    let (_, a) = &lock.packages[0];
    assert!(!a.is_root);
    assert_eq!(a.path, vec!["a"]);
    assert_eq!(a.version, Some(Version::new(1, 0, 0)));
    assert_eq!(a.resolved.as_deref(), Some("https://registry.example/a.tgz"));
    assert_eq!(a.integrity.as_deref(), Some("sha512-1"));
    assert_eq!(
        a.dependencies,
        vec![
            ("alpha".to_string(), "~1.0.0".to_string()),
            ("zeta".to_string(), "^1.0.0".to_string())
        ]
    );
    assert_eq!(a.dev_dependencies, vec![("@scope/b".to_string(), "^1.1.0".to_string())]);
    assert_eq!(a.peer_dependencies, vec![("d".to_string(), "github:o/d".to_string())]);
    assert_eq!(a.optional_dependencies, vec![("opt".to_string(), "1.x".to_string())]);
    let (_, d) = &lock.packages[3];
    assert_eq!(d.resolved.as_deref(), Some("github:o/d#abc"));
    assert_eq!(d.version, None);
    assert_eq!(d.integrity, None);
    let (_, e) = &lock.packages[4];
    assert_eq!(e.resolved.as_deref(), Some("../e"));
    assert_eq!(g.node_lockfile_node(ix[4], false), lock.packages[4].1);
}

#[test]
fn export_is_deterministic() {
    let (g, _) = sample();
    assert_eq!(g.to_lockfile(), g.to_lockfile());
}

#[test]
fn registry_fetcher_decisions() {
    let mut f = RegistryFetcher::new(true);
    assert!(f.needs_packument());
    assert!(f.packument_accept().starts_with("application/vnd.npm.install-v1+json"));
    f.store_packument("{\"name\":\"a\"}".to_string());
    assert!(!f.needs_packument());
    f.store_packument("{}".to_string());
    assert_eq!(f.packument().map(|s| s.as_str()), Some("{\"name\":\"a\"}"));
    assert_eq!(RegistryFetcher::new(false).packument_accept(), "application/json");
    assert_eq!(manifest_path("@s/pkg", "1.2.3"), "@s/pkg/1.2.3");
    assert_eq!(tarball_url(&npm("a", 1)).map(|s| s.as_str()), Some("https://registry.example/a.tgz"));
    let dir = Package::new("e".to_string(), PackageResolution::Dir { path: "../e".to_string() });
    assert!(tarball_url(&dir).is_none());
}

#[test]
fn lockfile_orders_paths_and_names_case_insensitively() {
    let mut g = Graph::new(Package::new(
        "root".to_string(),
        PackageResolution::Dir { path: ".".to_string() },
    ));
    let z = g.add_child(root(), npm("zed", 1)).unwrap();
    g.add_child(root(), npm("Beta", 1)).unwrap();
    g.add_child(z, npm("inner", 1)).unwrap();
    g.add_child(root(), npm("alpha", 1)).unwrap();
    for name in ["Mid", "apple", "zoo", "Banana"] {
        g.add_dependency(root(), name.to_string(), Edge::new(spec("^1"), DepType::Dev)).unwrap();
    }
    let lock = g.to_lockfile();
    let keys: Vec<&str> = lock.packages.iter().map(|(k, _)| k.as_str()).collect();
    assert_eq!(keys, vec!["alpha", "Beta", "zed", "zed/node_modules/inner"]);
    let names: Vec<&str> = lock.root.dev_dependencies.iter().map(|(k, _)| k.as_str()).collect();
    assert_eq!(names, vec!["apple", "Banana", "Mid", "zoo"]);
    assert!(lock.root.dependencies.is_empty());
}

#[test]
fn registry_names_of_specifiers() {
    let plain = PackageArg::Npm { name: "lodash".to_string() };
    let alias = PackageArg::Alias {
        name: "my-lodash".to_string(),
        package: Box::new(PackageArg::Npm { name: "lodash".to_string() }),
    };
    assert_eq!(fetch_name(&plain).map(|s| s.as_str()), Some("lodash"));
    assert_eq!(fetch_name(&alias).map(|s| s.as_str()), Some("my-lodash"));
    assert_eq!(packument_name(&alias).map(|s| s.as_str()), Some("lodash"));
    assert_eq!(packument_name(&plain).map(|s| s.as_str()), Some("lodash"));
    assert!(fetch_name(&PackageArg::Other).is_none());
    let bad_alias = PackageArg::Alias { name: "x".to_string(), package: Box::new(PackageArg::Other) };
    assert!(packument_name(&bad_alias).is_none());
}
