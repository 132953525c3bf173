use vstd::prelude::*;

use crate::graph::{DepType, EdgeIndex, Graph, NodeIndex};
use crate::names::{
    insert_by_key, insert_by_name, insert_sorted, lemma_insert_by_key_sorted,
    lemma_insert_by_key_multiset, lemma_insert_by_name_multiset, lemma_insert_by_name_sorted,
    name_less, sorted_by_key, sorted_by_name,
};
use crate::package::{PackageResolution, Version};

verus! {

/// Format version of the lockfile document.
pub const LOCKFILE_VERSION: u64 = 1;

/// One package record of a lockfile.
#[derive(Debug, PartialEq, Eq)]
pub struct LockfileNode {
    pub name: String,
    pub is_root: bool,
    pub path: Vec<String>,
    pub resolved: Option<String>,
    pub version: Option<Version>,
    pub dependencies: Vec<(String, String)>,
    pub dev_dependencies: Vec<(String, String)>,
    pub peer_dependencies: Vec<(String, String)>,
    pub optional_dependencies: Vec<(String, String)>,
    pub integrity: Option<String>,
}

/// A lockfile: the root record and the other records keyed by install path.
#[derive(Debug, PartialEq, Eq)]
pub struct Lockfile {
    pub version: u64,
    pub root: LockfileNode,
    pub packages: Vec<(String, LockfileNode)>,
}

/// The content of a [`LockfileNode`].
pub struct LockRecord {
    pub name: String,
    pub is_root: bool,
    pub path: Seq<String>,
    pub resolved: Option<String>,
    pub version: Option<Version>,
    pub dependencies: Seq<(String, String)>,
    pub dev_dependencies: Seq<(String, String)>,
    pub peer_dependencies: Seq<(String, String)>,
    pub optional_dependencies: Seq<(String, String)>,
    pub integrity: Option<String>,
}

/// The content of a [`Lockfile`].
pub struct LockDocument {
    pub version: u64,
    pub root: LockRecord,
    pub packages: Seq<(Seq<char>, LockRecord)>,
}

impl View for LockfileNode {
    type V = LockRecord;

    open spec fn view(&self) -> LockRecord {
        LockRecord {
            name: self.name,
            is_root: self.is_root,
            path: self.path@,
            resolved: self.resolved,
            version: self.version,
            dependencies: self.dependencies@,
            dev_dependencies: self.dev_dependencies@,
            peer_dependencies: self.peer_dependencies@,
            optional_dependencies: self.optional_dependencies@,
            integrity: self.integrity,
        }
    }
}

impl View for Lockfile {
    type V = LockDocument;

    open spec fn view(&self) -> LockDocument {
        LockDocument {
            version: self.version,
            root: self.root@,
            packages: self.packages@.map_values(|e: (String, LockfileNode)| (e.0@, e.1@)),
        }
    }
}

/// Separator between hierarchy levels in an install path.
pub open spec fn level_separator() -> Seq<char> {
    "/node_modules/"@
}

/// The install path spelled out: the names joined by the level separator.
pub open spec fn join_path(names: Seq<String>) -> Seq<char>
    decreases names.len(),
{
    if names.len() == 0 {
        Seq::empty()
    } else if names.len() == 1 {
        names[0]@
    } else {
        join_path(names.drop_last()) + level_separator() + names.last()@
    }
}

/// Archive location, directory or revision: where a package is fetched from.
pub open spec fn locator_of(r: PackageResolution) -> String {
    match r {
        PackageResolution::Npm { tarball, .. } => tarball,
        PackageResolution::Dir { path } => path,
        PackageResolution::Git { info } => info,
    }
}

pub open spec fn version_of(r: PackageResolution) -> Option<Version> {
    match r {
        PackageResolution::Npm { version, .. } => Some(version),
        _ => None,
    }
}

pub open spec fn integrity_of(r: PackageResolution) -> Option<String> {
    match r {
        PackageResolution::Npm { integrity, .. } => integrity,
        _ => None,
    }
}

/// The declared dependencies of kind `t` in name order, each with the
/// specifier text that was requested.
pub open spec fn deps_of_type(g: Graph, deps: Seq<(String, EdgeIndex)>, t: DepType) -> Seq<
    (String, String),
>
    decreases deps.len(),
{
    if deps.len() == 0 {
        Seq::empty()
    } else {
        let rest = deps_of_type(g, deps.drop_last(), t);
        let e = g.edges@[deps.last().1.index as int];
        if e.dep_type == t {
            insert_by_name(rest, (deps.last().0, e.requested.requested))
        } else {
            rest
        }
    }
}

/// The record that node `n` of `g` is exported as.
pub open spec fn record_of(g: Graph, n: nat, is_root: bool) -> LockRecord {
    let node = g.nodes@[n as int];
    let deps = node.dependencies@;
    LockRecord {
        name: node.package.name,
        is_root,
        path: g.path_of(n),
        resolved: Some(locator_of(node.package.resolved)),
        version: version_of(node.package.resolved),
        dependencies: deps_of_type(g, deps, DepType::Prod),
        dev_dependencies: deps_of_type(g, deps, DepType::Dev),
        peer_dependencies: deps_of_type(g, deps, DepType::Peer),
        optional_dependencies: deps_of_type(g, deps, DepType::Opt),
        integrity: integrity_of(node.package.resolved),
    }
}

/// The path-keyed records of the nodes `1..k` of `g`, in path order.
pub open spec fn package_records(g: Graph, k: nat) -> Seq<(Seq<char>, LockRecord)>
    decreases k,
{
    if k <= 1 {
        Seq::empty()
    } else {
        insert_by_key(
            package_records(g, (k - 1) as nat),
            (join_path(g.path_of((k - 1) as nat)), record_of(g, (k - 1) as nat, false)),
        )
    }
}


/// Joins install-path names with the level separator.
pub fn join_install_path(names: &Vec<String>) -> (r: String)
    ensures
        r@ == join_path(names@),
{
    let mut s = String::new();
    let mut k: usize = 0;
    while k < names.len()
        invariant
            k <= names@.len(),
            s@ == join_path(names@.subrange(0, k as int)),
        decreases names@.len() - k,
    {
        if k > 0 {
            s.append("/node_modules/");
        }
        s.append(names[k].as_str());
        k = k + 1;
        assert(names@.subrange(0, k as int).drop_last() =~= names@.subrange(0, k - 1));
    }
    assert(names@.subrange(0, names@.len() as int) =~= names@);
    s
}

fn clone_opt_string(o: &Option<String>) -> (r: Option<String>)
    ensures
        r == *o,
{
    match o {
        Some(s) => Some(s.clone()),
        None => None,
    }
}

impl Graph {
    /// The lockfile record of `node`: its install path, where it is fetched
    /// from, its version and integrity (registry packages only), and the
    /// specifiers it requested, split by dependency kind.
    pub fn node_lockfile_node(&self, node: NodeIndex, is_root: bool) -> (r: LockfileNode)
        requires
            self.wf(),
            node.index < self.len(),
        ensures
            r@ == record_of(*self, node.index as nat, is_root),
    {
        let path = self.node_path(node);
        let n = &self.nodes[node.index];
        assert(self.node_wf(node.index as int));
        let (resolved, version, integrity) = match &n.package.resolved {
            PackageResolution::Npm { version, tarball, integrity } => (
                tarball.clone(),
                Some(*version),
                clone_opt_string(integrity),
            ),
            PackageResolution::Dir { path } => (path.clone(), None, None),
            PackageResolution::Git { info } => (info.clone(), None, None),
        };
        let mut prod: Vec<(String, String)> = Vec::new();
        let mut dev: Vec<(String, String)> = Vec::new();
        let mut peer: Vec<(String, String)> = Vec::new();
        let mut opt: Vec<(String, String)> = Vec::new();
        let deps = &n.dependencies;
        let mut k: usize = 0;
        while k < deps.len()
            invariant
                self.wf(),
                self.node_wf(node.index as int),
                *deps == self.nodes@[node.index as int].dependencies,
                k <= deps@.len(),
                prod@ == deps_of_type(*self, deps@.subrange(0, k as int), DepType::Prod),
                dev@ == deps_of_type(*self, deps@.subrange(0, k as int), DepType::Dev),
                peer@ == deps_of_type(*self, deps@.subrange(0, k as int), DepType::Peer),
                opt@ == deps_of_type(*self, deps@.subrange(0, k as int), DepType::Opt),
            decreases deps@.len() - k,
        {
            let name = deps[k].0.clone();
            let e = deps[k].1;
            let edge = &self.edges[e.index];
            let requested = edge.requested.requested.clone();
            match edge.dep_type {
                DepType::Prod => insert_sorted(&mut prod, (name, requested)),
                DepType::Dev => insert_sorted(&mut dev, (name, requested)),
                DepType::Peer => insert_sorted(&mut peer, (name, requested)),
                DepType::Opt => insert_sorted(&mut opt, (name, requested)),
            }
            k = k + 1;
            assert(deps@.subrange(0, k as int).drop_last() =~= deps@.subrange(0, k - 1));
        }
        assert(deps@.subrange(0, deps@.len() as int) =~= deps@);
        LockfileNode {
            name: n.package.name.clone(),
            is_root,
            path,
            resolved: Some(resolved),
            version,
            dependencies: prod,
            dev_dependencies: dev,
            peer_dependencies: peer,
            optional_dependencies: opt,
            integrity,
        }
    }

    /// The lockfile of the whole graph: the root record, and one record per
    /// other node keyed by its joined install path, in path order.
    pub fn to_lockfile(&self) -> (r: Lockfile)
        requires
            self.wf(),
        ensures
            r@ == self.lockfile_spec(),
    {
        let root = self.node_lockfile_node(self.root, true);
        let mut packages: Vec<(String, LockfileNode)> = Vec::new();
        let mut i: usize = 1;
        assert(packages@.map_values(|e: (String, LockfileNode)| (e.0@, e.1@)) =~= package_records(
            *self,
            1,
        ));
        while i < self.nodes.len()
            invariant
                self.wf(),
                1 <= i <= self.len(),
                packages@.map_values(|e: (String, LockfileNode)| (e.0@, e.1@)) == package_records(
                    *self,
                    i as nat,
                ),
            decreases self.len() - i,
        {
            let rec = self.node_lockfile_node(NodeIndex { index: i }, false);
            let key = join_install_path(&rec.path);
            let ghost old_packages = packages@;
            proof {
                lemma_insert_view(old_packages, (key, rec));
            }
            insert_sorted(&mut packages, (key, rec));
            i = i + 1;
        }
        Lockfile { version: LOCKFILE_VERSION, root, packages }
    }

    /// The document that [`Graph::to_lockfile`] exports.
    pub open spec fn lockfile_spec(&self) -> LockDocument {
        LockDocument {
            version: LOCKFILE_VERSION,
            root: record_of(*self, self.root.index as nat, true),
            packages: package_records(*self, self.len()),
        }
    }
}


/// Exporting an unchanged graph twice yields the same document.
pub proof fn lemma_export_deterministic(g: &Graph, r1: Lockfile, r2: Lockfile)
    requires
        g.wf(),
        r1@ == g.lockfile_spec(),
        r2@ == g.lockfile_spec(),
    ensures
        r1@ == r2@,
{
}


pub proof fn lemma_insert_view(s: Seq<(String, LockfileNode)>, x: (String, LockfileNode))
    ensures
        insert_by_name(s, x).map_values(|e: (String, LockfileNode)| (e.0@, e.1@)) == insert_by_key(
            s.map_values(|e: (String, LockfileNode)| (e.0@, e.1@)),
            (x.0@, x.1@),
        ),
    decreases s.len(),
{
    let f = |e: (String, LockfileNode)| (e.0@, e.1@);
    let ms = s.map_values(f);
    if s.len() == 0 {
        assert(seq![x].map_values(f) =~= seq![(x.0@, x.1@)]);
    } else {
        assert(ms.last() == (s.last().0@, s.last().1@));
        assert(s.drop_last().map_values(f) =~= ms.drop_last());
        if name_less(x.0@, s.last().0@) {
            lemma_insert_view(s.drop_last(), x);
            assert(insert_by_name(s.drop_last(), x).push(s.last()).map_values(f) =~= insert_by_name(
                s.drop_last(),
                x,
            ).map_values(f).push(f(s.last())));
        } else {
            assert(s.push(x).map_values(f) =~= ms.push((x.0@, x.1@)));
        }
    }
}


pub proof fn lemma_deps_sorted(g: Graph, deps: Seq<(String, EdgeIndex)>, t: DepType)
    ensures
        sorted_by_name(deps_of_type(g, deps, t)),
    decreases deps.len(),
{
    if deps.len() > 0 {
        lemma_deps_sorted(g, deps.drop_last(), t);
        let e = g.edges@[deps.last().1.index as int];
        if e.dep_type == t {
            lemma_insert_by_name_sorted(
                deps_of_type(g, deps.drop_last(), t),
                (deps.last().0, e.requested.requested),
            );
        }
    }
}

pub proof fn lemma_packages_sorted(g: Graph, k: nat)
    ensures
        sorted_by_key(package_records(g, k)),
    decreases k,
{
    if k > 1 {
        lemma_packages_sorted(g, (k - 1) as nat);
        lemma_insert_by_key_sorted(
            package_records(g, (k - 1) as nat),
            (join_path(g.path_of((k - 1) as nat)), record_of(g, (k - 1) as nat, false)),
        );
    }
}

/// An exported document lists its records in install-path order, and every
/// record lists each kind of dependency in name order.
pub proof fn lemma_export_ordered(g: &Graph, n: nat, is_root: bool)
    ensures
        sorted_by_key(g.lockfile_spec().packages),
        sorted_by_name(record_of(*g, n, is_root).dependencies),
        sorted_by_name(record_of(*g, n, is_root).dev_dependencies),
        sorted_by_name(record_of(*g, n, is_root).peer_dependencies),
        sorted_by_name(record_of(*g, n, is_root).optional_dependencies),
{
    lemma_packages_sorted(*g, g.len());
    let deps = g.nodes@[n as int].dependencies@;
    lemma_deps_sorted(*g, deps, DepType::Prod);
    lemma_deps_sorted(*g, deps, DepType::Dev);
    lemma_deps_sorted(*g, deps, DepType::Peer);
    lemma_deps_sorted(*g, deps, DepType::Opt);
}


/// The path-keyed records of the nodes `1..k` of `g`, one per node, in node order.
pub open spec fn node_records(g: Graph, k: nat) -> Seq<(Seq<char>, LockRecord)>
    decreases k,
{
    if k <= 1 {
        Seq::empty()
    } else {
        node_records(g, (k - 1) as nat).push(
            (join_path(g.path_of((k - 1) as nat)), record_of(g, (k - 1) as nat, false)),
        )
    }
}

/// The declared dependencies of kind `t`, one per declaration, in declaration order.
pub open spec fn deps_declared(g: Graph, deps: Seq<(String, EdgeIndex)>, t: DepType) -> Seq<
    (String, String),
>
    decreases deps.len(),
{
    if deps.len() == 0 {
        Seq::empty()
    } else {
        let rest = deps_declared(g, deps.drop_last(), t);
        let e = g.edges@[deps.last().1.index as int];
        if e.dep_type == t {
            rest.push((deps.last().0, e.requested.requested))
        } else {
            rest
        }
    }
}

/// The exported records are those of the nodes below the root, each exactly once.
pub proof fn lemma_packages_once(g: Graph, k: nat)
    ensures
        package_records(g, k).to_multiset() =~= node_records(g, k).to_multiset(),
        node_records(g, k).len() == if k <= 1 {
            0
        } else {
            k - 1
        },
    decreases k,
{
    if k > 1 {
        let km = (k - 1) as nat;
        let x = (join_path(g.path_of(km)), record_of(g, km, false));
        lemma_packages_once(g, km);
        lemma_insert_by_key_multiset(package_records(g, km), x);
        vstd::seq_lib::to_multiset_build(node_records(g, km), x);
    }
}

/// Each dependency map holds the declarations of its kind, each exactly once.
pub proof fn lemma_deps_once(g: Graph, deps: Seq<(String, EdgeIndex)>, t: DepType)
    ensures
        deps_of_type(g, deps, t).to_multiset() =~= deps_declared(g, deps, t).to_multiset(),
    decreases deps.len(),
{
    if deps.len() > 0 {
        lemma_deps_once(g, deps.drop_last(), t);
        let e = g.edges@[deps.last().1.index as int];
        if e.dep_type == t {
            let x = (deps.last().0, e.requested.requested);
            lemma_insert_by_name_multiset(deps_of_type(g, deps.drop_last(), t), x);
            vstd::seq_lib::to_multiset_build(deps_declared(g, deps.drop_last(), t), x);
        }
    }
}

} // verus!
