use vstd::prelude::*;

use crate::names::{case_key, names_match};
use crate::package::{satisfies_spec, Package, PackageSpec};

verus! {

/// Handle of a node in a [`Graph`]'s node arena.
#[derive(Clone, Copy, Debug, PartialEq, Eq, Hash, Structural)]
pub struct NodeIndex {
    pub index: usize,
}

/// Handle of an edge in a [`Graph`]'s edge arena.
#[derive(Clone, Copy, Debug, PartialEq, Eq, Hash, Structural)]
pub struct EdgeIndex {
    pub index: usize,
}

/// Kind of a declared dependency, in canonical output order.
#[derive(Clone, Copy, Debug, PartialEq, Eq, PartialOrd, Ord, Hash, Structural)]
pub enum DepType {
    Prod,
    Dev,
    Peer,
    Opt,
}

/// A dependent-to-dependency relationship: what was requested, and how.
#[derive(Clone, Debug)]
pub struct Edge {
    pub requested: PackageSpec,
    pub dep_type: DepType,
}

impl Edge {
    pub fn new(requested: PackageSpec, dep_type: DepType) -> (r: Edge)
        ensures
            r.requested == requested,
            r.dep_type == dep_type,
    {
        Edge { requested, dep_type }
    }
}

/// One installed package instance.
#[derive(Debug)]
pub struct Node {
    /// Index of this node inside its graph.
    pub idx: NodeIndex,
    /// Resolved package of this node.
    pub package: Package,
    /// Index of the graph's root node.
    pub root: NodeIndex,
    /// Outgoing edges, keyed by case-insensitive dependency name.
    pub dependencies: Vec<(String, EdgeIndex)>,
    /// Parent in the hierarchy; `None` only for the root.
    pub parent: Option<NodeIndex>,
    /// Children in the hierarchy, keyed by case-insensitive name.
    pub children: Vec<(String, NodeIndex)>,
}

/// No two keys of an association list fold to the same name.
pub open spec fn keys_unique<T>(m: Seq<(String, T)>) -> bool {
    forall|j: int, k: int|
        0 <= j < m.len() && 0 <= k < m.len() && j != k ==> case_key(#[trigger] m[j].0@)
            != case_key(#[trigger] m[k].0@)
}

/// The value under `name` in an association list keyed case-insensitively.
pub open spec fn key_lookup<T>(m: Seq<(String, T)>, name: Seq<char>) -> Option<T>
    decreases m.len(),
{
    if m.len() == 0 {
        None
    } else if case_key(m.last().0@) == case_key(name) {
        Some(m.last().1)
    } else {
        key_lookup(m.drop_last(), name)
    }
}

/// Looks `name` up, case-insensitively, in an association list.
pub fn lookup_key<T: Copy>(m: &Vec<(String, T)>, name: &str) -> (r: Option<T>)
    ensures
        r == key_lookup(m@, name@),
{
    let mut j: usize = m.len();
    assert(m@.subrange(0, j as int) =~= m@);
    while j > 0
        invariant
            j <= m@.len(),
            key_lookup(m@, name@) == key_lookup(m@.subrange(0, j as int), name@),
        decreases j,
    {
        assert(m@.subrange(0, j as int).drop_last() =~= m@.subrange(0, j - 1));
        if names_match(m[j - 1].0.as_str(), name) {
            return Some(m[j - 1].1);
        }
        j = j - 1;
    }
    None
}

/// A hit of `key_lookup` is an entry whose key folds to the name.
pub proof fn lemma_key_lookup_some<T>(m: Seq<(String, T)>, name: Seq<char>)
    ensures
        key_lookup(m, name) is Some ==> exists|j: int|
            0 <= j < m.len() && case_key(#[trigger] m[j].0@) == case_key(name) && m[j].1
                == key_lookup(m, name)->0,
        key_lookup(m, name) is None ==> forall|j: int|
            0 <= j < m.len() ==> case_key(#[trigger] m[j].0@) != case_key(name),
    decreases m.len(),
{
    if m.len() > 0 {
        lemma_key_lookup_some(m.drop_last(), name);
        if case_key(m.last().0@) != case_key(name) {
            if key_lookup(m, name) is Some {
                let j = choose|j: int|
                    0 <= j < m.drop_last().len() && case_key(#[trigger] m.drop_last()[j].0@)
                        == case_key(name) && m.drop_last()[j].1 == key_lookup(m, name)->0;
                assert(m[j] == m.drop_last()[j]);
            } else {
                assert forall|j: int| 0 <= j < m.len() implies case_key(#[trigger] m[j].0@)
                    != case_key(name) by {
                    if j < m.len() - 1 {
                        assert(m[j] == m.drop_last()[j]);
                    }
                }
            }
        }
    }
}

/// With unique keys, an entry whose key folds to the name is what `key_lookup` finds.
pub proof fn lemma_key_lookup_unique<T>(m: Seq<(String, T)>, name: Seq<char>, j: int)
    requires
        keys_unique(m),
        0 <= j < m.len(),
        case_key(m[j].0@) == case_key(name),
    ensures
        key_lookup(m, name) == Some(m[j].1),
{
    lemma_key_lookup_some(m, name);
    let k = choose|k: int|
        0 <= k < m.len() && case_key(#[trigger] m[k].0@) == case_key(name) && m[k].1
            == key_lookup(m, name)->0;
    assert(m[k].0@ == m[k].0@);
    if k != j {
        assert(case_key(m[j].0@) != case_key(m[k].0@));
    }
}


/// The resolved installation graph: an arena of nodes and one of edges. The
/// hierarchy (parent and children) and the dependency edges both sit on the
/// node arena. Every node is created below an existing one, so a parent always
/// has a smaller index than its child and the root is node 0.
#[derive(Debug)]
pub struct Graph {
    pub root: NodeIndex,
    pub nodes: Vec<Node>,
    pub edges: Vec<Edge>,
}

/// Why [`Graph::validate`] rejected a graph.
#[derive(Debug)]
pub enum GraphValidationError {
    /// No ancestor of `dependent` (itself included) has a child called `name`.
    Unreachable { dependent: NodeIndex, name: String, requested: String },
    /// The package that `name` resolves to from `dependent` does not meet `requested`.
    Unsatisfied { dependent: NodeIndex, name: String, requested: String, resolved: NodeIndex },
    /// A child link of `parent` points at `missing`, which is not in the node arena.
    MissingNode { parent: NodeIndex, missing: NodeIndex },
    /// The links at `node` break the arena invariant (a parent or child link
    /// that disagrees with the other side, a parent not below in index order,
    /// a repeated name, a dangling edge handle).
    Malformed { node: NodeIndex },
}

impl Graph {
    pub open spec fn len(&self) -> nat {
        self.nodes@.len()
    }

    pub open spec fn child_entry_ok(&self, i: int, e: (String, NodeIndex)) -> bool {
        &&& e.1.index < self.nodes@.len()
        &&& self.nodes@[e.1.index as int].parent == Some(NodeIndex { index: i as usize })
        &&& case_key(e.0@) == case_key(self.nodes@[e.1.index as int].package.name@)
    }

    pub open spec fn has_child_entry(&self, p: int, c: int) -> bool {
        exists|j: int|
            0 <= j < self.nodes@[p].children@.len() && (
            #[trigger] self.nodes@[p].children@[j]).1.index == c
    }

    pub open spec fn node_wf(&self, i: int) -> bool {
        let n = self.nodes@[i];
        &&& n.idx.index == i
        &&& n.root == self.root
        &&& i > 0 ==> n.parent is Some && n.parent->0.index < i && self.has_child_entry(
            n.parent->0.index as int,
            i,
        )
        &&& keys_unique(n.children@)
        &&& keys_unique(n.dependencies@)
        &&& forall|j: int| 0 <= j < n.children@.len() ==> self.child_entry_ok(i, #[trigger] n.children@[j])
        &&& forall|j: int|
            0 <= j < n.dependencies@.len() ==> (#[trigger] n.dependencies@[j]).1.index
                < self.edges@.len()
    }

    /// The arena invariant: the hierarchy is a tree rooted at node 0 whose
    /// parent links and children maps agree, and every handle is live.
    pub open spec fn wf(&self) -> bool {
        &&& self.root.index == 0
        &&& self.nodes@.len() > 0
        &&& self.nodes@[0].parent is None
        &&& forall|i: int| 0 <= i < self.nodes@.len() ==> #[trigger] self.node_wf(i)
    }

    /// What `name` resolves to from node `n`: the first ancestor of `n`
    /// (itself included) with a child of that name supplies it.
    pub open spec fn resolve(&self, n: nat, name: Seq<char>) -> Option<NodeIndex>
        decreases n,
    {
        match key_lookup(self.nodes@[n as int].children@, name) {
            Some(c) => Some(c),
            None => match self.nodes@[n as int].parent {
                Some(p) => if p.index < n {
                    self.resolve(p.index as nat, name)
                } else {
                    None
                },
                None => None,
            },
        }
    }

    /// Node `a` is a strict ancestor of node `b` in the hierarchy.
    pub open spec fn ancestor(&self, a: nat, b: nat) -> bool
        decreases b,
    {
        match self.nodes@[b as int].parent {
            Some(p) => p.index < b && (p.index == a || self.ancestor(a, p.index as nat)),
            None => false,
        }
    }

    /// Number of ancestors of node `n` other than the root.
    pub open spec fn depth_of(&self, n: nat) -> nat
        decreases n,
    {
        match self.nodes@[n as int].parent {
            Some(p) => if p.index < n && p.index != 0 {
                1 + self.depth_of(p.index as nat)
            } else {
                0
            },
            None => 0,
        }
    }

    pub proof fn lemma_resolve_valid(&self, n: nat, name: Seq<char>)
        requires
            self.wf(),
            n < self.len(),
        ensures
            self.resolve(n, name) matches Some(c) ==> c.index < self.len() && c.index > 0
                && case_key(self.nodes@[c.index as int].package.name@) == case_key(name),
        decreases n,
    {
        assert(self.node_wf(n as int));
        let kids = self.nodes@[n as int].children@;
        lemma_key_lookup_some(kids, name);
        if key_lookup(kids, name) is Some {
            let j = choose|j: int|
                0 <= j < kids.len() && case_key(#[trigger] kids[j].0@) == case_key(name)
                    && kids[j].1 == key_lookup(kids, name)->0;
            assert(self.child_entry_ok(n as int, kids[j]));
            assert(self.node_wf(kids[j].1.index as int));
        } else if n > 0 {
            self.lemma_resolve_valid(self.nodes@[n as int].parent->0.index as nat, name);
        }
    }

    pub proof fn lemma_depth_bound(&self, n: nat)
        requires
            self.wf(),
            n < self.len(),
        ensures
            self.depth_of(n) <= n,
        decreases n,
    {
        assert(self.node_wf(n as int));
        if n > 0 {
            self.lemma_depth_bound(self.nodes@[n as int].parent->0.index as nat);
        }
    }

    /// A graph holding only its root.
    pub fn new(root: Package) -> (r: Graph)
        ensures
            r.wf(),
            r.len() == 1,
            r.nodes@[0].package == root,
            r.nodes@[0].children@.len() == 0,
            r.nodes@[0].dependencies@.len() == 0,
            r.edges@.len() == 0,
    {
        let idx = NodeIndex { index: 0 };
        let node = Node {
            idx,
            package: root,
            root: idx,
            dependencies: Vec::new(),
            parent: None,
            children: Vec::new(),
        };
        let mut nodes: Vec<Node> = Vec::new();
        nodes.push(node);
        let r = Graph { root: idx, nodes, edges: Vec::new() };
        assert(r.node_wf(0));
        r
    }

    /// What a package importing `dep` from `node` receives: the first child
    /// called `dep` on the way from `node` (itself included) up to the root.
    pub fn resolve_dep(&self, node: NodeIndex, dep: &str) -> (r: Option<NodeIndex>)
        requires
            self.wf(),
            node.index < self.len(),
        ensures
            r == self.resolve(node.index as nat, dep@),
            r matches Some(c) ==> c.index < self.len(),
    {
        proof {
            self.lemma_resolve_valid(node.index as nat, dep@);
        }
        let mut cur: usize = node.index;
        loop
            invariant
                self.wf(),
                cur < self.len(),
                self.resolve(node.index as nat, dep@) == self.resolve(cur as nat, dep@),
                self.resolve(node.index as nat, dep@) matches Some(c) ==> c.index < self.len(),
            decreases cur,
        {
            assert(self.node_wf(cur as int));
            let n = &self.nodes[cur];
            if let Some(c) = lookup_key(&n.children, dep) {
                return Some(c);
            }
            match n.parent {
                Some(p) => {
                    cur = p.index;
                },
                None => {
                    return None;
                },
            }
        }
    }

    /// Whether `ancestor` is a strict ancestor of `descendant`.
    pub fn is_ancestor(&self, ancestor: NodeIndex, descendant: NodeIndex) -> (r: bool)
        requires
            self.wf(),
            descendant.index < self.len(),
        ensures
            r == self.ancestor(ancestor.index as nat, descendant.index as nat),
    {
        let mut cur: usize = descendant.index;
        loop
            invariant
                self.wf(),
                cur < self.len(),
                self.ancestor(ancestor.index as nat, descendant.index as nat) == self.ancestor(
                    ancestor.index as nat,
                    cur as nat,
                ),
            decreases cur,
        {
            assert(self.node_wf(cur as int));
            match self.nodes[cur].parent {
                Some(p) => {
                    if p.index == ancestor.index {
                        return true;
                    }
                    cur = p.index;
                },
                None => {
                    return false;
                },
            }
        }
    }

    /// The copy of `name` visible from `start`, used to decide whether an
    /// existing higher copy can be reused.
    pub fn find_by_name(&self, start: NodeIndex, name: &str) -> (r: Option<NodeIndex>)
        requires
            self.wf(),
            start.index < self.len(),
        ensures
            r == self.resolve(start.index as nat, name@),
    {
        self.resolve_dep(start, name)
    }
}

impl Node {
    /// A detached node for `package`: not yet placed, with no links.
    pub fn new(package: Package) -> (r: Node)
        ensures
            r.package == package,
            r.idx.index == 0,
            r.root.index == 0,
            r.parent is None,
            r.children@.len() == 0,
            r.dependencies@.len() == 0,
    {
        Node {
            idx: NodeIndex { index: 0 },
            package,
            root: NodeIndex { index: 0 },
            dependencies: Vec::new(),
            parent: None,
            children: Vec::new(),
        }
    }

    /// Number of this node's hierarchy ancestors, the root not counted.
    pub fn depth(&self, graph: &Graph) -> (r: usize)
        requires
            graph.wf(),
            self.idx.index < graph.len(),
        ensures
            r == graph.depth_of(self.idx.index as nat),
    {
        proof {
            graph.lemma_depth_bound(self.idx.index as nat);
        }
        let mut cur: usize = self.idx.index;
        let mut count: usize = 0;
        loop
            invariant
                graph.wf(),
                cur < graph.len(),
                count + graph.depth_of(cur as nat) == graph.depth_of(self.idx.index as nat),
                graph.depth_of(self.idx.index as nat) <= self.idx.index,
            decreases cur,
        {
            assert(graph.node_wf(cur as int));
            match graph.nodes[cur].parent {
                Some(p) => {
                    if p.index == 0 {
                        return count;
                    }
                    count = count + 1;
                    cur = p.index;
                },
                None => {
                    return count;
                },
            }
        }
    }
}

impl Graph {
    /// Names of the nodes from just below the root down to `n` (empty for the root).
    pub open spec fn names_below_root(&self, n: nat) -> Seq<String>
        decreases n,
    {
        if n == 0 {
            Seq::empty()
        } else {
            match self.nodes@[n as int].parent {
                Some(p) => if p.index < n {
                    self.names_below_root(p.index as nat).push(self.nodes@[n as int].package.name)
                } else {
                    Seq::empty()
                },
                None => Seq::empty(),
            }
        }
    }

    /// The key under which node `n` is installed: the root's own name for the
    /// root, else the names below the root down to `n`.
    pub open spec fn path_of(&self, n: nat) -> Seq<String> {
        if n == 0 {
            seq![self.nodes@[0].package.name]
        } else {
            self.names_below_root(n)
        }
    }

    /// The `j`-th declared dependency of node `i` resolves to a package that meets it.
    pub open spec fn edge_ok(&self, i: int, j: int) -> bool {
        let d = self.nodes@[i].dependencies@[j];
        match self.resolve(i as nat, d.0@) {
            Some(c) => satisfies_spec(
                self.nodes@[c.index as int].package.resolved,
                self.edges@[d.1.index as int].requested.kind,
            ),
            None => false,
        }
    }

    /// Every declared dependency of every node resolves, through the
    /// hierarchy, to a package that meets it.
    pub open spec fn resolution_invariant(&self) -> bool {
        forall|i: int, j: int|
            0 <= i < self.nodes@.len() && 0 <= j < self.nodes@[i].dependencies@.len()
                ==> #[trigger] self.edge_ok(i, j)
    }

    /// The error describes a declared dependency that breaks the resolution invariant.
    pub open spec fn violation(&self, e: GraphValidationError) -> bool {
        match e {
            GraphValidationError::Unreachable { dependent, name, requested } => {
                let deps = self.nodes@[dependent.index as int].dependencies@;
                &&& dependent.index < self.nodes@.len()
                &&& exists|j: int|
                    0 <= j < deps.len() && (#[trigger] deps[j]).0 == name && requested
                        == self.edges@[deps[j].1.index as int].requested.requested
                        && !self.edge_ok(dependent.index as int, j)
                &&& self.resolve(dependent.index as nat, name@) is None
            },
            GraphValidationError::Unsatisfied { dependent, name, requested, resolved } => {
                let deps = self.nodes@[dependent.index as int].dependencies@;
                &&& dependent.index < self.nodes@.len()
                &&& exists|j: int|
                    0 <= j < deps.len() && (#[trigger] deps[j]).0 == name && requested
                        == self.edges@[deps[j].1.index as int].requested.requested
                        && !self.edge_ok(dependent.index as int, j)
                &&& self.resolve(dependent.index as nat, name@) == Some(resolved)
            },
            _ => false,
        }
    }

    /// The names addressing `node`, from just below the root down to it; the
    /// root is addressed by its own name.
    pub fn node_path(&self, node: NodeIndex) -> (r: Vec<String>)
        requires
            self.wf(),
            node.index < self.len(),
        ensures
            r@ == self.path_of(node.index as nat),
    {
        let mut path: Vec<String> = Vec::new();
        if node.index == 0 {
            path.push(self.nodes[0].package.name.clone());
            assert(path@ =~= self.path_of(0));
            return path;
        }
        let mut cur: usize = node.index;
        assert(path@ + Seq::empty() =~= path@);
        assert(self.names_below_root(cur as nat) + path@ =~= self.names_below_root(cur as nat));
        while cur != 0
            invariant
                self.wf(),
                cur < self.len(),
                self.names_below_root(node.index as nat) == self.names_below_root(cur as nat)
                    + path@,
            decreases cur,
        {
            assert(self.node_wf(cur as int));
            let n = &self.nodes[cur];
            let name = n.package.name.clone();
            let ghost old_path = path@;
            let ghost old_cur = cur;
            path.insert(0, name);
            match n.parent {
                Some(p) => {
                    cur = p.index;
                },
                None => {
                    cur = 0;
                },
            }
            assert(self.names_below_root(old_cur as nat) == self.names_below_root(cur as nat).push(
                name,
            ));
            assert(self.names_below_root(cur as nat).push(name) + old_path
                =~= self.names_below_root(cur as nat) + path@);
        }
        assert(Seq::<String>::empty() + path@ =~= path@);
        path
    }

    /// On a graph that keeps the arena invariant: every declared dependency
    /// resolves to a package that meets what was requested.
    pub fn check_resolution(&self) -> (r: Result<(), GraphValidationError>)
        requires
            self.wf(),
        ensures
            r is Ok <==> self.resolution_invariant(),
            r matches Err(e) ==> self.violation(e),
    {
        let mut i: usize = 0;
        while i < self.nodes.len()
            invariant
                self.wf(),
                i <= self.len(),
                forall|a: int, b: int|
                    0 <= a < i && 0 <= b < self.nodes@[a].dependencies@.len() ==> #[trigger] self.edge_ok(
                        a,
                        b,
                    ),
            decreases self.len() - i,
        {
            let n = &self.nodes[i];
            assert(self.node_wf(i as int));
            let mut j: usize = 0;
            while j < n.dependencies.len()
                invariant
                    self.wf(),
                    i < self.len(),
                    n == self.nodes@[i as int],
                    self.node_wf(i as int),
                    j <= n.dependencies@.len(),
                    forall|a: int, b: int|
                        0 <= a < i && 0 <= b < self.nodes@[a].dependencies@.len() ==> #[trigger] self.edge_ok(
                            a,
                            b,
                        ),
                    forall|b: int| 0 <= b < j ==> #[trigger] self.edge_ok(i as int, b),
                decreases n.dependencies@.len() - j,
            {
                let name = &n.dependencies[j].0;
                let e = n.dependencies[j].1;
                assert(e.index < self.edges@.len());
                let edge = &self.edges[e.index];
                match self.resolve_dep(NodeIndex { index: i }, name.as_str()) {
                    Some(c) => {
                        if !self.nodes[c.index].package.satisfies(&edge.requested) {
                            assert(!self.edge_ok(i as int, j as int));
                            let err = GraphValidationError::Unsatisfied {
                                dependent: NodeIndex { index: i },
                                name: name.clone(),
                                requested: edge.requested.requested.clone(),
                                resolved: c,
                            };
                            assert(self.violation(err));
                            return Err(err);
                        }
                    },
                    None => {
                        assert(!self.edge_ok(i as int, j as int));
                        let err = GraphValidationError::Unreachable {
                            dependent: NodeIndex { index: i },
                            name: name.clone(),
                            requested: edge.requested.requested.clone(),
                        };
                        assert(self.violation(err));
                        return Err(err);
                    },
                }
                j = j + 1;
            }
            i = i + 1;
        }
        Ok(())
    }
}

impl Graph {
    /// `new` is `old` with node `p`'s children replaced, and nothing else changed.
    pub open spec fn only_children_changed(old: Graph, new: Graph, p: int) -> bool {
        &&& new.root == old.root
        &&& new.edges == old.edges
        &&& new.nodes@.len() >= old.nodes@.len()
        &&& forall|i: int| 0 <= i < old.nodes@.len() && i != p ==> new.nodes@[i] == old.nodes@[i]
        &&& new.nodes@[p].idx == old.nodes@[p].idx
        &&& new.nodes@[p].package == old.nodes@[p].package
        &&& new.nodes@[p].root == old.nodes@[p].root
        &&& new.nodes@[p].parent == old.nodes@[p].parent
        &&& new.nodes@[p].dependencies == old.nodes@[p].dependencies
    }

    /// Places `package` as a new child of `parent`, unless `parent` already
    /// has a child of that name (compared case-insensitively).
    pub fn add_child(&mut self, parent: NodeIndex, package: Package) -> (r: Option<NodeIndex>)
        requires
            old(self).wf(),
            parent.index < old(self).len(),
            old(self).len() < usize::MAX,
        ensures
            final(self).wf(),
            key_lookup(old(self).nodes@[parent.index as int].children@, package.name@) is Some
                ==> r is None && *final(self) == *old(self),
            key_lookup(old(self).nodes@[parent.index as int].children@, package.name@) is None
                ==> {
                let idx = NodeIndex { index: old(self).len() as usize };
                &&& r == Some(idx)
                &&& final(self).len() == old(self).len() + 1
                &&& Graph::only_children_changed(*old(self), *final(self), parent.index as int)
                &&& final(self).nodes@[parent.index as int].children@ == old(
                    self,
                ).nodes@[parent.index as int].children@.push((package.name, idx))
                &&& final(self).nodes@[idx.index as int].package == package
                &&& final(self).nodes@[idx.index as int].parent == Some(parent)
                &&& final(self).nodes@[idx.index as int].children@.len() == 0
                &&& final(self).nodes@[idx.index as int].dependencies@.len() == 0
            },
    {
        let ghost g0 = *self;
        if lookup_key(&self.nodes[parent.index].children, package.name.as_str()).is_some() {
            return None;
        }
        proof {
            lemma_key_lookup_some(g0.nodes@[parent.index as int].children@, package.name@);
        }
        let idx = NodeIndex { index: self.nodes.len() };
        let name = package.name.clone();
        let node = Node {
            idx,
            package,
            root: self.root,
            dependencies: Vec::new(),
            parent: Some(parent),
            children: Vec::new(),
        };
        self.nodes.push(node);
        self.nodes[parent.index].children.push((name, idx));
        proof {
            let g1 = *self;
            let p = parent.index as int;
            assert(g1.nodes@[p].children@.last() == (name, idx));
            assert forall|i: int| 0 <= i < g1.nodes@.len() implies #[trigger] g1.node_wf(i) by {
                if i < g0.nodes@.len() {
                    assert(g0.node_wf(i));
                    let n = g1.nodes@[i];
                    if i > 0 {
                        let q = n.parent->0.index as int;
                        let j = choose|j: int|
                            0 <= j < g0.nodes@[q].children@.len() && (
                            #[trigger] g0.nodes@[q].children@[j]).1.index == i;
                        assert(g1.nodes@[q].children@[j] == g0.nodes@[q].children@[j]);
                    }
                    assert forall|j: int| 0 <= j < n.children@.len() implies g1.child_entry_ok(
                        i,
                        #[trigger] n.children@[j],
                    ) by {
                        if i == p && j == n.children@.len() - 1 {
                        } else {
                            assert(n.children@[j] == g0.nodes@[i].children@[j]);
                            assert(g0.child_entry_ok(i, g0.nodes@[i].children@[j]));
                        }
                    }
                    if i == p {
                        assert forall|j: int, k: int|
                            0 <= j < n.children@.len() && 0 <= k < n.children@.len() && j
                                != k implies case_key(#[trigger] n.children@[j].0@) != case_key(
                            #[trigger] n.children@[k].0@,
                        ) by {
                            let l = n.children@.len() - 1;
                            if j < l {
                                assert(n.children@[j] == g0.nodes@[i].children@[j]);
                            }
                            if k < l {
                                assert(n.children@[k] == g0.nodes@[i].children@[k]);
                            }
                        }
                    }
                } else {
                    assert(g1.nodes@[p].children@[g1.nodes@[p].children@.len() - 1].1.index == i);
                }
            }
        }
        Some(idx)
    }

    /// Declares that `dependent` requires `name` as `edge` says, unless it
    /// already declares a dependency of that name (compared case-insensitively).
    pub fn add_dependency(&mut self, dependent: NodeIndex, name: String, edge: Edge) -> (r: Option<
        EdgeIndex,
    >)
        requires
            old(self).wf(),
            dependent.index < old(self).len(),
            old(self).edges@.len() < usize::MAX,
        ensures
            final(self).wf(),
            key_lookup(old(self).nodes@[dependent.index as int].dependencies@, name@) is Some
                ==> r is None && *final(self) == *old(self),
            key_lookup(old(self).nodes@[dependent.index as int].dependencies@, name@) is None
                ==> {
                let e = EdgeIndex { index: old(self).edges@.len() as usize };
                &&& r == Some(e)
                &&& final(self).edges@ == old(self).edges@.push(edge)
                &&& final(self).root == old(self).root
                &&& final(self).len() == old(self).len()
                &&& forall|i: int|
                    0 <= i < old(self).len() && i != dependent.index ==> final(self).nodes@[i]
                        == old(self).nodes@[i]
                &&& final(self).nodes@[dependent.index as int].dependencies@ == old(
                    self,
                ).nodes@[dependent.index as int].dependencies@.push((name, e))
                &&& final(self).nodes@[dependent.index as int].children == old(
                    self,
                ).nodes@[dependent.index as int].children
                &&& final(self).nodes@[dependent.index as int].package == old(
                    self,
                ).nodes@[dependent.index as int].package
                &&& final(self).nodes@[dependent.index as int].parent == old(
                    self,
                ).nodes@[dependent.index as int].parent
            },
    {
        let ghost g0 = *self;
        if lookup_key(&self.nodes[dependent.index].dependencies, name.as_str()).is_some() {
            return None;
        }
        proof {
            lemma_key_lookup_some(g0.nodes@[dependent.index as int].dependencies@, name@);
        }
        let e = EdgeIndex { index: self.edges.len() };
        self.edges.push(edge);
        self.nodes[dependent.index].dependencies.push((name, e));
        proof {
            let g1 = *self;
            let d = dependent.index as int;
            assert forall|i: int| 0 <= i < g1.nodes@.len() implies #[trigger] g1.node_wf(i) by {
                assert(g0.node_wf(i));
                let n = g1.nodes@[i];
                if i > 0 {
                    let q = n.parent->0.index as int;
                    let j = choose|j: int|
                        0 <= j < g0.nodes@[q].children@.len() && (
                        #[trigger] g0.nodes@[q].children@[j]).1.index == i;
                    assert(g1.nodes@[q].children@[j] == g0.nodes@[q].children@[j]);
                }
                assert forall|j: int| 0 <= j < n.children@.len() implies g1.child_entry_ok(
                    i,
                    #[trigger] n.children@[j],
                ) by {
                    assert(g0.child_entry_ok(i, g0.nodes@[i].children@[j]));
                    let c = n.children@[j].1.index as int;
                    assert(g1.nodes@[c].parent == g0.nodes@[c].parent);
                }
                assert forall|j: int| 0 <= j < n.dependencies@.len() implies (
                #[trigger] n.dependencies@[j]).1.index < g1.edges@.len() by {
                    if !(i == d && j == n.dependencies@.len() - 1) {
                        assert(n.dependencies@[j] == g0.nodes@[i].dependencies@[j]);
                    }
                }
                if i == d {
                    assert forall|j: int, k: int|
                        0 <= j < n.dependencies@.len() && 0 <= k < n.dependencies@.len() && j
                            != k implies case_key(#[trigger] n.dependencies@[j].0@) != case_key(
                        #[trigger] n.dependencies@[k].0@,
                    ) by {
                        let l = n.dependencies@.len() - 1;
                        if j < l {
                            assert(n.dependencies@[j] == g0.nodes@[i].dependencies@[j]);
                        }
                        if k < l {
                            assert(n.dependencies@[k] == g0.nodes@[i].dependencies@[k]);
                        }
                    }
                }
            }
        }
        Some(e)
    }
}

/// The keys of two association lists fold alike, position by position, and
/// their values agree.
pub open spec fn same_keys_up_to_case<T>(m1: Seq<(String, T)>, m2: Seq<(String, T)>) -> bool {
    &&& m1.len() == m2.len()
    &&& forall|j: int|
        0 <= j < m1.len() ==> case_key(#[trigger] m1[j].0@) == case_key(m2[j].0@) && m1[j].1
            == m2[j].1
}

/// Two graphs with the same hierarchy whose children were keyed with names
/// that differ only in case.
pub open spec fn same_hierarchy_up_to_case(g1: Graph, g2: Graph) -> bool {
    &&& g1.nodes@.len() == g2.nodes@.len()
    &&& forall|i: int|
        0 <= i < g1.nodes@.len() ==> #[trigger] g1.nodes@[i].parent == g2.nodes@[i].parent
            && same_keys_up_to_case(g1.nodes@[i].children@, g2.nodes@[i].children@)
}

pub proof fn lemma_key_lookup_up_to_case<T>(
    m1: Seq<(String, T)>,
    m2: Seq<(String, T)>,
    a: Seq<char>,
    b: Seq<char>,
)
    requires
        same_keys_up_to_case(m1, m2),
        case_key(a) == case_key(b),
    ensures
        key_lookup(m1, a) == key_lookup(m2, b),
    decreases m1.len(),
{
    if m1.len() > 0 {
        assert(case_key(m1[m1.len() - 1].0@) == case_key(m2[m2.len() - 1].0@));
        assert forall|j: int| 0 <= j < m1.drop_last().len() implies case_key(
            #[trigger] m1.drop_last()[j].0@,
        ) == case_key(m2.drop_last()[j].0@) && m1.drop_last()[j].1 == m2.drop_last()[j].1 by {
            assert(m1.drop_last()[j] == m1[j]);
            assert(m2.drop_last()[j] == m2[j]);
            assert(case_key(m1[j].0@) == case_key(m2[j].0@));
        }
        lemma_key_lookup_up_to_case(m1.drop_last(), m2.drop_last(), a, b);
    }
}

/// Resolution is case-insensitive: a dependency name resolves to the same
/// node whatever the case it is looked up with, and whatever the case its
/// satisfying copy was placed under.
pub proof fn lemma_resolve_case_insensitive(g1: &Graph, g2: &Graph, n: nat, a: Seq<char>, b: Seq<char>)
    requires
        same_hierarchy_up_to_case(*g1, *g2),
        n < g1.len(),
        case_key(a) == case_key(b),
    ensures
        g1.resolve(n, a) == g2.resolve(n, b),
    decreases n,
{
    assert(g1.nodes@[n as int].parent == g2.nodes@[n as int].parent);
    lemma_key_lookup_up_to_case(g1.nodes@[n as int].children@, g2.nodes@[n as int].children@, a, b);
    if let Some(p) = g1.nodes@[n as int].parent {
        if p.index < n {
            lemma_resolve_case_insensitive(g1, g2, p.index as nat, a, b);
        }
    }
}

pub proof fn lemma_ancestor_smaller(g: &Graph, a: nat, b: nat)
    requires
        g.ancestor(a, b),
    ensures
        a < b,
    decreases b,
{
    let p = g.nodes@[b as int].parent->0.index as nat;
    if p != a {
        lemma_ancestor_smaller(g, a, p);
    }
}

/// The root is an ancestor of every other node, and no node is its own ancestor.
pub proof fn lemma_ancestor_walk(g: &Graph, x: nat)
    requires
        g.wf(),
        x < g.len(),
    ensures
        x != 0 ==> g.ancestor(0, x),
        !g.ancestor(x, x),
    decreases x,
{
    assert(g.node_wf(x as int));
    if x != 0 {
        let p = g.nodes@[x as int].parent->0.index as nat;
        if p != 0 {
            lemma_ancestor_walk(g, p);
        }
    }
    if g.ancestor(x, x) {
        lemma_ancestor_smaller(g, x, x);
    }
}

/// A unit of hoisting work: the dependency that `edge_idx` declares from
/// `dependent_idx` should be met by a copy placed directly under `target_idx`.
#[derive(Clone, Copy, Debug, PartialEq, Eq, Hash, Structural)]
pub struct DemotionTarget {
    /// The ancestor that should hold the shared copy.
    pub target_idx: NodeIndex,
    /// The node that declares the dependency.
    pub dependent_idx: NodeIndex,
    /// The declared edge.
    pub edge_idx: EdgeIndex,
}

/// Why a demotion could not be applied.
#[derive(Debug, PartialEq, Eq)]
pub enum DemotionError {
    /// The dependent declares no dependency through that edge.
    UnknownEdge,
    /// The target already holds a child of that name that does not meet the requirement.
    Occupied { existing: NodeIndex },
    /// No copy that meets the requirement is visible from the dependent below the target.
    NoCopy,
}

/// The name under which `deps` declares edge `e` (the last such entry).
pub open spec fn edge_name(deps: Seq<(String, EdgeIndex)>, e: EdgeIndex) -> Option<String>
    decreases deps.len(),
{
    if deps.len() == 0 {
        None
    } else if deps.last().1 == e {
        Some(deps.last().0)
    } else {
        edge_name(deps.drop_last(), e)
    }
}

pub fn find_edge_name(deps: &Vec<(String, EdgeIndex)>, e: EdgeIndex) -> (r: Option<&String>)
    ensures
        match edge_name(deps@, e) {
            Some(n) => r is Some && *r->0 == n,
            None => r is None,
        },
{
    let mut j: usize = deps.len();
    assert(deps@.subrange(0, j as int) =~= deps@);
    while j > 0
        invariant
            j <= deps@.len(),
            edge_name(deps@, e) == edge_name(deps@.subrange(0, j as int), e),
        decreases j,
    {
        assert(deps@.subrange(0, j as int).drop_last() =~= deps@.subrange(0, j - 1));
        if deps[j - 1].1.index == e.index {
            assert(deps@[j - 1].1 == e);
            return Some(&deps[j - 1].0);
        }
        j = j - 1;
    }
    None
}

impl Graph {
    /// `new` is `old` with node `c` moved from its parent `p` (where it sat at
    /// position `j`) to the end of node `t`'s children.
    pub open spec fn relocated(old: Graph, new: Graph, c: int, p: int, t: int, j: int) -> bool {
        &&& new.root == old.root
        &&& new.edges == old.edges
        &&& new.nodes@.len() == old.nodes@.len()
        &&& forall|i: int|
            0 <= i < old.nodes@.len() && i != c && i != p && i != t ==> new.nodes@[i]
                == old.nodes@[i]
        &&& new.nodes@[c].idx == old.nodes@[c].idx
        &&& new.nodes@[c].package == old.nodes@[c].package
        &&& new.nodes@[c].root == old.nodes@[c].root
        &&& new.nodes@[c].dependencies == old.nodes@[c].dependencies
        &&& new.nodes@[c].children == old.nodes@[c].children
        &&& new.nodes@[c].parent == Some(NodeIndex { index: t as usize })
        &&& new.nodes@[p].idx == old.nodes@[p].idx
        &&& new.nodes@[p].package == old.nodes@[p].package
        &&& new.nodes@[p].root == old.nodes@[p].root
        &&& new.nodes@[p].dependencies == old.nodes@[p].dependencies
        &&& new.nodes@[p].parent == old.nodes@[p].parent
        &&& new.nodes@[p].children@ == old.nodes@[p].children@.remove(j)
        &&& new.nodes@[t].idx == old.nodes@[t].idx
        &&& new.nodes@[t].package == old.nodes@[t].package
        &&& new.nodes@[t].root == old.nodes@[t].root
        &&& new.nodes@[t].dependencies == old.nodes@[t].dependencies
        &&& new.nodes@[t].parent == old.nodes@[t].parent
        &&& new.nodes@[t].children@ == old.nodes@[t].children@.push(old.nodes@[p].children@[j])
    }

    proof fn lemma_relocate_wf(old: Graph, new: Graph, c: int, p: int, t: int, j: int)
        requires
            old.wf(),
            0 <= t < p < c < old.nodes@.len(),
            old.nodes@[c].parent == Some(NodeIndex { index: p as usize }),
            0 <= j < old.nodes@[p].children@.len(),
            old.nodes@[p].children@[j].1.index == c,
            forall|k: int|
                0 <= k < old.nodes@[t].children@.len() ==> case_key(
                    #[trigger] old.nodes@[t].children@[k].0@,
                ) != case_key(old.nodes@[p].children@[j].0@),
            Graph::relocated(old, new, c, p, t, j),
        ensures
            new.wf(),
    {
        let e0 = old.nodes@[p].children@[j];
        assert(old.node_wf(p));
        assert(old.node_wf(t));
        assert(old.node_wf(c));
        assert(old.child_entry_ok(p, e0));
        // an entry pointing at `c` sits in `p`'s children, at position `j`
        assert forall|i: int, k: int|
            0 <= i < old.nodes@.len() && 0 <= k < old.nodes@[i].children@.len()
                && old.nodes@[i].children@[k].1.index == c implies i == p && k == j by {
            assert(old.node_wf(i));
            assert(old.child_entry_ok(i, old.nodes@[i].children@[k]));
            if k != j && i == p {
                assert(case_key(old.nodes@[p].children@[k].0@) != case_key(e0.0@));
            }
        }
        assert forall|i: int| 0 <= i < new.nodes@.len() implies #[trigger] new.node_wf(i) by {
            assert(old.node_wf(i));
            let n = new.nodes@[i];
            let o = old.nodes@[i];
            if i == c {
                let l = new.nodes@[t].children@.len() - 1;
                assert(new.nodes@[t].children@[l] == e0);
            } else if i > 0 {
                let q = o.parent->0.index as int;
                assert(n.parent == o.parent);
                let k = choose|k: int|
                    0 <= k < old.nodes@[q].children@.len() && (
                    #[trigger] old.nodes@[q].children@[k]).1.index == i;
                if q == p {
                    if k < j {
                        assert(new.nodes@[q].children@[k] == old.nodes@[q].children@[k]);
                    } else {
                        assert(k != j);
                        assert(new.nodes@[q].children@[k - 1] == old.nodes@[q].children@[k]);
                    }
                } else if q == t {
                    assert(new.nodes@[q].children@[k] == old.nodes@[q].children@[k]);
                } else {
                    assert(new.nodes@[q].children == old.nodes@[q].children);
                    assert(new.nodes@[q].children@[k] == old.nodes@[q].children@[k]);
                }
            }
            assert forall|k: int| 0 <= k < n.children@.len() implies new.child_entry_ok(
                i,
                #[trigger] n.children@[k],
            ) by {
                let ok = if i == p {
                    if k < j {
                        k
                    } else {
                        k + 1
                    }
                } else {
                    k
                };
                if i == t && k == n.children@.len() - 1 {
                    assert(n.children@[k] == e0);
                } else {
                    assert(n.children@[k] == o.children@[ok]);
                    assert(old.child_entry_ok(i, o.children@[ok]));
                    let d = o.children@[ok].1.index as int;
                    if d == c {
                        assert(i == p && ok == j);
                    }
                    assert(d != c);
                    assert(new.nodes@[d].parent == old.nodes@[d].parent);
                    assert(new.nodes@[d].package == old.nodes@[d].package);
                }
            }
            if i == p {
                assert forall|a: int, b: int|
                    0 <= a < n.children@.len() && 0 <= b < n.children@.len() && a
                        != b implies case_key(#[trigger] n.children@[a].0@) != case_key(
                    #[trigger] n.children@[b].0@,
                ) by {
                    let oa = if a < j {
                        a
                    } else {
                        a + 1
                    };
                    let ob = if b < j {
                        b
                    } else {
                        b + 1
                    };
                    assert(n.children@[a] == o.children@[oa]);
                    assert(n.children@[b] == o.children@[ob]);
                }
            }
            if i == t {
                assert forall|a: int, b: int|
                    0 <= a < n.children@.len() && 0 <= b < n.children@.len() && a
                        != b implies case_key(#[trigger] n.children@[a].0@) != case_key(
                    #[trigger] n.children@[b].0@,
                ) by {
                    let l = n.children@.len() - 1;
                    if a < l {
                        assert(n.children@[a] == o.children@[a]);
                    }
                    if b < l {
                        assert(n.children@[b] == o.children@[b]);
                    }
                }
            }
            assert forall|k: int| 0 <= k < n.dependencies@.len() implies (
            #[trigger] n.dependencies@[k]).1.index < new.edges@.len() by {
                assert(n.dependencies@[k] == o.dependencies@[k]);
            }
        }
    }
}

pub proof fn lemma_edge_name_some(deps: Seq<(String, EdgeIndex)>, e: EdgeIndex)
    ensures
        edge_name(deps, e) is Some ==> exists|k: int| 0 <= k < deps.len() && (#[trigger] deps[k]).1 == e,
    decreases deps.len(),
{
    if deps.len() > 0 && deps.last().1 != e {
        lemma_edge_name_some(deps.drop_last(), e);
        if edge_name(deps, e) is Some {
            let k = choose|k: int| 0 <= k < deps.drop_last().len() && (#[trigger] deps.drop_last()[k]).1 == e;
            assert(deps[k] == deps.drop_last()[k]);
        }
    } else if deps.len() > 0 {
        assert(deps[deps.len() - 1].1 == e);
    }
}

impl Graph {
    /// Copy `c` meets `req` and its parent lies strictly below node `t`, so it
    /// can move up to `t`.
    pub open spec fn can_hoist(&self, c: NodeIndex, t: NodeIndex, req: crate::package::SpecKind) -> bool {
        &&& satisfies_spec(self.nodes@[c.index as int].package.resolved, req)
        &&& self.nodes@[c.index as int].parent is Some
        &&& self.ancestor(t.index as nat, self.nodes@[c.index as int].parent->0.index as nat)
    }

    /// Applies one unit of hoisting work. If the target already has a child
    /// of the dependency's name, it is reused when it meets the requirement.
    /// Otherwise the copy that the dependent now resolves to moves up to the
    /// target, provided it meets the requirement and sits strictly below the
    /// target. Only hierarchy links change; the edge itself never does.
    pub fn apply_demotion(&mut self, t: &DemotionTarget) -> (r: Result<NodeIndex, DemotionError>)
        requires
            old(self).wf(),
            t.target_idx.index < old(self).len(),
            t.dependent_idx.index < old(self).len(),
        ensures
            final(self).wf(),
            match edge_name(old(self).nodes@[t.dependent_idx.index as int].dependencies@, t.edge_idx) {
                None => r == Err::<NodeIndex, DemotionError>(DemotionError::UnknownEdge) && *final(self)
                    == *old(self),
                Some(name) => {
                    let req = old(self).edges@[t.edge_idx.index as int].requested.kind;
                    match key_lookup(old(self).nodes@[t.target_idx.index as int].children@, name@) {
                        Some(c) => *final(self) == *old(self) && r == if satisfies_spec(
                            old(self).nodes@[c.index as int].package.resolved,
                            req,
                        ) {
                            Ok::<NodeIndex, DemotionError>(c)
                        } else {
                            Err(DemotionError::Occupied { existing: c })
                        },
                        None => match old(self).resolve(t.dependent_idx.index as nat, name@) {
                            Some(c) => if old(self).can_hoist(c, t.target_idx, req) {
                                &&& r == Ok::<NodeIndex, DemotionError>(c)
                                &&& exists|j: int|
                                    Graph::relocated(
                                        *old(self),
                                        *final(self),
                                        c.index as int,
                                        old(self).nodes@[c.index as int].parent->0.index as int,
                                        t.target_idx.index as int,
                                        j,
                                    )
                            } else {
                                r == Err::<NodeIndex, DemotionError>(DemotionError::NoCopy)
                                    && *final(self) == *old(self)
                            },
                            None => r == Err::<NodeIndex, DemotionError>(DemotionError::NoCopy)
                                && *final(self) == *old(self),
                        },
                    }
                },
            },
    {
        let ghost g0 = *self;
        let dep = t.dependent_idx.index;
        let tgt = t.target_idx.index;
        let name: String = match find_edge_name(&self.nodes[dep].dependencies, t.edge_idx) {
            Some(n) => n.clone(),
            None => {
                return Err(DemotionError::UnknownEdge);
            },
        };
        proof {
            lemma_edge_name_some(g0.nodes@[dep as int].dependencies@, t.edge_idx);
            assert(g0.node_wf(dep as int));
            g0.lemma_child_valid(tgt as nat, name@);
            g0.lemma_resolve_valid(dep as nat, name@);
            lemma_key_lookup_some(g0.nodes@[tgt as int].children@, name@);
        }
        let ei = t.edge_idx.index;
        if let Some(c) = lookup_key(&self.nodes[tgt].children, name.as_str()) {
            if self.nodes[c.index].package.satisfies(&self.edges[ei].requested) {
                return Ok(c);
            } else {
                return Err(DemotionError::Occupied { existing: c });
            }
        }
        let c = match self.resolve_dep(t.dependent_idx, name.as_str()) {
            Some(c) => c,
            None => {
                return Err(DemotionError::NoCopy);
            },
        };
        assert(self.node_wf(c.index as int));
        let p: usize = match self.nodes[c.index].parent {
            Some(p) => p.index,
            None => {
                return Err(DemotionError::NoCopy);
            },
        };
        if !self.nodes[c.index].package.satisfies(&self.edges[ei].requested) || !self.is_ancestor(
            t.target_idx,
            NodeIndex { index: p },
        ) {
            return Err(DemotionError::NoCopy);
        }
        proof {
            lemma_ancestor_smaller(&g0, tgt as nat, p as nat);
            assert(g0.node_wf(p as int));
        }
        let mut j: usize = 0;
        while j < self.nodes[p].children.len() && self.nodes[p].children[j].1.index != c.index
            invariant
                *self == g0,
                p < self.len(),
                j <= self.nodes@[p as int].children@.len(),
                forall|k: int| 0 <= k < j ==> (#[trigger] self.nodes@[p as int].children@[k]).1.index != c.index,
            decreases self.nodes@[p as int].children@.len() - j,
        {
            j = j + 1;
        }
        if j == self.nodes[p].children.len() {
            proof {
                let k = choose|k: int|
                    0 <= k < g0.nodes@[p as int].children@.len() && (
                    #[trigger] g0.nodes@[p as int].children@[k]).1.index == c.index;
            }
            return Err(DemotionError::NoCopy);
        }
        let ghost e0 = g0.nodes@[p as int].children@[j as int];
        proof {
            assert(g0.child_entry_ok(p as int, e0));
        }
        let entry = self.nodes[p].children.remove(j);
        self.nodes[tgt].children.push(entry);
        self.nodes[c.index].parent = Some(t.target_idx);
        proof {
            assert(Graph::relocated(g0, *self, c.index as int, p as int, tgt as int, j as int));
            Graph::lemma_relocate_wf(g0, *self, c.index as int, p as int, tgt as int, j as int);
        }
        Ok(c)
    }
}

impl Graph {
    /// Node `n` followed by its ancestors, up to and including the root.
    pub open spec fn chain(&self, n: nat) -> Seq<NodeIndex>
        decreases n,
    {
        match self.nodes@[n as int].parent {
            Some(p) => if p.index < n {
                seq![NodeIndex { index: n as usize }] + self.chain(p.index as nat)
            } else {
                seq![NodeIndex { index: n as usize }]
            },
            None => seq![NodeIndex { index: n as usize }],
        }
    }

    /// The hierarchy chain that lookups walk: `node` itself, then each parent
    /// up to the root.
    pub fn node_parent_chain(&self, node: NodeIndex) -> (r: Vec<NodeIndex>)
        requires
            self.wf(),
            node.index < self.len(),
        ensures
            r@ == self.chain(node.index as nat),
    {
        let mut out: Vec<NodeIndex> = Vec::new();
        let mut cur: usize = node.index;
        loop
            invariant
                self.wf(),
                cur < self.len(),
                self.chain(node.index as nat) == out@ + self.chain(cur as nat),
            decreases cur,
        {
            assert(self.node_wf(cur as int));
            let ghost before = out@;
            out.push(NodeIndex { index: cur });
            match self.nodes[cur].parent {
                Some(p) => {
                    assert(before + self.chain(cur as nat) =~= out@ + self.chain(p.index as nat));
                    cur = p.index;
                },
                None => {
                    assert(before + self.chain(cur as nat) =~= out@);
                    return out;
                },
            }
        }
    }
}


/// Whether no two keys fold to the same name.
pub fn keys_unique_exec<T>(m: &Vec<(String, T)>) -> (r: bool)
    ensures
        r == keys_unique(m@),
{
    let mut j: usize = 0;
    while j < m.len()
        invariant
            j <= m@.len(),
            forall|a: int, b: int|
                0 <= a < j && 0 <= b < m@.len() && a != b ==> case_key(#[trigger] m@[a].0@)
                    != case_key(#[trigger] m@[b].0@),
        decreases m@.len() - j,
    {
        let mut k: usize = 0;
        while k < m.len()
            invariant
                j < m@.len(),
                k <= m@.len(),
                forall|a: int, b: int|
                    0 <= a < j && 0 <= b < m@.len() && a != b ==> case_key(#[trigger] m@[a].0@)
                        != case_key(#[trigger] m@[b].0@),
                forall|b: int|
                    0 <= b < k && b != j ==> case_key(m@[j as int].0@) != case_key(
                        #[trigger] m@[b].0@,
                    ),
            decreases m@.len() - k,
        {
            if k != j && names_match(m[j].0.as_str(), m[k].0.as_str()) {
                assert(!keys_unique(m@)) by {
                    assert(case_key(m@[j as int].0@) == case_key(m@[k as int].0@));
                }
                return false;
            }
            k = k + 1;
        }
        j = j + 1;
    }
    true
}

impl Graph {
    /// Whether node `i` keeps its part of the arena invariant.
    pub fn node_is_wf(&self, i: usize) -> (r: bool)
        requires
            i < self.len(),
        ensures
            r == self.node_wf(i as int),
    {
        let n = &self.nodes[i];
        if n.idx.index != i || n.root.index != self.root.index {
            return false;
        }
        if i > 0 {
            match n.parent {
                None => {
                    return false;
                },
                Some(p) => {
                    if p.index >= i {
                        return false;
                    }
                    let kids = &self.nodes[p.index].children;
                    let mut j: usize = 0;
                    while j < kids.len() && kids[j].1.index != i
                        invariant
                            *kids == self.nodes@[p.index as int].children,
                            j <= kids@.len(),
                            forall|k: int| 0 <= k < j ==> (#[trigger] kids@[k]).1.index != i,
                        decreases kids@.len() - j,
                    {
                        j = j + 1;
                    }
                    if j == kids.len() {
                        return false;
                    }
                },
            }
        }
        if !keys_unique_exec(&n.children) || !keys_unique_exec(&n.dependencies) {
            return false;
        }
        let mut j: usize = 0;
        while j < n.children.len()
            invariant
                i < self.len(),
                *n == self.nodes@[i as int],
                j <= n.children@.len(),
                forall|k: int| 0 <= k < j ==> self.child_entry_ok(i as int, #[trigger] n.children@[k]),
            decreases n.children@.len() - j,
        {
            let c = n.children[j].1.index;
            if c >= self.nodes.len() {
                return false;
            }
            let ok_parent = match self.nodes[c].parent {
                Some(q) => q.index == i,
                None => false,
            };
            if !ok_parent || !names_match(n.children[j].0.as_str(), self.nodes[c].package.name.as_str()) {
                return false;
            }
            j = j + 1;
        }
        let mut j: usize = 0;
        while j < n.dependencies.len()
            invariant
                i < self.len(),
                *n == self.nodes@[i as int],
                j <= n.dependencies@.len(),
                forall|k: int| 0 <= k < j ==> (#[trigger] n.dependencies@[k]).1.index < self.edges@.len(),
            decreases n.dependencies@.len() - j,
        {
            if n.dependencies[j].1.index >= self.edges.len() {
                return false;
            }
            j = j + 1;
        }
        true
    }

    /// Whether the arena invariant holds; the node where it first fails, if not.
    pub fn first_malformed(&self) -> (r: Option<NodeIndex>)
        ensures
            r is None <==> self.wf(),
            r matches Some(n) ==> (n.index < self.len() && !self.node_wf(n.index as int))
                || n.index == 0,
    {
        if self.root.index != 0 || self.nodes.len() == 0 {
            return Some(NodeIndex { index: 0 });
        }
        if self.nodes[0].parent.is_some() {
            return Some(NodeIndex { index: 0 });
        }
        let mut i: usize = 0;
        while i < self.nodes.len()
            invariant
                i <= self.len(),
                forall|k: int| 0 <= k < i ==> #[trigger] self.node_wf(k),
            decreases self.len() - i,
        {
            if !self.node_is_wf(i) {
                return Some(NodeIndex { index: i });
            }
            i = i + 1;
        }
        None
    }

    /// A child link that points outside the node arena.
    pub open spec fn dangling(&self, parent: NodeIndex, missing: NodeIndex) -> bool {
        &&& parent.index < self.nodes@.len()
        &&& missing.index >= self.nodes@.len()
        &&& exists|j: int|
            0 <= j < self.nodes@[parent.index as int].children@.len() && (
            #[trigger] self.nodes@[parent.index as int].children@[j]).1 == missing
    }

    /// Validates the graph: (a) every child link points at a node that is in
    /// the arena, and the arena invariant holds; (b) every declared dependency
    /// resolves, through the hierarchy, to a package that meets what was
    /// requested.
    pub fn validate(&self) -> (r: Result<(), GraphValidationError>)
        ensures
            r is Ok <==> self.wf() && self.resolution_invariant(),
            r matches Err(GraphValidationError::MissingNode { parent, missing }) ==> self.dangling(
                parent,
                missing,
            ),
            r matches Err(GraphValidationError::Malformed { node }) ==> !self.wf(),
            r matches Err(GraphValidationError::Unreachable { .. }) ==> self.wf() && self.violation(
                r->Err_0,
            ),
            r matches Err(GraphValidationError::Unsatisfied { .. }) ==> self.wf() && self.violation(
                r->Err_0,
            ),
    {
        let mut i: usize = 0;
        while i < self.nodes.len()
            invariant
                i <= self.len(),
            decreases self.len() - i,
        {
            let kids = &self.nodes[i].children;
            let mut j: usize = 0;
            while j < kids.len()
                invariant
                    i < self.len(),
                    *kids == self.nodes@[i as int].children,
                    j <= kids@.len(),
                decreases kids@.len() - j,
            {
                if kids[j].1.index >= self.nodes.len() {
                    assert(self.dangling(NodeIndex { index: i }, kids@[j as int].1));
                    assert(!self.wf()) by {
                        if self.wf() {
                            assert(self.node_wf(i as int));
                            assert(self.child_entry_ok(i as int, kids@[j as int]));
                        }
                    }
                    return Err(GraphValidationError::MissingNode {
                        parent: NodeIndex { index: i },
                        missing: kids[j].1,
                    });
                }
                j = j + 1;
            }
            i = i + 1;
        }
        if let Some(node) = self.first_malformed() {
            return Err(GraphValidationError::Malformed { node });
        }
        self.check_resolution()
    }
}

} // verus!
