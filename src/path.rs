use vstd::prelude::*;

use crate::graph::{key_lookup, lemma_key_lookup_some, lemma_key_lookup_unique, Graph, Node};
use crate::names::{case_key, names_match, starts_with_char};
use crate::package::Package;

verus! {

/// Where a walk down install-path segments stands.
pub struct PathWalk {
    /// The node reached so far.
    pub cur: nat,
    /// The next segment names a package (just after a level separator).
    pub in_nm: bool,
    /// A scope segment (`@scope`) waiting for the name that follows it.
    pub scope: Option<Seq<char>>,
    /// The walk has dead-ended; later segments change nothing.
    pub stopped: bool,
}

/// The directory name that separates hierarchy levels.
pub open spec fn nm_dir() -> Seq<char> {
    "node_modules"@
}

pub open spec fn is_nm(seg: Seq<char>) -> bool {
    case_key(seg) == case_key(nm_dir())
}

pub open spec fn is_separator(seg: Seq<char>) -> bool {
    seg == seq!['/'] || seg == seq!['\\']
}

pub open spec fn walk_start() -> PathWalk {
    PathWalk { cur: 0, in_nm: true, scope: None, stopped: false }
}

impl Graph {
    /// One segment of the walk down from the root through the children maps.
    pub open spec fn walk_step(&self, st: PathWalk, seg: Seq<char>) -> PathWalk {
        if st.stopped {
            st
        } else if (is_nm(seg) && st.scope is None) || is_separator(seg) {
            PathWalk { in_nm: true, ..st }
        } else if !st.in_nm {
            PathWalk { stopped: true, ..st }
        } else if seg.len() > 0 && seg[0] == '@' {
            PathWalk { scope: Some(seg), ..st }
        } else if st.scope is Some {
            let full = st.scope->0 + seq!['/'] + seg;
            match key_lookup(self.nodes@[st.cur as int].children@, full) {
                Some(c) => PathWalk { cur: c.index as nat, in_nm: false, scope: None, stopped: false },
                None => PathWalk { stopped: true, ..st },
            }
        } else {
            match key_lookup(self.nodes@[st.cur as int].children@, seg) {
                Some(c) => PathWalk { cur: c.index as nat, in_nm: false, scope: None, stopped: false },
                None => PathWalk { stopped: true, ..st },
            }
        }
    }

    pub open spec fn walk_from(&self, st: PathWalk, segs: Seq<Seq<char>>) -> PathWalk
        decreases segs.len(),
    {
        if segs.len() == 0 {
            st
        } else {
            self.walk_step(self.walk_from(st, segs.drop_last()), segs.last())
        }
    }

    /// The node that an install path addresses: none when the walk dead-ends,
    /// ends on a scope with no name after it, or stays at the root.
    pub open spec fn path_lookup(&self, segs: Seq<Seq<char>>) -> Option<nat> {
        let st = self.walk_from(walk_start(), segs);
        if st.stopped || st.scope is Some || st.cur == 0 {
            None
        } else {
            Some(st.cur)
        }
    }

    pub proof fn lemma_child_valid(&self, n: nat, name: Seq<char>)
        requires
            self.wf(),
            n < self.len(),
        ensures
            key_lookup(self.nodes@[n as int].children@, name) matches Some(c) ==> c.index
                < self.len(),
    {
        assert(self.node_wf(n as int));
        let kids = self.nodes@[n as int].children@;
        lemma_key_lookup_some(kids, name);
        if key_lookup(kids, name) is Some {
            let j = choose|j: int|
                0 <= j < kids.len() && case_key(#[trigger] kids[j].0@) == case_key(name)
                    && kids[j].1 == key_lookup(kids, name)->0;
            assert(self.child_entry_ok(n as int, kids[j]));
        }
    }

    /// The node addressed by a sequence of install-path segments: package
    /// names separated by `node_modules` (or a bare `/` or `\`), where a
    /// segment starting with `@` joins the next one into one scoped name.
    /// Nothing is returned when the walk dead-ends (a missing child, a name
    /// right after a name, a scope with no name after it) or stays at the root.
    pub fn node_at_path(&self, segments: &Vec<String>) -> (r: Option<&Node>)
        requires
            self.wf(),
        ensures
            match self.path_lookup(segments@.map_values(|s: String| s@)) {
                Some(i) => r is Some && i < self.len() && *r->0 == self.nodes@[i as int],
                None => r is None,
            },
    {
        let ghost segs = segments@.map_values(|s: String| s@);
        let mut slash = String::new();
        slash.append("/");
        let mut backslash = String::new();
        backslash.append("\\");
        proof {
            reveal_strlit("/");
            reveal_strlit("\\");
            assert(slash@ =~= seq!['/']);
            assert(backslash@ =~= seq!['\\']);
        }
        let mut cur: usize = 0;
        let mut in_nm = true;
        let mut scope: Option<String> = None;
        let mut stopped = false;
        let mut k: usize = 0;
        assert(segs.subrange(0, 0) =~= Seq::<Seq<char>>::empty());
        while k < segments.len()
            invariant
                self.wf(),
                segs == segments@.map_values(|s: String| s@),
                k <= segments@.len(),
                cur < self.len(),
                slash@ == seq!['/'],
                backslash@ == seq!['\\'],
                self.walk_from(walk_start(), segs.subrange(0, k as int)) == (PathWalk {
                    cur: cur as nat,
                    in_nm,
                    scope: match scope {
                        Some(s) => Some(s@),
                        None => None,
                    },
                    stopped,
                }),
            decreases segments@.len() - k,
        {
            let seg = &segments[k];
            assert(segs.subrange(0, k + 1).drop_last() =~= segs.subrange(0, k as int));
            assert(segs.subrange(0, k + 1).last() == seg@);
            if stopped {
            } else if (names_match(seg.as_str(), "node_modules") && scope.is_none()) || *seg
                == slash || *seg == backslash {
                in_nm = true;
            } else if !in_nm {
                stopped = true;
            } else if starts_with_char(seg.as_str(), '@') {
                scope = Some(seg.clone());
            } else if let Some(sc) = &scope {
                let mut full = sc.clone();
                full.append("/");
                full.append(seg.as_str());
                proof {
                    reveal_strlit("/");
                    assert(full@ =~= sc@ + seq!['/'] + seg@);
                    self.lemma_child_valid(cur as nat, full@);
                }
                if let Some(c) = crate::graph::lookup_key(&self.nodes[cur].children, full.as_str()) {
                    cur = c.index;
                    in_nm = false;
                    scope = None;
                } else {
                    stopped = true;
                }
            } else {
                proof {
                    self.lemma_child_valid(cur as nat, seg@);
                }
                if let Some(c) = crate::graph::lookup_key(&self.nodes[cur].children, seg.as_str()) {
                    cur = c.index;
                    in_nm = false;
                } else {
                    stopped = true;
                }
            }
            k = k + 1;
        }
        assert(segs.subrange(0, segments@.len() as int) =~= segs);
        if stopped || scope.is_some() || cur == 0 {
            None
        } else {
            Some(&self.nodes[cur])
        }
    }

    /// The package installed at an install path, if any.
    pub fn package_at_path(&self, segments: &Vec<String>) -> (r: Option<&Package>)
        requires
            self.wf(),
        ensures
            match self.path_lookup(segments@.map_values(|s: String| s@)) {
                Some(i) => r is Some && i < self.len() && *r->0 == self.nodes@[i as int].package,
                None => r is None,
            },
    {
        match self.node_at_path(segments) {
            Some(n) => Some(&n.package),
            None => None,
        }
    }
}


/// The segments that spell one package name in an install path: a scoped
/// name `@scope/name` takes two, any other name one.
pub open spec fn name_segments(n: Seq<char>) -> Seq<Seq<char>> {
    if n.len() > 0 && n[0] == '@' && exists|i: int| 0 < i < n.len() && n[i] == '/' {
        let i = choose|i: int| 0 < i < n.len() && n[i] == '/';
        seq![n.take(i), n.skip(i + 1)]
    } else {
        seq![n]
    }
}

/// The segments of an install path: the names' segments, with a
/// `node_modules` segment between consecutive names.
pub open spec fn path_segments(names: Seq<String>) -> Seq<Seq<char>>
    decreases names.len(),
{
    if names.len() == 0 {
        Seq::empty()
    } else if names.len() == 1 {
        name_segments(names[0]@)
    } else {
        path_segments(names.drop_last()) + seq![nm_dir()] + name_segments(names.last()@)
    }
}

/// A package name that reads back unchanged from an install path: a scoped
/// name holds exactly one `/`, another name none, and no part of it reads as
/// a level separator or opens a second scope.
pub open spec fn addressable_name(n: Seq<char>) -> bool {
    if n.len() > 0 && n[0] == '@' {
        exists|i: int|
            0 < i < n.len() && n[i] == '/' && (forall|j: int|
                0 <= j < n.len() && j != i ==> #[trigger] n[j] != '/') && !is_nm(n.take(i)) && !(
            n.skip(i + 1).len() > 0 && n.skip(i + 1)[0] == '@') && n.skip(i + 1) != seq!['\\']
    } else {
        (forall|j: int| 0 <= j < n.len() ==> #[trigger] n[j] != '/') && n != seq!['\\'] && !is_nm(n)
    }
}

pub proof fn lemma_walk_from_append(g: &Graph, st: PathWalk, a: Seq<Seq<char>>, b: Seq<Seq<char>>)
    ensures
        g.walk_from(st, a + b) == g.walk_from(g.walk_from(st, a), b),
    decreases b.len(),
{
    if b.len() == 0 {
        assert(a + b =~= a);
    } else {
        lemma_walk_from_append(g, st, a, b.drop_last());
        assert((a + b).drop_last() =~= a + b.drop_last());
        assert((a + b).last() == b.last());
    }
}

/// From a node, at the start of a level, a child's name segments lead to that child.
pub proof fn lemma_walk_name(g: &Graph, cur: nat, child: nat)
    requires
        g.wf(),
        cur < g.len(),
        0 < child < g.len(),
        g.nodes@[child as int].parent == Some(crate::graph::NodeIndex { index: cur as usize }),
        addressable_name(g.nodes@[child as int].package.name@),
    ensures
        g.walk_from(
            PathWalk { cur, in_nm: true, scope: None, stopped: false },
            name_segments(g.nodes@[child as int].package.name@),
        ) == (PathWalk { cur: child, in_nm: false, scope: None, stopped: false }),
{
    let n = g.nodes@[child as int].package.name@;
    let st = PathWalk { cur, in_nm: true, scope: None, stopped: false };
    assert(g.node_wf(child as int));
    assert(g.node_wf(cur as int));
    let kids = g.nodes@[cur as int].children@;
    let j = choose|j: int| 0 <= j < kids.len() && (#[trigger] kids[j]).1.index == child;
    assert(g.child_entry_ok(cur as int, kids[j]));
    lemma_key_lookup_unique(kids, n, j);
    assert(kids[j].1 == crate::graph::NodeIndex { index: child as usize });
    let segs = name_segments(n);
    if n.len() > 0 && n[0] == '@' {
        let i = choose|i: int|
            0 < i < n.len() && n[i] == '/' && (forall|j: int|
                0 <= j < n.len() && j != i ==> #[trigger] n[j] != '/') && !is_nm(n.take(i)) && !(
            n.skip(i + 1).len() > 0 && n.skip(i + 1)[0] == '@') && n.skip(i + 1) != seq!['\\'];
        let i2 = choose|i: int| 0 < i < n.len() && n[i] == '/';
        assert(i2 == i);
        let pre = n.take(i);
        let suf = n.skip(i + 1);
        assert(segs == seq![pre, suf]);
        assert(segs.drop_last() =~= seq![pre]);
        assert(seq![pre].drop_last() =~= Seq::<Seq<char>>::empty());
        assert(pre[0] == '@');
        assert(!is_separator(pre));
        let st2 = PathWalk { scope: Some(pre), ..st };
        assert(pre.len() == i);
        assert(seq![pre].last() == pre);
        assert(g.walk_from(st, Seq::<Seq<char>>::empty()) == st);
        assert(g.walk_step(st, pre) == st2);
        assert(g.walk_from(st, seq![pre]) == st2);
        if suf == seq!['/'] {
            assert(n[i + 1] == '/');
        }
        assert(pre + seq!['/'] + suf =~= n);
    } else {
        assert(segs == seq![n]);
        assert(segs.drop_last() =~= Seq::<Seq<char>>::empty());
        if n == seq!['/'] {
            assert(n[0] == '/');
        }
        assert(!is_separator(n));
    }
}

/// Reading a node's install path back from the root lands on that node.
pub proof fn lemma_walk_path(g: &Graph, x: nat)
    requires
        g.wf(),
        0 < x < g.len(),
        forall|k: int|
            0 <= k < g.names_below_root(x).len() ==> addressable_name(
                #[trigger] g.names_below_root(x)[k]@,
            ),
    ensures
        g.walk_from(walk_start(), path_segments(g.names_below_root(x))) == (PathWalk {
            cur: x,
            in_nm: false,
            scope: None,
            stopped: false,
        }),
    decreases x,
{
    assert(g.node_wf(x as int));
    let p = g.nodes@[x as int].parent->0.index as nat;
    let name = g.nodes@[x as int].package.name;
    let names = g.names_below_root(x);
    assert(names == g.names_below_root(p).push(name));
    assert(names[names.len() - 1] == name);
    assert(g.nodes@[x as int].parent == Some(crate::graph::NodeIndex { index: p as usize }));
    if p == 0 {
        assert(names =~= seq![name]);
        assert(names[0] == name);
        assert(addressable_name(names[0]@));
        lemma_walk_name(g, 0, x);
        assert(path_segments(names) == name_segments(name@));
    } else {
        let prev = g.names_below_root(p);
        assert(g.node_wf(p as int));
        assert(prev == g.names_below_root(g.nodes@[p as int].parent->0.index as nat).push(
            g.nodes@[p as int].package.name,
        ));
        assert forall|k: int| 0 <= k < prev.len() implies addressable_name(#[trigger] prev[k]@) by {
            assert(names[k] == prev[k]);
        }
        lemma_walk_path(g, p);
        assert(names.drop_last() =~= prev);
        let a = path_segments(prev);
        let b = name_segments(name@);
        assert(path_segments(names) == a + seq![nm_dir()] + b);
        lemma_walk_from_append(g, walk_start(), a + seq![nm_dir()], b);
        lemma_walk_from_append(g, walk_start(), a, seq![nm_dir()]);
        assert(seq![nm_dir()].drop_last() =~= Seq::<Seq<char>>::empty());
        let at_p = PathWalk { cur: p, in_nm: false, scope: None, stopped: false };
        let next = PathWalk { cur: p, in_nm: true, scope: None, stopped: false };
        assert(g.walk_from(walk_start(), a) == at_p);
        assert(seq![nm_dir()].last() == nm_dir());
        assert(g.walk_from(at_p, Seq::<Seq<char>>::empty()) == at_p);
        assert(is_nm(nm_dir()));
        assert(g.walk_step(at_p, nm_dir()) == next);
        assert(g.walk_from(at_p, seq![nm_dir()]) == next);
        lemma_walk_name(g, p, x);
        assert(addressable_name(names[names.len() - 1]@));
    }
}

/// Every node but the root is found again at its own install path.
pub proof fn lemma_path_round_trip(g: &Graph, x: crate::graph::NodeIndex)
    requires
        g.wf(),
        0 < x.index < g.len(),
        forall|k: int|
            0 <= k < g.path_of(x.index as nat).len() ==> addressable_name(
                #[trigger] g.path_of(x.index as nat)[k]@,
            ),
    ensures
        g.path_lookup(path_segments(g.path_of(x.index as nat))) == Some(x.index as nat),
{
    lemma_walk_path(g, x.index as nat);
}


impl Graph {
    /// The package name that one segment of the walk looks up and finds, if any:
    /// a plain name, or a scope joined with the name after it.
    pub open spec fn step_name(&self, st: PathWalk, seg: Seq<char>) -> Option<Seq<char>> {
        if st.stopped || (is_nm(seg) && st.scope is None) || is_separator(seg) || !st.in_nm || (
        seg.len() > 0 && seg[0] == '@') {
            None
        } else {
            let full = if st.scope is Some {
                st.scope->0 + seq!['/'] + seg
            } else {
                seg
            };
            if key_lookup(self.nodes@[st.cur as int].children@, full) is Some {
                Some(full)
            } else {
                None
            }
        }
    }

    /// The package names an install path spells out and the walk finds, in
    /// order: level separators dropped, each scope joined with the name after it.
    pub open spec fn walk_names(&self, segs: Seq<Seq<char>>) -> Seq<Seq<char>>
        decreases segs.len(),
    {
        if segs.len() == 0 {
            Seq::empty()
        } else {
            let prev = self.walk_names(segs.drop_last());
            match self.step_name(self.walk_from(walk_start(), segs.drop_last()), segs.last()) {
                Some(n) => prev.push(n),
                None => prev,
            }
        }
    }
}

/// The names below the root down to `n` fold, one by one, like `names`.
pub open spec fn names_fold_alike(g: &Graph, n: nat, names: Seq<Seq<char>>) -> bool {
    let ns = g.names_below_root(n);
    &&& ns.len() == names.len()
    &&& forall|k: int| 0 <= k < ns.len() ==> case_key(#[trigger] ns[k]@) == case_key(names[k])
}

pub proof fn lemma_walk_names(g: &Graph, segs: Seq<Seq<char>>)
    requires
        g.wf(),
    ensures
        g.walk_from(walk_start(), segs).cur < g.len(),
        names_fold_alike(g, g.walk_from(walk_start(), segs).cur, g.walk_names(segs)),
    decreases segs.len(),
{
    if segs.len() > 0 {
        let p = segs.drop_last();
        let seg = segs.last();
        lemma_walk_names(g, p);
        let st = g.walk_from(walk_start(), p);
        let prev = g.walk_names(p);
        let ns = g.names_below_root(st.cur);
        match g.step_name(st, seg) {
            Some(n) => {
                let kids = g.nodes@[st.cur as int].children@;
                g.lemma_child_valid(st.cur, n);
                lemma_key_lookup_some(kids, n);
                let c = key_lookup(kids, n)->0;
                let j = choose|j: int|
                    0 <= j < kids.len() && case_key(#[trigger] kids[j].0@) == case_key(n)
                        && kids[j].1 == c;
                assert(g.node_wf(st.cur as int));
                assert(g.child_entry_ok(st.cur as int, kids[j]));
                assert(g.node_wf(c.index as int));
                let name_c = g.nodes@[c.index as int].package.name;
                assert(g.names_below_root(c.index as nat) == ns.push(name_c));
                assert(g.walk_from(walk_start(), segs).cur == c.index);
                let ns2 = ns.push(name_c);
                let names2 = prev.push(n);
                assert forall|k: int| 0 <= k < ns2.len() implies case_key(#[trigger] ns2[k]@)
                    == case_key(names2[k]) by {
                    if k < ns.len() {
                        assert(ns2[k] == ns[k]);
                        assert(case_key(ns[k]@) == case_key(prev[k]));
                    }
                }
            },
            None => {
                assert(g.walk_from(walk_start(), segs).cur == st.cur);
            },
        }
    }
}

/// A node found at an install path is the node that path names: the names
/// from just below the root down to it fold, one by one, like the names the
/// path spells out.
pub proof fn lemma_path_lookup_sound(g: &Graph, segs: Seq<Seq<char>>)
    requires
        g.wf(),
    ensures
        g.path_lookup(segs) matches Some(x) ==> x < g.len() && names_fold_alike(
            g,
            x,
            g.walk_names(segs),
        ),
{
    lemma_walk_names(g, segs);
}

} // verus!
