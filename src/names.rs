use vstd::prelude::*;

verus! {

/// The case-folded form under which `unicase` compares two names.
pub uninterp spec fn case_key(s: Seq<char>) -> Seq<char>;

/// Relies on `unicase::eq`: it holds exactly when both strings fold to the same
/// case-insensitive form.
#[verifier::external_body]
pub(crate) fn names_match(a: &str, b: &str) -> (r: bool)
    ensures
        r == (case_key(a@) == case_key(b@)),
{
    unicase::eq(a, b)
}

/// Whether `s` begins with the character `c`.
pub fn starts_with_char(s: &str, c: char) -> (r: bool)
    ensures
        r == (s@.len() > 0 && s@[0] == c),
{
    s.unicode_len() > 0 && s.get_char(0) == c
}


/// Lexicographic order of character sequences, by code point.
pub open spec fn seq_less(a: Seq<char>, b: Seq<char>) -> bool
    decreases a.len(),
{
    if a.len() == 0 {
        b.len() > 0
    } else if b.len() == 0 {
        false
    } else if a[0] != b[0] {
        (a[0] as int) < (b[0] as int)
    } else {
        seq_less(a.drop_first(), b.drop_first())
    }
}

/// Case-insensitive name order: the folded forms compared lexicographically.
pub open spec fn name_less(a: Seq<char>, b: Seq<char>) -> bool {
    seq_less(case_key(a), case_key(b))
}

/// Relies on `Ord for UniCase`: it compares the folded forms character by
/// character.
#[verifier::external_body]
pub(crate) fn name_before(a: &str, b: &str) -> (r: bool)
    ensures
        r == name_less(a@, b@),
{
    unicase::UniCase::new(a) < unicase::UniCase::new(b)
}

/// `s` with `x` inserted after every entry whose name does not sort after
/// `x`'s name.
pub open spec fn insert_by_name<T>(s: Seq<(String, T)>, x: (String, T)) -> Seq<(String, T)>
    decreases s.len(),
{
    if s.len() == 0 {
        seq![x]
    } else if name_less(x.0@, s.last().0@) {
        insert_by_name(s.drop_last(), x).push(s.last())
    } else {
        s.push(x)
    }
}

/// `s` with `x` inserted after every entry whose key does not sort after `x`'s key.
pub open spec fn insert_by_key<T>(s: Seq<(Seq<char>, T)>, x: (Seq<char>, T)) -> Seq<(Seq<char>, T)>
    decreases s.len(),
{
    if s.len() == 0 {
        seq![x]
    } else if name_less(x.0, s.last().0) {
        insert_by_key(s.drop_last(), x).push(s.last())
    } else {
        s.push(x)
    }
}

/// Inserts `x` into a list kept in name order; among equal names, the
/// earlier insertion stays first.
pub fn insert_sorted<T>(v: &mut Vec<(String, T)>, x: (String, T))
    ensures
        final(v)@ == insert_by_name(old(v)@, x),
{
    let ghost s = v@;
    let mut j: usize = v.len();
    assert(s.subrange(0, j as int) + s.subrange(j as int, s.len() as int) =~= s);
    while j > 0 && name_before(x.0.as_str(), v[j - 1].0.as_str())
        invariant
            v@ == s,
            j <= s.len(),
            insert_by_name(s, x) == insert_by_name(s.subrange(0, j as int), x) + s.subrange(
                j as int,
                s.len() as int,
            ),
        decreases j,
    {
        let ghost pre = s.subrange(0, j as int);
        assert(pre.drop_last() =~= s.subrange(0, j - 1));
        assert(pre.last() == s[j - 1]);
        assert(insert_by_name(s.subrange(0, j - 1), x).push(s[j - 1]) + s.subrange(
            j as int,
            s.len() as int,
        ) =~= insert_by_name(s.subrange(0, j - 1), x) + s.subrange(j - 1, s.len() as int));
        j = j - 1;
    }
    let ghost pre = s.subrange(0, j as int);
    if j > 0 {
        assert(pre.last() == s[j - 1]);
    }
    assert(insert_by_name(pre, x) + s.subrange(j as int, s.len() as int) =~= s.insert(j as int, x));
    v.insert(j, x);
}


pub proof fn lemma_seq_less_irreflexive(a: Seq<char>)
    ensures
        !seq_less(a, a),
    decreases a.len(),
{
    if a.len() > 0 {
        lemma_seq_less_irreflexive(a.drop_first());
    }
}

pub proof fn lemma_seq_less_transitive(a: Seq<char>, b: Seq<char>, c: Seq<char>)
    requires
        seq_less(a, b),
        seq_less(b, c),
    ensures
        seq_less(a, c),
    decreases a.len(),
{
    if a.len() > 0 && b.len() > 0 && c.len() > 0 && a[0] == b[0] && b[0] == c[0] {
        lemma_seq_less_transitive(a.drop_first(), b.drop_first(), c.drop_first());
    }
}

pub proof fn lemma_seq_less_total(a: Seq<char>, b: Seq<char>)
    requires
        a != b,
    ensures
        seq_less(a, b) || seq_less(b, a),
    decreases a.len(),
{
    if a.len() == 0 {
        if b.len() == 0 {
            assert(a =~= b);
        }
    } else if b.len() > 0 {
        if a[0] == b[0] {
            if a.drop_first() == b.drop_first() {
                assert(a =~= seq![a[0]] + a.drop_first());
                assert(b =~= seq![b[0]] + b.drop_first());
            }
            lemma_seq_less_total(a.drop_first(), b.drop_first());
        } else {
            assert((a[0] as int) != (b[0] as int));
        }
    }
}

/// Entries appear in non-decreasing name order.
pub open spec fn sorted_by_key<T>(s: Seq<(Seq<char>, T)>) -> bool {
    forall|i: int, j: int| 0 <= i < j < s.len() ==> !name_less(#[trigger] s[j].0, #[trigger] s[i].0)
}

/// Entries appear in non-decreasing name order.
pub open spec fn sorted_by_name<T>(s: Seq<(String, T)>) -> bool {
    forall|i: int, j: int| 0 <= i < j < s.len() ==> !name_less(#[trigger] s[j].0@, #[trigger] s[i].0@)
}

/// Not after, in name order, is transitive.
pub proof fn lemma_name_le_transitive(a: Seq<char>, b: Seq<char>, c: Seq<char>)
    requires
        !name_less(b, a),
        !name_less(c, b),
    ensures
        !name_less(c, a),
{
    if name_less(c, a) {
        if case_key(a) == case_key(b) {
        } else {
            lemma_seq_less_total(case_key(a), case_key(b));
            lemma_seq_less_transitive(case_key(c), case_key(a), case_key(b));
        }
    }
}

pub proof fn lemma_name_less_asymmetric(a: Seq<char>, b: Seq<char>)
    requires
        name_less(a, b),
    ensures
        !name_less(b, a),
{
    if name_less(b, a) {
        lemma_seq_less_transitive(case_key(a), case_key(b), case_key(a));
        lemma_seq_less_irreflexive(case_key(a));
    }
}

/// Inserting by key keeps a list sorted, and adds exactly the new entry.
pub proof fn lemma_insert_by_key_sorted<T>(s: Seq<(Seq<char>, T)>, x: (Seq<char>, T))
    requires
        sorted_by_key(s),
    ensures
        sorted_by_key(insert_by_key(s, x)),
        insert_by_key(s, x).len() == s.len() + 1,
        forall|k: int|
            0 <= k < s.len() + 1 ==> #[trigger] insert_by_key(s, x)[k] == x || exists|m: int|
                0 <= m < s.len() && s[m] == insert_by_key(s, x)[k],
    decreases s.len(),
{
    let r = insert_by_key(s, x);
    if s.len() > 0 {
        let l = s.last();
        let p = s.drop_last();
        assert(sorted_by_key(p)) by {
            assert forall|i: int, j: int| 0 <= i < j < p.len() implies !name_less(
                #[trigger] p[j].0,
                #[trigger] p[i].0,
            ) by {
                assert(p[i] == s[i] && p[j] == s[j]);
            }
        }
        if name_less(x.0, l.0) {
            lemma_insert_by_key_sorted(p, x);
            let q = insert_by_key(p, x);
            assert forall|k: int| 0 <= k < s.len() + 1 implies #[trigger] r[k] == x || exists|m: int|
                0 <= m < s.len() && s[m] == r[k] by {
                if k < q.len() {
                    assert(r[k] == q[k]);
                    if q[k] != x {
                        let m = choose|m: int| 0 <= m < p.len() && p[m] == q[k];
                        assert(s[m] == p[m]);
                    }
                } else {
                    assert(s[s.len() - 1] == r[k]);
                }
            }
            assert forall|i: int, j: int| 0 <= i < j < r.len() implies !name_less(
                #[trigger] r[j].0,
                #[trigger] r[i].0,
            ) by {
                assert(r[i] == q[i]);
                if j < q.len() {
                    assert(r[j] == q[j]);
                } else {
                    assert(r[j] == l);
                    if q[i] == x {
                        lemma_name_less_asymmetric(x.0, l.0);
                    } else {
                        let m = choose|m: int| 0 <= m < p.len() && p[m] == q[i];
                        assert(s[m] == p[m]);
                    }
                }
            }
        } else {
            assert forall|k: int| 0 <= k < s.len() + 1 implies #[trigger] r[k] == x || exists|m: int|
                0 <= m < s.len() && s[m] == r[k] by {
                if k < s.len() {
                    assert(s[k] == r[k]);
                }
            }
            assert forall|i: int, j: int| 0 <= i < j < r.len() implies !name_less(
                #[trigger] r[j].0,
                #[trigger] r[i].0,
            ) by {
                assert(r[i] == s[i]);
                if j < s.len() {
                    assert(r[j] == s[j]);
                } else {
                    if i < s.len() - 1 {
                        assert(!name_less(s[s.len() - 1].0, s[i].0));
                    } else {
                        lemma_seq_less_irreflexive(case_key(l.0));
                    }
                    lemma_name_le_transitive(s[i].0, l.0, x.0);
                }
            }
        }
    } else {
        assert(r[0] == x);
    }
}

/// Inserting by name keeps a list sorted, and adds exactly the new entry.
pub proof fn lemma_insert_by_name_sorted<T>(s: Seq<(String, T)>, x: (String, T))
    requires
        sorted_by_name(s),
    ensures
        sorted_by_name(insert_by_name(s, x)),
        insert_by_name(s, x).len() == s.len() + 1,
        forall|k: int|
            0 <= k < s.len() + 1 ==> #[trigger] insert_by_name(s, x)[k] == x || exists|m: int|
                0 <= m < s.len() && s[m] == insert_by_name(s, x)[k],
    decreases s.len(),
{
    let r = insert_by_name(s, x);
    if s.len() > 0 {
        let l = s.last();
        let p = s.drop_last();
        assert(sorted_by_name(p)) by {
            assert forall|i: int, j: int| 0 <= i < j < p.len() implies !name_less(
                #[trigger] p[j].0@,
                #[trigger] p[i].0@,
            ) by {
                assert(p[i] == s[i] && p[j] == s[j]);
            }
        }
        if name_less(x.0@, l.0@) {
            lemma_insert_by_name_sorted(p, x);
            let q = insert_by_name(p, x);
            assert forall|k: int| 0 <= k < s.len() + 1 implies #[trigger] r[k] == x || exists|m: int|
                0 <= m < s.len() && s[m] == r[k] by {
                if k < q.len() {
                    assert(r[k] == q[k]);
                    if q[k] != x {
                        let m = choose|m: int| 0 <= m < p.len() && p[m] == q[k];
                        assert(s[m] == p[m]);
                    }
                } else {
                    assert(s[s.len() - 1] == r[k]);
                }
            }
            assert forall|i: int, j: int| 0 <= i < j < r.len() implies !name_less(
                #[trigger] r[j].0@,
                #[trigger] r[i].0@,
            ) by {
                assert(r[i] == q[i]);
                if j < q.len() {
                    assert(r[j] == q[j]);
                } else {
                    assert(r[j] == l);
                    if q[i] == x {
                        lemma_name_less_asymmetric(x.0@, l.0@);
                    } else {
                        let m = choose|m: int| 0 <= m < p.len() && p[m] == q[i];
                        assert(s[m] == p[m]);
                    }
                }
            }
        } else {
            assert forall|k: int| 0 <= k < s.len() + 1 implies #[trigger] r[k] == x || exists|m: int|
                0 <= m < s.len() && s[m] == r[k] by {
                if k < s.len() {
                    assert(s[k] == r[k]);
                }
            }
            assert forall|i: int, j: int| 0 <= i < j < r.len() implies !name_less(
                #[trigger] r[j].0@,
                #[trigger] r[i].0@,
            ) by {
                assert(r[i] == s[i]);
                if j < s.len() {
                    assert(r[j] == s[j]);
                } else {
                    if i < s.len() - 1 {
                        assert(!name_less(s[s.len() - 1].0@, s[i].0@));
                    } else {
                        lemma_seq_less_irreflexive(case_key(l.0@));
                    }
                    lemma_name_le_transitive(s[i].0@, l.0@, x.0@);
                }
            }
        }
    } else {
        assert(r[0] == x);
    }
}


/// Inserting by key adds exactly the new entry and keeps every other one.
pub proof fn lemma_insert_by_key_multiset<T>(s: Seq<(Seq<char>, T)>, x: (Seq<char>, T))
    ensures
        insert_by_key(s, x).to_multiset() =~= s.to_multiset().insert(x),
    decreases s.len(),
{
    if s.len() == 0 {
        assert(seq![x] =~= s.push(x));
        vstd::seq_lib::to_multiset_build(s, x);
    } else {
        let p = s.drop_last();
        let l = s.last();
        assert(s =~= p.push(l));
        vstd::seq_lib::to_multiset_build(p, l);
        if name_less(x.0, l.0) {
            lemma_insert_by_key_multiset(p, x);
            vstd::seq_lib::to_multiset_build(insert_by_key(p, x), l);
        } else {
            vstd::seq_lib::to_multiset_build(s, x);
        }
    }
}

/// Inserting by name adds exactly the new entry and keeps every other one.
pub proof fn lemma_insert_by_name_multiset<T>(s: Seq<(String, T)>, x: (String, T))
    ensures
        insert_by_name(s, x).to_multiset() =~= s.to_multiset().insert(x),
    decreases s.len(),
{
    if s.len() == 0 {
        assert(seq![x] =~= s.push(x));
        vstd::seq_lib::to_multiset_build(s, x);
    } else {
        let p = s.drop_last();
        let l = s.last();
        assert(s =~= p.push(l));
        vstd::seq_lib::to_multiset_build(p, l);
        if name_less(x.0@, l.0@) {
            lemma_insert_by_name_multiset(p, x);
            vstd::seq_lib::to_multiset_build(insert_by_name(p, x), l);
        } else {
            vstd::seq_lib::to_multiset_build(s, x);
        }
    }
}

} // verus!
