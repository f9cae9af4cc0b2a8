//! The path model of the library.
//!
//! A *local path* names an entry relative to a tree's logical root. It is
//! kept in normalized form: one or more non-empty components separated by
//! single `'/'` characters, with no leading and no trailing separator. The
//! empty string is not a valid local path; it is the sentinel for the tree
//! root itself (and, as a root path, the sentinel for "no physical backing").

use vstd::prelude::*;
use vstd::string::*;

verus! {

/// A normalized local path: non-empty, no leading or trailing separator,
/// and no two adjacent separators.
pub open spec fn valid_path(p: Seq<char>) -> bool {
    &&& p.len() > 0
    &&& p[0] != '/'
    &&& p[p.len() - 1] != '/'
    &&& forall|i: int| 0 < i < p.len() && p[i - 1] == '/' ==> (#[trigger] p[i]) != '/'
}

/// `a` names a strict ancestor directory of `b`: `b` starts with `a`
/// followed by a separator.
pub open spec fn is_ancestor(a: Seq<char>, b: Seq<char>) -> bool {
    &&& a.len() < b.len()
    &&& b.subrange(0, a.len() as int) == a
    &&& b[a.len() as int] == '/'
}

/// Index of the last separator of `p`, or `-1` if `p` has none.
pub open spec fn last_sep(p: Seq<char>) -> int
    decreases p.len(),
{
    if p.len() == 0 {
        -1
    } else if p[p.len() - 1] == '/' {
        p.len() - 1
    } else {
        last_sep(p.drop_last())
    }
}

/// The longest strict ancestor of `p`, or the empty sequence when `p` has a
/// single component.
pub open spec fn parent_path(p: Seq<char>) -> Seq<char> {
    if last_sep(p) <= 0 {
        Seq::empty()
    } else {
        p.subrange(0, last_sep(p))
    }
}

/// The final component of `p`.
pub open spec fn base_name(p: Seq<char>) -> Seq<char> {
    p.subrange(last_sep(p) + 1, p.len() as int)
}

/// A root path joined with a local path; an empty root is the identity.
pub open spec fn join_path(root: Seq<char>, local: Seq<char>) -> Seq<char> {
    if root.len() == 0 {
        local
    } else {
        root + seq!['/'] + local
    }
}

/// `last_sep` is a separator index and every later character is no separator.
pub proof fn lemma_last_sep_bounds(p: Seq<char>)
    ensures
        -1 <= last_sep(p) < p.len(),
        last_sep(p) >= 0 ==> p[last_sep(p)] == '/',
        forall|j: int| last_sep(p) < j < p.len() ==> (#[trigger] p[j]) != '/',
    decreases p.len(),
{
    if p.len() == 0 {
    } else if p[p.len() - 1] == '/' {
    } else {
        lemma_last_sep_bounds(p.drop_last());
        assert forall|j: int| last_sep(p) < j < p.len() implies (#[trigger] p[j]) != '/' by {
            if j < p.len() - 1 {
                assert(p.drop_last()[j] == p[j]);
            }
        }
        if last_sep(p) >= 0 {
            assert(p.drop_last()[last_sep(p.drop_last())] == p[last_sep(p)]);
        }
    }
}

/// A separator with no later separator is the last one.
pub proof fn lemma_last_sep_at(p: Seq<char>, k: int)
    requires
        0 <= k < p.len(),
        p[k] == '/',
        forall|j: int| k < j < p.len() ==> (#[trigger] p[j]) != '/',
    ensures
        last_sep(p) == k,
    decreases p.len(),
{
    if k == p.len() - 1 {
    } else {
        assert forall|j: int| k < j < p.drop_last().len() implies (#[trigger] p.drop_last()[j]) != '/' by {
            assert(p.drop_last()[j] == p[j]);
        }
        assert(p.drop_last()[k] == p[k]);
        lemma_last_sep_at(p.drop_last(), k);
    }
}

/// A sequence without separators has `last_sep` `-1`.
pub proof fn lemma_last_sep_none(p: Seq<char>)
    requires
        forall|j: int| 0 <= j < p.len() ==> (#[trigger] p[j]) != '/',
    ensures
        last_sep(p) == -1,
    decreases p.len(),
{
    if p.len() == 0 {
    } else {
        assert forall|j: int| 0 <= j < p.drop_last().len() implies (#[trigger] p.drop_last()[j]) != '/' by {
            assert(p.drop_last()[j] == p[j]);
        }
        lemma_last_sep_none(p.drop_last());
    }
}

/// The ancestor relation is transitive.
pub proof fn lemma_ancestor_trans(a: Seq<char>, b: Seq<char>, c: Seq<char>)
    requires
        is_ancestor(a, b),
        is_ancestor(b, c),
    ensures
        is_ancestor(a, c),
{
    assert forall|i: int| 0 <= i < b.len() implies c[i] == b[i] by {
        assert(c.subrange(0, b.len() as int)[i] == c[i]);
    }
    assert(c.subrange(0, a.len() as int) =~= a);
}

/// Two ancestors of one path are ordered by length.
pub proof fn lemma_ancestors_comparable(a: Seq<char>, b: Seq<char>, c: Seq<char>)
    requires
        is_ancestor(a, c),
        is_ancestor(b, c),
        a.len() < b.len(),
    ensures
        is_ancestor(a, b),
{
    assert forall|i: int| 0 <= i < a.len() implies c[i] == a[i] by {
        assert(c.subrange(0, a.len() as int)[i] == c[i]);
    }
    assert forall|i: int| 0 <= i < b.len() implies c[i] == b[i] by {
        assert(c.subrange(0, b.len() as int)[i] == c[i]);
    }
    assert(b.subrange(0, a.len() as int) =~= a);
    assert(b[a.len() as int] == c[a.len() as int]);
}

/// Two ancestors of one path with equal length are the same path.
pub proof fn lemma_ancestors_equal(a: Seq<char>, b: Seq<char>, c: Seq<char>)
    requires
        is_ancestor(a, c),
        is_ancestor(b, c),
        a.len() == b.len(),
    ensures
        a == b,
{
    assert(a =~= b);
}

/// Every ancestor of a valid path is itself a valid path.
pub proof fn lemma_ancestor_valid(a: Seq<char>, b: Seq<char>)
    requires
        valid_path(b),
        is_ancestor(a, b),
    ensures
        valid_path(a),
{
    assert forall|i: int| 0 <= i < a.len() implies b[i] == a[i] by {
        assert(b.subrange(0, a.len() as int)[i] == b[i]);
    }
    if a.len() == 0 {
        assert(b[0] == '/');
    }
    assert(a[a.len() - 1] == b[a.len() - 1]);
    assert(b[a.len() as int] == '/');
}

/// An ancestor ends just before a separator position of the longer path, so
/// its length is at most the index of the last separator.
pub proof fn lemma_ancestor_within_last_sep(a: Seq<char>, b: Seq<char>)
    requires
        is_ancestor(a, b),
    ensures
        a.len() <= last_sep(b),
    decreases b.len(),
{
    lemma_last_sep_bounds(b);
    if a.len() > last_sep(b) {
        assert(b[a.len() as int] != '/');
    }
}

/// For a valid path with a separator, the parent is its longest strict
/// ancestor.
pub proof fn lemma_parent_path(p: Seq<char>)
    requires
        valid_path(p),
    ensures
        last_sep(p) != 0,
        last_sep(p) > 0 ==> is_ancestor(parent_path(p), p) && parent_path(p).len() == last_sep(p),
        last_sep(p) < p.len() - 1,
        base_name(p).len() > 0,
{
    lemma_last_sep_bounds(p);
    if last_sep(p) == 0 {
        assert(p[0] == '/');
    }
    if last_sep(p) == p.len() - 1 {
        assert(p[p.len() - 1] == '/');
    }
    if last_sep(p) > 0 {
        assert(parent_path(p).len() == last_sep(p));
    }
}

/// The prefix of a valid path cut at a separator position is an ancestor.
pub proof fn lemma_prefix_at_sep(p: Seq<char>, k: int)
    requires
        0 <= k < p.len(),
        p[k] == '/',
    ensures
        is_ancestor(p.subrange(0, k), p),
{
    assert(p.subrange(0, k).len() == k);
}

/// Checks that a string is a normalized local path.
pub fn check_path(s: &str) -> (r: bool)
    ensures
        r == valid_path(s@),
{
    let n = s.unicode_len();
    if n == 0 {
        return false;
    }
    if s.get_char(0) == '/' {
        return false;
    }
    if s.get_char(n - 1) == '/' {
        return false;
    }
    let mut i: usize = 1;
    while i < n
        invariant
            1 <= i <= n,
            n == s@.len(),
            s@[0] != '/',
            s@[n - 1] != '/',
            forall|j: int| 0 < j < i && s@[j - 1] == '/' ==> (#[trigger] s@[j]) != '/',
        decreases n - i,
    {
        if s.get_char(i) == '/' && s.get_char(i - 1) == '/' {
            return false;
        }
        i += 1;
    }
    true
}

/// Decides the strict-ancestor relation on two path strings.
pub fn is_ancestor_path(a: &str, b: &str) -> (r: bool)
    ensures
        r == is_ancestor(a@, b@),
{
    let alen = a.unicode_len();
    let blen = b.unicode_len();
    if alen >= blen {
        return false;
    }
    if b.get_char(alen) != '/' {
        return false;
    }
    let mut i: usize = 0;
    while i < alen
        invariant
            i <= alen,
            alen == a@.len(),
            blen == b@.len(),
            alen < blen,
            forall|j: int| 0 <= j < i ==> a@[j] == (#[trigger] b@[j]),
        decreases alen - i,
    {
        if a.get_char(i) != b.get_char(i) {
            proof {
                assert(b@.subrange(0, a@.len() as int)[i as int] == b@[i as int]);
            }
            return false;
        }
        i += 1;
    }
    proof {
        assert(b@.subrange(0, a@.len() as int) =~= a@);
    }
    true
}

/// Index of the last separator of a path string, if any.
pub fn last_sep_index(s: &str) -> (r: Option<usize>)
    ensures
        match r {
            Some(k) => k < s@.len() && k as int == last_sep(s@),
            None => last_sep(s@) == -1,
        },
{
    let n = s.unicode_len();
    let mut i: usize = n;
    while i > 0
        invariant
            i <= n,
            n == s@.len(),
            forall|j: int| i <= j < n ==> (#[trigger] s@[j]) != '/',
        decreases i,
    {
        if s.get_char(i - 1) == '/' {
            proof {
                lemma_last_sep_at(s@, i - 1);
            }
            return Some(i - 1);
        }
        i -= 1;
    }
    proof {
        lemma_last_sep_none(s@);
    }
    None
}

/// The final component of a path string.
pub fn base_name_of(s: &str) -> (r: String)
    ensures
        r@ == base_name(s@),
{
    let n = s.unicode_len();
    match last_sep_index(s) {
        Some(k) => s.substring_char(k + 1, n).to_owned(),
        None => {
            proof {
                assert(base_name(s@) =~= s@);
            }
            s.to_owned()
        },
    }
}

/// The parent of a path string; the empty string for a single component.
pub fn parent_of(s: &str) -> (r: String)
    ensures
        r@ == parent_path(s@),
{
    match last_sep_index(s) {
        Some(k) => {
            if k == 0 {
                String::new()
            } else {
                s.substring_char(0, k).to_owned()
            }
        },
        None => String::new(),
    }
}

/// Joins a root path and a local path with a separator; an empty root is the
/// identity.
pub fn join_paths(root: &str, local: &str) -> (r: String)
    ensures
        r@ == join_path(root@, local@),
{
    if root.unicode_len() == 0 {
        local.to_owned()
    } else {
        let mut out = root.to_owned();
        out.append("/");
        out.append(local);
        proof {
            reveal_strlit("/");
            assert(("/")@ =~= seq!['/']);
        }
        out
    }
}

} // verus!
