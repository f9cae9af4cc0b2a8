//! The path-keyed file tree.
//!
//! A [`Tree`] records, for every known file or directory, which physical
//! root backs it. It is kept as a table of entries over normalized local
//! paths with three structural invariants: local paths are unique, the table
//! is prefix-closed (every strict ancestor of an entry is itself an entry),
//! and every ancestor stands before its descendants, so a plain walk of the
//! table visits parents before children.

use crate::loader::FileLoader;
use crate::paths::{
    base_name, base_name_of, is_ancestor, is_ancestor_path, lemma_ancestor_trans,
    lemma_ancestor_valid, valid_path,
};
use crate::FileEntryType;
use vstd::prelude::*;

pub mod loader;
pub mod node;

use node::Node;

verus! {

/// Errors of tree construction and ingestion.
#[derive(Debug, Clone, PartialEq)]
pub enum TreeError {
    /// A path that the loader reports as missing was asked for bytes.
    PathDoesNotExist(String),
    /// A string with no usable file-name component was given where a local
    /// path was needed.
    NoFileName(String),
    /// An incoming file (the first full path) collided, under the strict
    /// conflict policy, with the occupant (the second full path) that
    /// already owns its local path.
    OwnedPath(String, String),
}

/// The view of one tree entry: the node's key, local path and root path,
/// and whether the entry is a file or a directory.
pub ghost struct EntryView {
    pub name: Seq<char>,
    pub local: Seq<char>,
    pub root: Seq<char>,
    pub ty: FileEntryType,
}

/// One entry of a tree: a node and its classification.
pub struct TreeEntry {
    pub node: Node,
    pub entry_type: FileEntryType,
}

impl View for TreeEntry {
    type V = EntryView;

    open spec fn view(&self) -> EntryView {
        EntryView {
            name: self.node@.name,
            local: self.node@.local,
            root: self.node@.root,
            ty: self.entry_type,
        }
    }
}

impl Clone for TreeEntry {
    fn clone(&self) -> (r: Self)
        ensures
            r == *self,
    {
        TreeEntry { node: self.node.clone(), entry_type: self.entry_type }
    }
}

/// The entry a directory is recorded with: no physical backing.
pub open spec fn dir_entry(local: Seq<char>) -> EntryView {
    EntryView {
        name: base_name(local),
        local: local,
        root: Seq::empty(),
        ty: FileEntryType::Directory,
    }
}

/// Some entry of `s` occupies the local path `l`.
pub open spec fn has_path(s: Seq<EntryView>, l: Seq<char>) -> bool {
    exists|i: int| 0 <= i < s.len() && (#[trigger] s[i]).local == l
}

/// The index of the entry occupying `l` (meaningful under `entries_wf`).
pub open spec fn index_of(s: Seq<EntryView>, l: Seq<char>) -> int {
    choose|i: int| 0 <= i < s.len() && (#[trigger] s[i]).local == l
}

/// The entry occupying `l` (meaningful under `entries_wf` and `has_path`).
pub open spec fn entry_at(s: Seq<EntryView>, l: Seq<char>) -> EntryView {
    s[index_of(s, l)]
}

/// The entry occupying `l`, if any.
pub open spec fn lookup(s: Seq<EntryView>, l: Seq<char>) -> Option<EntryView> {
    if has_path(s, l) {
        Some(entry_at(s, l))
    } else {
        None
    }
}

/// Well-formedness of an entry table:
/// - every local path is normalized and every key is its final component;
/// - directories carry no physical root;
/// - at most one entry occupies any local path;
/// - the table is prefix-closed: every strict ancestor of an entry's local
///   path is occupied too;
/// - every ancestor stands before each of its descendants.
pub open spec fn entries_wf(s: Seq<EntryView>) -> bool {
    &&& forall|i: int| 0 <= i < s.len() ==> valid_path((#[trigger] s[i]).local)
    &&& forall|i: int| 0 <= i < s.len() ==> (#[trigger] s[i]).name == base_name(s[i].local)
    &&& forall|i: int| 0 <= i < s.len() && (#[trigger] s[i]).ty is Directory ==> s[i].root.len()
        == 0
    &&& forall|i: int, j: int|
        0 <= i < s.len() && 0 <= j < s.len() && i != j ==> (#[trigger] s[i]).local != (
        #[trigger] s[j]).local
    &&& forall|i: int, a: Seq<char>|
        0 <= i < s.len() && #[trigger] is_ancestor(a, s[i].local) ==> has_path(s, a)
    &&& forall|i: int, j: int|
        0 <= i < s.len() && 0 <= j < s.len() && #[trigger] is_ancestor(s[i].local, s[j].local)
            ==> i < j
}

/// Whether an entry at local path `el` is swept away by a removal or a
/// replacement at `l`: it is `l` itself or a strict descendant of `l`.
pub open spec fn covered_by(el: Seq<char>, l: Seq<char>) -> bool {
    el == l || is_ancestor(l, el)
}

/// The table with the entry at `l` and all of its descendants removed; the
/// other entries keep their relative order.
pub open spec fn seq_remove_covered(s: Seq<EntryView>, l: Seq<char>) -> Seq<EntryView>
    decreases s.len(),
{
    if s.len() == 0 {
        s
    } else {
        let rest = seq_remove_covered(s.drop_last(), l);
        if covered_by(s.last().local, l) {
            rest
        } else {
            rest.push(s.last())
        }
    }
}

/// Directory entries for the ancestors of `l` that are absent from `s`,
/// shortest first, cut at separators before position `k` of `l`.
pub open spec fn missing_ancestors(s: Seq<EntryView>, l: Seq<char>, k: int) -> Seq<EntryView>
    decreases k,
{
    if k <= 0 {
        Seq::empty()
    } else {
        let pre = missing_ancestors(s, l, k - 1);
        if l[k - 1] == '/' && !has_path(s, l.subrange(0, k - 1)) {
            pre.push(dir_entry(l.subrange(0, k - 1)))
        } else {
            pre
        }
    }
}

/// The entry an insert records: files are bound to the given root,
/// directories to the empty sentinel.
pub open spec fn new_entry(root: Seq<char>, local: Seq<char>, ty: FileEntryType) -> EntryView {
    EntryView {
        name: base_name(local),
        local: local,
        root: if ty is File {
            root
        } else {
            Seq::empty()
        },
        ty: ty,
    }
}

/// The table after an unchecked insert at `l`: the previous occupant of `l`
/// and its whole subtree are dropped, directory entries for absent ancestors
/// of `l` are appended shortest first, and the new entry comes last.
pub open spec fn insert_result(
    s: Seq<EntryView>,
    root: Seq<char>,
    l: Seq<char>,
    ty: FileEntryType,
) -> Seq<EntryView> {
    let w = seq_remove_covered(s, l);
    w + missing_ancestors(w, l, l.len() as int) + seq![new_entry(root, l, ty)]
}

/// Every kept entry of `seq_remove_covered` comes from the original table
/// and is not covered.
pub proof fn lemma_remove_covered_member(s: Seq<EntryView>, l: Seq<char>, p: int)
    requires
        0 <= p < seq_remove_covered(s, l).len(),
    ensures
        exists|q: int|
            0 <= q < s.len() && s[q] == seq_remove_covered(s, l)[p] && !covered_by(
                (#[trigger] s[q]).local,
                l,
            ),
    decreases s.len(),
{
    let w = seq_remove_covered(s, l);
    if s.len() == 0 {
    } else {
        let rest = seq_remove_covered(s.drop_last(), l);
        if covered_by(s.last().local, l) {
            lemma_remove_covered_member(s.drop_last(), l, p);
            let q = choose|q: int|
                0 <= q < s.drop_last().len() && s.drop_last()[q] == rest[p] && !covered_by(
                    (#[trigger] s.drop_last()[q]).local,
                    l,
                );
            assert(s[q] == s.drop_last()[q]);
        } else {
            if p == w.len() - 1 {
                assert(s[s.len() - 1] == w[p] && !covered_by(s[s.len() - 1].local, l));
            } else {
                lemma_remove_covered_member(s.drop_last(), l, p);
                let q = choose|q: int|
                    0 <= q < s.drop_last().len() && s.drop_last()[q] == rest[p] && !covered_by(
                        (#[trigger] s.drop_last()[q]).local,
                        l,
                    );
                assert(s[q] == s.drop_last()[q]);
            }
        }
    }
}

/// Two kept entries of `seq_remove_covered` come from the original table in
/// the same relative order.
pub proof fn lemma_remove_covered_pairs(s: Seq<EntryView>, l: Seq<char>, p1: int, p2: int)
    requires
        0 <= p1 < p2 < seq_remove_covered(s, l).len(),
    ensures
        exists|q1: int, q2: int|
            0 <= q1 < q2 < s.len() && (#[trigger] s[q1]) == seq_remove_covered(s, l)[p1] && (
            #[trigger] s[q2]) == seq_remove_covered(s, l)[p2],
    decreases s.len(),
{
    let w = seq_remove_covered(s, l);
    if s.len() == 0 {
    } else {
        let rest = seq_remove_covered(s.drop_last(), l);
        if covered_by(s.last().local, l) {
            lemma_remove_covered_pairs(s.drop_last(), l, p1, p2);
            let (q1, q2) = choose|q1: int, q2: int|
                0 <= q1 < q2 < s.drop_last().len() && (#[trigger] s.drop_last()[q1]) == rest[p1]
                    && (#[trigger] s.drop_last()[q2]) == rest[p2];
            assert(s[q1] == s.drop_last()[q1] && s[q2] == s.drop_last()[q2]);
        } else {
            if p2 == w.len() - 1 {
                lemma_remove_covered_member(s.drop_last(), l, p1);
                let q1 = choose|q: int|
                    0 <= q < s.drop_last().len() && s.drop_last()[q] == rest[p1] && !covered_by(
                        (#[trigger] s.drop_last()[q]).local,
                        l,
                    );
                assert(s[q1] == s.drop_last()[q1]);
                assert(s[s.len() - 1] == w[p2]);
            } else {
                lemma_remove_covered_pairs(s.drop_last(), l, p1, p2);
                let (q1, q2) = choose|q1: int, q2: int|
                    0 <= q1 < q2 < s.drop_last().len() && (#[trigger] s.drop_last()[q1])
                        == rest[p1] && (#[trigger] s.drop_last()[q2]) == rest[p2];
                assert(s[q1] == s.drop_last()[q1] && s[q2] == s.drop_last()[q2]);
            }
        }
    }
}

/// Every entry of the original table that is not covered is kept.
pub proof fn lemma_remove_covered_keeps(s: Seq<EntryView>, l: Seq<char>, q: int)
    requires
        0 <= q < s.len(),
        !covered_by(s[q].local, l),
    ensures
        exists|p: int|
            0 <= p < seq_remove_covered(s, l).len() && (#[trigger] seq_remove_covered(s, l)[p])
                == s[q],
    decreases s.len(),
{
    let w = seq_remove_covered(s, l);
    if s.len() == 0 {
    } else {
        let rest = seq_remove_covered(s.drop_last(), l);
        if q == s.len() - 1 {
            assert(w[w.len() - 1] == s[q]);
        } else {
            assert(s.drop_last()[q] == s[q]);
            lemma_remove_covered_keeps(s.drop_last(), l, q);
            let p = choose|p: int| 0 <= p < rest.len() && (#[trigger] rest[p]) == s[q];
            assert(w[p] == s[q]);
        }
    }
}

/// The full characterization of `seq_remove_covered` on a well-formed table:
/// it is well-formed, keeps exactly the uncovered paths, and leaves their
/// entries unchanged.
pub proof fn lemma_remove_covered_wf(s: Seq<EntryView>, l: Seq<char>)
    requires
        entries_wf(s),
    ensures
        entries_wf(seq_remove_covered(s, l)),
        forall|p: Seq<char>| #[trigger]
            has_path(seq_remove_covered(s, l), p) <==> (has_path(s, p) && !covered_by(p, l)),
        forall|p: Seq<char>| #[trigger]
            has_path(seq_remove_covered(s, l), p) ==> entry_at(seq_remove_covered(s, l), p)
                == entry_at(s, p),
{
    let w = seq_remove_covered(s, l);
    // membership, both directions
    assert forall|p: Seq<char>| #[trigger]
        has_path(w, p) implies (has_path(s, p) && !covered_by(p, l)) by {
        let i = choose|i: int| 0 <= i < w.len() && (#[trigger] w[i]).local == p;
        lemma_remove_covered_member(s, l, i);
        let q = choose|q: int|
            0 <= q < s.len() && s[q] == w[i] && !covered_by((#[trigger] s[q]).local, l);
        assert(0 <= q < s.len() && s[q].local == p);
    }
    assert forall|p: Seq<char>| has_path(s, p) && !covered_by(p, l) implies #[trigger] has_path(
        w,
        p,
    ) by {
        let q = choose|q: int| 0 <= q < s.len() && (#[trigger] s[q]).local == p;
        lemma_remove_covered_keeps(s, l, q);
        let i = choose|i: int| 0 <= i < w.len() && (#[trigger] w[i]) == s[q];
        assert(0 <= i < w.len() && w[i].local == p);
    }
    // per-index facts of w
    assert forall|i: int| 0 <= i < w.len() implies valid_path((#[trigger] w[i]).local) && w[i].name
        == base_name(w[i].local) && (w[i].ty is Directory ==> w[i].root.len() == 0) && !covered_by(
        w[i].local,
        l,
    ) && has_path(s, w[i].local) && entry_at(s, w[i].local) == w[i] by {
        lemma_remove_covered_member(s, l, i);
        let q = choose|q: int|
            0 <= q < s.len() && s[q] == w[i] && !covered_by((#[trigger] s[q]).local, l);
        lemma_entry_at(s, q);
    }
    // uniqueness of w
    assert forall|i: int, j: int|
        0 <= i < w.len() && 0 <= j < w.len() && i != j implies (#[trigger] w[i]).local != (
    #[trigger] w[j]).local by {
        let (a, b) = if i < j {
            (i, j)
        } else {
            (j, i)
        };
        lemma_remove_covered_pairs(s, l, a, b);
        let (q1, q2) = choose|q1: int, q2: int|
            0 <= q1 < q2 < s.len() && (#[trigger] s[q1]) == w[a] && (#[trigger] s[q2]) == w[b];
        assert(s[q1].local != s[q2].local);
    }
    // prefix closure of w
    assert forall|i: int, a: Seq<char>|
        0 <= i < w.len() && #[trigger] is_ancestor(a, w[i].local) implies has_path(w, a) by {
        assert(has_path(s, w[i].local));
        let q = index_of(s, w[i].local);
        assert(is_ancestor(a, s[q].local));
        assert(has_path(s, a));
        if covered_by(a, l) {
            if a == l {
                assert(is_ancestor(l, w[i].local));
            } else {
                lemma_ancestor_trans(l, a, w[i].local);
            }
            assert(covered_by(w[i].local, l));
            assert(false);
        }
    }
    // order of w
    assert forall|i: int, j: int|
        0 <= i < w.len() && 0 <= j < w.len() && #[trigger] is_ancestor(
            w[i].local,
            w[j].local,
        ) implies i < j by {
        if i == j {
            assert(w[i].local.len() < w[j].local.len());
        } else if j < i {
            lemma_remove_covered_pairs(s, l, j, i);
            let (q1, q2) = choose|q1: int, q2: int|
                0 <= q1 < q2 < s.len() && (#[trigger] s[q1]) == w[j] && (#[trigger] s[q2]) == w[i];
            assert(is_ancestor(s[q2].local, s[q1].local));
            assert(q2 < q1);
        }
    }
    // entries unchanged
    assert forall|p: Seq<char>| #[trigger] has_path(w, p) implies entry_at(w, p) == entry_at(
        s,
        p,
    ) by {
        let i = index_of(w, p);
        assert(0 <= i < w.len() && w[i].local == p);
        assert(entry_at(s, w[i].local) == w[i]);
        // uniqueness of w locals makes index_of(w, p) the found index
        let j = index_of(w, p);
        assert(w[j].local == p);
    }
}

/// Every created ancestor entry is a directory for an absent ancestor of
/// `l`, cut at a separator.
pub proof fn lemma_missing_member(s: Seq<EntryView>, l: Seq<char>, k: int, p: int)
    requires
        0 <= p < missing_ancestors(s, l, k).len(),
        k <= l.len(),
    ensures
        exists|m: int|
            0 <= m < k && l[m] == '/' && missing_ancestors(s, l, k)[p] == dir_entry(
                #[trigger] l.subrange(0, m),
            ) && !has_path(s, l.subrange(0, m)),
    decreases k,
{
    let ma = missing_ancestors(s, l, k);
    if k <= 0 {
    } else {
        let pre = missing_ancestors(s, l, k - 1);
        if l[k - 1] == '/' && !has_path(s, l.subrange(0, k - 1)) && p == ma.len() - 1 {
            assert(ma[p] == dir_entry(l.subrange(0, k - 1)));
        } else {
            lemma_missing_member(s, l, k - 1, p);
            let m = choose|m: int|
                0 <= m < k - 1 && l[m] == '/' && pre[p] == dir_entry(
                    #[trigger] l.subrange(0, m),
                ) && !has_path(s, l.subrange(0, m));
            assert(ma[p] == dir_entry(l.subrange(0, m)));
        }
    }
}

/// Created ancestor entries come shortest first.
pub proof fn lemma_missing_pairs(s: Seq<EntryView>, l: Seq<char>, k: int, p1: int, p2: int)
    requires
        0 <= p1 < p2 < missing_ancestors(s, l, k).len(),
        k <= l.len(),
    ensures
        missing_ancestors(s, l, k)[p1].local.len() < missing_ancestors(s, l, k)[p2].local.len(),
    decreases k,
{
    let ma = missing_ancestors(s, l, k);
    if k <= 0 {
    } else {
        let pre = missing_ancestors(s, l, k - 1);
        if l[k - 1] == '/' && !has_path(s, l.subrange(0, k - 1)) && p2 == ma.len() - 1 {
            lemma_missing_member(s, l, k - 1, p1);
            let m = choose|m: int|
                0 <= m < k - 1 && l[m] == '/' && pre[p1] == dir_entry(
                    #[trigger] l.subrange(0, m),
                ) && !has_path(s, l.subrange(0, m));
            assert(ma[p1].local.len() == m);
            assert(ma[p2].local.len() == k - 1);
        } else {
            lemma_missing_pairs(s, l, k - 1, p1, p2);
        }
    }
}

/// Every absent ancestor cut at a separator is created.
pub proof fn lemma_missing_has(s: Seq<EntryView>, l: Seq<char>, k: int, m: int)
    requires
        0 <= m < k <= l.len(),
        l[m] == '/',
        !has_path(s, l.subrange(0, m)),
    ensures
        exists|p: int|
            0 <= p < missing_ancestors(s, l, k).len() && (#[trigger] missing_ancestors(s, l, k)[p])
                == dir_entry(l.subrange(0, m)),
    decreases k,
{
    let ma = missing_ancestors(s, l, k);
    if m == k - 1 {
        assert(ma[ma.len() - 1] == dir_entry(l.subrange(0, m)));
    } else {
        lemma_missing_has(s, l, k - 1, m);
        let pre = missing_ancestors(s, l, k - 1);
        let p = choose|p: int| 0 <= p < pre.len() && (#[trigger] pre[p]) == dir_entry(
            l.subrange(0, m),
        );
        assert(ma[p] == dir_entry(l.subrange(0, m)));
    }
}

/// The full characterization of an unchecked insert on a well-formed table:
/// the result is well-formed; the new entry occupies `l`; strict descendants
/// of `l` are gone; ancestors of `l` are present, the previously absent ones
/// as fresh directories and the others unchanged; everything unrelated to
/// `l` is untouched.
pub proof fn lemma_insert_result_wf(
    s: Seq<EntryView>,
    root: Seq<char>,
    l: Seq<char>,
    ty: FileEntryType,
)
    requires
        entries_wf(s),
        valid_path(l),
    ensures
        entries_wf(insert_result(s, root, l, ty)),
        lookup(insert_result(s, root, l, ty), l) == Some(new_entry(root, l, ty)),
        forall|p: Seq<char>| #[trigger]
            is_ancestor(l, p) ==> !has_path(insert_result(s, root, l, ty), p),
        forall|a: Seq<char>| #[trigger]
            is_ancestor(a, l) ==> lookup(insert_result(s, root, l, ty), a) == (if has_path(s, a) {
                lookup(s, a)
            } else {
                Some(dir_entry(a))
            }),
        forall|p: Seq<char>|
            p != l && !is_ancestor(l, p) && !is_ancestor(p, l) ==> #[trigger] lookup(
                insert_result(s, root, l, ty),
                p,
            ) == lookup(s, p),
{
    let w = seq_remove_covered(s, l);
    lemma_remove_covered_wf(s, l);
    let ma = missing_ancestors(w, l, l.len() as int);
    let e = new_entry(root, l, ty);
    let v1 = insert_result(s, root, l, ty);
    assert(v1.len() == w.len() + ma.len() + 1);
    assert(v1[v1.len() - 1] == e);
    assert(forall|i: int| 0 <= i < w.len() ==> #[trigger] v1[i] == w[i]);
    assert(forall|i: int| 0 <= i < ma.len() ==> #[trigger] v1[w.len() + i] == ma[i]);

    // per-index facts for the created ancestors
    assert forall|p: int| 0 <= p < ma.len() implies {
        &&& (#[trigger] ma[p]).local == l.subrange(0, ma[p].local.len() as int)
        &&& ma[p].local.len() < l.len()
        &&& l[ma[p].local.len() as int] == '/'
        &&& is_ancestor(ma[p].local, l)
        &&& valid_path(ma[p].local)
        &&& ma[p] == dir_entry(ma[p].local)
        &&& !has_path(w, ma[p].local)
    } by {
        lemma_missing_member(w, l, l.len() as int, p);
        let m = choose|m: int|
            0 <= m < l.len() && l[m] == '/' && ma[p] == dir_entry(#[trigger] l.subrange(0, m))
                && !has_path(w, l.subrange(0, m));
        assert(ma[p].local == l.subrange(0, m));
        assert(ma[p].local.len() == m);
        crate::paths::lemma_prefix_at_sep(l, m);
        lemma_ancestor_valid(l.subrange(0, m), l);
    }

    // l itself is not kept, and no kept entry is covered
    assert(!has_path(w, l));

    // uniqueness
    assert forall|i: int, j: int|
        0 <= i < v1.len() && 0 <= j < v1.len() && i != j implies (#[trigger] v1[i]).local != (
    #[trigger] v1[j]).local by {
        let wl = w.len() as int;
        let mal = ma.len() as int;
        if i < wl && j < wl {
        } else if i < wl && j < wl + mal {
            assert(!has_path(w, ma[j - wl].local));
            if v1[i].local == v1[j].local {
                assert(has_path(w, w[i].local));
            }
        } else if j < wl && i < wl + mal {
            assert(!has_path(w, ma[i - wl].local));
            if v1[i].local == v1[j].local {
                assert(has_path(w, w[j].local));
            }
        } else if i < wl && j == wl + mal {
            if v1[i].local == l {
                assert(has_path(w, l));
            }
        } else if j < wl && i == wl + mal {
            if v1[j].local == l {
                assert(has_path(w, l));
            }
        } else if i < wl + mal && j < wl + mal {
            let (a, b) = if i < j {
                (i, j)
            } else {
                (j, i)
            };
            lemma_missing_pairs(w, l, l.len() as int, a - wl, b - wl);
        } else if i < wl + mal && j == wl + mal {
            assert(ma[i - wl].local.len() < l.len());
        } else if j < wl + mal && i == wl + mal {
            assert(ma[j - wl].local.len() < l.len());
        }
    }

    // the other pointwise well-formedness facts
    assert forall|i: int| 0 <= i < v1.len() implies valid_path((#[trigger] v1[i]).local) && v1[i].name
        == base_name(v1[i].local) && (v1[i].ty is Directory ==> v1[i].root.len() == 0) by {
        let wl = w.len() as int;
        if i < wl {
        } else if i < wl + ma.len() {
            assert(v1[i] == dir_entry(ma[i - wl].local));
        } else {
            assert(v1[i] == e);
        }
    }

    // prefix closure
    assert forall|i: int, a: Seq<char>|
        0 <= i < v1.len() && #[trigger] is_ancestor(a, v1[i].local) implies has_path(v1, a) by {
        let wl = w.len() as int;
        if i < wl {
            assert(has_path(w, a));
            let q = index_of(w, a);
            assert(v1[q] == w[q] && v1[q].local == a);
        } else {
            // the entry's local is l or an ancestor of l cut at a separator
            let el = v1[i].local;
            if i < wl + ma.len() {
                assert(el == l.subrange(0, el.len() as int) && l[el.len() as int] == '/');
            }
            // a is a prefix of l cut at a separator
            assert(a == el.subrange(0, a.len() as int) && el[a.len() as int] == '/');
            assert forall|j: int| 0 <= j < el.len() implies el[j] == l[j] by {
                if i < wl + ma.len() {
                    assert(l.subrange(0, el.len() as int)[j] == l[j]);
                }
            }
            assert forall|j: int| 0 <= j < a.len() implies a[j] == l[j] by {
                assert(el.subrange(0, a.len() as int)[j] == el[j]);
            }
            assert(a =~= l.subrange(0, a.len() as int));
            assert(l[a.len() as int] == '/');
            if has_path(w, a) {
                let q = index_of(w, a);
                assert(v1[q] == w[q] && v1[q].local == a);
            } else {
                lemma_missing_has(w, l, l.len() as int, a.len() as int);
                let p = choose|p: int|
                    0 <= p < ma.len() && (#[trigger] ma[p]) == dir_entry(
                        l.subrange(0, a.len() as int),
                    );
                assert(v1[wl + p] == ma[p] && v1[wl + p].local == a);
            }
        }
    }

    // order: ancestors stand before their descendants
    assert forall|i: int, j: int|
        0 <= i < v1.len() && 0 <= j < v1.len() && #[trigger] is_ancestor(
            v1[i].local,
            v1[j].local,
        ) implies i < j by {
        let wl = w.len() as int;
        let mal = ma.len() as int;
        assert(v1[i].local.len() < v1[j].local.len());
        if i >= j {
            if i < wl {
                // j < i < wl: contradicts the order of w
            } else if i < wl + mal {
                if j < wl {
                    // an absent ancestor cannot sit above a kept entry:
                    // closure of w would make it present
                    assert(is_ancestor(v1[i].local, w[j].local));
                    assert(has_path(w, v1[i].local));
                    assert(!has_path(w, ma[i - wl].local));
                } else {
                    // both created: lengths grow with the index
                    lemma_missing_pairs(w, l, l.len() as int, j - wl, i - wl);
                }
            } else {
                // the new entry is last; nothing below it follows it
                if j < wl {
                    assert(covered_by(w[j].local, l));
                    assert(has_path(w, w[j].local));
                    lemma_remove_covered_wf(s, l);
                } else if j < wl + mal {
                    assert(ma[j - wl].local.len() < l.len());
                }
            }
        }
    }

    assert(entries_wf(v1));

    // the new entry occupies l
    lemma_entry_at(v1, v1.len() - 1);
    assert(lookup(v1, l) == Some(e));

    // strict descendants of l are gone
    assert forall|p: Seq<char>| #[trigger] is_ancestor(l, p) implies !has_path(v1, p) by {
        if has_path(v1, p) {
            let i = index_of(v1, p);
            let wl = w.len() as int;
            if i < wl {
                assert(has_path(w, p));
                assert(!covered_by(p, l));
            } else if i < wl + ma.len() {
                assert(ma[i - wl].local.len() < l.len());
            } else {
                assert(p == l);
            }
            assert(p.len() > l.len());
        }
    }

    // ancestors of l: unchanged when present, fresh directories when absent
    assert forall|a: Seq<char>| #[trigger] is_ancestor(a, l) implies lookup(v1, a) == (if has_path(
        s,
        a,
    ) {
        lookup(s, a)
    } else {
        Some(dir_entry(a))
    }) by {
        assert(!covered_by(a, l)) by {
            if a == l {
            } else if is_ancestor(l, a) {
                assert(a.len() > l.len());
            }
        }
        if has_path(s, a) {
            assert(has_path(w, a));
            let q = index_of(w, a);
            assert(v1[q] == w[q] && v1[q].local == a);
            lemma_entry_at(v1, q);
            assert(entry_at(w, a) == w[q]) by {
                lemma_entry_at(w, q);
            }
        } else {
            assert(!has_path(w, a));
            assert(a == l.subrange(0, a.len() as int) && l[a.len() as int] == '/');
            lemma_missing_has(w, l, l.len() as int, a.len() as int);
            let p = choose|p: int|
                0 <= p < ma.len() && (#[trigger] ma[p]) == dir_entry(
                    l.subrange(0, a.len() as int),
                );
            assert(v1[w.len() + p] == ma[p] && v1[w.len() + p].local == a);
            lemma_entry_at(v1, w.len() + p);
        }
    }

    // unrelated paths are untouched
    assert forall|p: Seq<char>|
        p != l && !is_ancestor(l, p) && !is_ancestor(p, l) implies #[trigger] lookup(v1, p)
            == lookup(s, p) by {
        assert(!covered_by(p, l));
        if has_path(s, p) {
            assert(has_path(w, p));
            let q = index_of(w, p);
            assert(v1[q] == w[q] && v1[q].local == p);
            lemma_entry_at(v1, q);
            lemma_entry_at(w, q);
        } else {
            assert(!has_path(w, p));
            if has_path(v1, p) {
                let i = index_of(v1, p);
                let wl = w.len() as int;
                if i < wl {
                    assert(has_path(w, p));
                } else if i < wl + ma.len() {
                    assert(is_ancestor(ma[i - wl].local, l));
                } else {
                    assert(p == l);
                }
            }
        }
    }
}

/// Entry `i` of `v` is dropped by a flagged removal: it is flagged itself or
/// a strict descendant of a flagged entry.
pub open spec fn kill_idx(v: Seq<EntryView>, flags: Seq<bool>, i: int) -> bool {
    exists|j: int|
        0 <= j < v.len() && flags[j] && (j == i || is_ancestor((#[trigger] v[j]).local, v[i].local))
}

/// The first `upto` entries of `v` without the flagged ones and without
/// their subtrees; the kept entries keep their relative order.
pub open spec fn seq_unkilled(v: Seq<EntryView>, flags: Seq<bool>, upto: int) -> Seq<EntryView>
    decreases upto,
{
    if upto <= 0 {
        Seq::empty()
    } else {
        let pre = seq_unkilled(v, flags, upto - 1);
        if kill_idx(v, flags, upto - 1) {
            pre
        } else {
            pre.push(v[upto - 1])
        }
    }
}

/// Every kept entry of `seq_unkilled` comes from the original table and is
/// not dropped.
pub proof fn lemma_unkilled_member(v: Seq<EntryView>, flags: Seq<bool>, upto: int, p: int)
    requires
        0 <= p < seq_unkilled(v, flags, upto).len(),
        upto <= v.len(),
    ensures
        exists|q: int|
            0 <= q < upto && (#[trigger] v[q]) == seq_unkilled(v, flags, upto)[p] && !kill_idx(
                v,
                flags,
                q,
            ),
    decreases upto,
{
    let u = seq_unkilled(v, flags, upto);
    if upto <= 0 {
    } else {
        if !kill_idx(v, flags, upto - 1) && p == u.len() - 1 {
            assert(v[upto - 1] == u[p]);
        } else {
            lemma_unkilled_member(v, flags, upto - 1, p);
        }
    }
}

/// Two kept entries of `seq_unkilled` come from the original table in the
/// same relative order.
pub proof fn lemma_unkilled_pairs(v: Seq<EntryView>, flags: Seq<bool>, upto: int, p1: int, p2: int)
    requires
        0 <= p1 < p2 < seq_unkilled(v, flags, upto).len(),
        upto <= v.len(),
    ensures
        exists|q1: int, q2: int|
            0 <= q1 < q2 < upto && (#[trigger] v[q1]) == seq_unkilled(v, flags, upto)[p1] && (
            #[trigger] v[q2]) == seq_unkilled(v, flags, upto)[p2],
    decreases upto,
{
    let u = seq_unkilled(v, flags, upto);
    if upto <= 0 {
    } else {
        let pre = seq_unkilled(v, flags, upto - 1);
        if !kill_idx(v, flags, upto - 1) && p2 == u.len() - 1 {
            lemma_unkilled_member(v, flags, upto - 1, p1);
            let q1 = choose|q: int|
                0 <= q < upto - 1 && (#[trigger] v[q]) == pre[p1] && !kill_idx(v, flags, q);
            assert(v[q1] == u[p1] && v[upto - 1] == u[p2]);
        } else {
            lemma_unkilled_pairs(v, flags, upto - 1, p1, p2);
        }
    }
}

/// Every entry that is not dropped is kept.
pub proof fn lemma_unkilled_keeps(v: Seq<EntryView>, flags: Seq<bool>, upto: int, q: int)
    requires
        0 <= q < upto <= v.len(),
        !kill_idx(v, flags, q),
    ensures
        exists|p: int|
            0 <= p < seq_unkilled(v, flags, upto).len() && (#[trigger] seq_unkilled(
                v,
                flags,
                upto,
            )[p]) == v[q],
    decreases upto,
{
    let u = seq_unkilled(v, flags, upto);
    let pre = seq_unkilled(v, flags, upto - 1);
    if q == upto - 1 {
        assert(u[u.len() - 1] == v[q]);
    } else {
        lemma_unkilled_keeps(v, flags, upto - 1, q);
        let p = choose|p: int| 0 <= p < pre.len() && (#[trigger] pre[p]) == v[q];
        assert(u[p] == v[q]);
    }
}

/// The full characterization of a flagged removal on a well-formed table:
/// the result is well-formed, keeps exactly the paths that are neither
/// flagged nor under a flagged entry, and leaves their entries unchanged.
pub proof fn lemma_unkilled_wf(v: Seq<EntryView>, flags: Seq<bool>)
    requires
        entries_wf(v),
        flags.len() == v.len(),
    ensures
        entries_wf(seq_unkilled(v, flags, v.len() as int)),
        forall|p: Seq<char>| #[trigger]
            has_path(seq_unkilled(v, flags, v.len() as int), p) <==> exists|i: int|
                0 <= i < v.len() && (#[trigger] v[i]).local == p && !kill_idx(v, flags, i),
        forall|p: Seq<char>| #[trigger]
            has_path(seq_unkilled(v, flags, v.len() as int), p) ==> entry_at(
                seq_unkilled(v, flags, v.len() as int),
                p,
            ) == entry_at(v, p),
{
    let n = v.len() as int;
    let u = seq_unkilled(v, flags, n);
    // membership, both directions
    assert forall|p: Seq<char>| #[trigger] has_path(u, p) implies exists|i: int|
        0 <= i < v.len() && (#[trigger] v[i]).local == p && !kill_idx(v, flags, i) by {
        let k = choose|k: int| 0 <= k < u.len() && (#[trigger] u[k]).local == p;
        lemma_unkilled_member(v, flags, n, k);
        let q = choose|q: int| 0 <= q < n && (#[trigger] v[q]) == u[k] && !kill_idx(v, flags, q);
        assert(0 <= q < v.len() && v[q].local == p && !kill_idx(v, flags, q));
    }
    assert forall|p: Seq<char>|
        exists|i: int| 0 <= i < v.len() && (#[trigger] v[i]).local == p && !kill_idx(v, flags, i)
            implies #[trigger] has_path(u, p) by {
        let i = choose|i: int|
            0 <= i < v.len() && (#[trigger] v[i]).local == p && !kill_idx(v, flags, i);
        lemma_unkilled_keeps(v, flags, n, i);
        let k = choose|k: int| 0 <= k < u.len() && (#[trigger] u[k]) == v[i];
        assert(0 <= k < u.len() && u[k].local == p);
    }
    // per-index facts
    assert forall|k: int| 0 <= k < u.len() implies valid_path((#[trigger] u[k]).local) && u[k].name
        == base_name(u[k].local) && (u[k].ty is Directory ==> u[k].root.len() == 0) && has_path(
        v,
        u[k].local,
    ) && entry_at(v, u[k].local) == u[k] && !kill_idx(v, flags, index_of(v, u[k].local)) by {
        lemma_unkilled_member(v, flags, n, k);
        let q = choose|q: int| 0 <= q < n && (#[trigger] v[q]) == u[k] && !kill_idx(v, flags, q);
        lemma_entry_at(v, q);
    }
    // uniqueness
    assert forall|k1: int, k2: int|
        0 <= k1 < u.len() && 0 <= k2 < u.len() && k1 != k2 implies (#[trigger] u[k1]).local != (
    #[trigger] u[k2]).local by {
        let (a, b) = if k1 < k2 {
            (k1, k2)
        } else {
            (k2, k1)
        };
        lemma_unkilled_pairs(v, flags, n, a, b);
        let (q1, q2) = choose|q1: int, q2: int|
            0 <= q1 < q2 < n && (#[trigger] v[q1]) == u[a] && (#[trigger] v[q2]) == u[b];
        assert(v[q1].local != v[q2].local);
    }
    // prefix closure: an ancestor of a kept entry is itself kept
    assert forall|k: int, a: Seq<char>|
        0 <= k < u.len() && #[trigger] is_ancestor(a, u[k].local) implies has_path(u, a) by {
        let q = index_of(v, u[k].local);
        assert(is_ancestor(a, v[q].local));
        assert(has_path(v, a));
        let m = index_of(v, a);
        if kill_idx(v, flags, m) {
            let j = choose|j: int|
                0 <= j < v.len() && flags[j] && (j == m || is_ancestor(
                    (#[trigger] v[j]).local,
                    v[m].local,
                ));
            if j == m {
                assert(is_ancestor(v[j].local, v[q].local));
            } else {
                lemma_ancestor_trans(v[j].local, a, v[q].local);
            }
            assert(kill_idx(v, flags, q));
            assert(false);
        }
        lemma_unkilled_keeps(v, flags, n, m);
        let k2 = choose|k2: int| 0 <= k2 < u.len() && (#[trigger] u[k2]) == v[m];
        assert(u[k2].local == a);
    }
    // order
    assert forall|k1: int, k2: int|
        0 <= k1 < u.len() && 0 <= k2 < u.len() && #[trigger] is_ancestor(
            u[k1].local,
            u[k2].local,
        ) implies k1 < k2 by {
        if k1 == k2 {
            assert(u[k1].local.len() < u[k2].local.len());
        } else if k2 < k1 {
            lemma_unkilled_pairs(v, flags, n, k2, k1);
            let (q1, q2) = choose|q1: int, q2: int|
                0 <= q1 < q2 < n && (#[trigger] v[q1]) == u[k2] && (#[trigger] v[q2]) == u[k1];
            assert(is_ancestor(v[q2].local, v[q1].local));
            assert(q2 < q1);
        }
    }
    // entries unchanged
    assert forall|p: Seq<char>| #[trigger] has_path(u, p) implies entry_at(u, p) == entry_at(
        v,
        p,
    ) by {
        let k = index_of(u, p);
        assert(0 <= k < u.len() && u[k].local == p);
        assert(entry_at(v, u[k].local) == u[k]);
    }
}

/// Under well-formedness, the entry found at an index is the entry its local
/// path resolves to.
pub proof fn lemma_entry_at(s: Seq<EntryView>, i: int)
    requires
        entries_wf(s),
        0 <= i < s.len(),
    ensures
        has_path(s, s[i].local),
        index_of(s, s[i].local) == i,
        entry_at(s, s[i].local) == s[i],
        lookup(s, s[i].local) == Some(s[i]),
{
    assert(0 <= i < s.len() && s[i].local == s[i].local);
    let j = index_of(s, s[i].local);
    assert(0 <= j < s.len() && s[j].local == s[i].local);
}

/// The views of a sequence of strings.
pub open spec fn string_views(s: Seq<String>) -> Seq<Seq<char>> {
    Seq::new(s.len(), |i: int| s[i]@)
}

/// `p` is the local path of an entry bound to root `rt`, or lies under one.
pub open spec fn root_taints(v: Seq<EntryView>, rt: Seq<char>, p: Seq<char>) -> bool {
    exists|j: int|
        0 <= j < v.len() && (#[trigger] v[j]).root == rt && (v[j].local == p || is_ancestor(
            v[j].local,
            p,
        ))
}

/// Entry `i` of `v` lies strictly under an entry bound to root `rt`.
pub open spec fn root_tainted_above(v: Seq<EntryView>, rt: Seq<char>, i: int) -> bool {
    exists|j: int|
        0 <= j < v.len() && (#[trigger] v[j]).root == rt && is_ancestor(v[j].local, v[i].local)
}

/// The locals of the entries bound to `rt` that lie under no other entry
/// bound to `rt`, in table order: the top-level removals of a removal by
/// root.
pub open spec fn root_top_locals(v: Seq<EntryView>, rt: Seq<char>, upto: int) -> Seq<Seq<char>>
    decreases upto,
{
    if upto <= 0 {
        Seq::empty()
    } else {
        let pre = root_top_locals(v, rt, upto - 1);
        if v[upto - 1].root == rt && !root_tainted_above(v, rt, upto - 1) {
            pre.push(v[upto - 1].local)
        } else {
            pre
        }
    }
}

/// The removal flags of a removal by root.
pub open spec fn root_flags(v: Seq<EntryView>, rt: Seq<char>) -> Seq<bool> {
    Seq::new(v.len(), |i: int| v[i].root == rt)
}

/// `p` is the local path of an entry whose backing storage no longer holds
/// it, or lies under one.
pub open spec fn stale_under<L: FileLoader>(v: Seq<EntryView>, loader: L, p: Seq<char>) -> bool {
    exists|j: int|
        0 <= j < v.len() && !loader.exists_spec((#[trigger] v[j]).root, v[j].local) && (v[j].local
            == p || is_ancestor(v[j].local, p))
}

/// The removal flags of a reconciliation pass: an entry is flagged when the
/// loader no longer reports it as existing.
pub open spec fn stale_flags<L: FileLoader>(v: Seq<EntryView>, loader: L) -> Seq<bool> {
    Seq::new(v.len(), |i: int| !loader.exists_spec(v[i].root, v[i].local))
}

/// A predicate over tree entries, handed to [`Tree::filter_walk_paths`] to
/// decide which entries to reject, each with a reason.
///
/// `reject_spec` fixes, for one filter value, which entries it rejects; an
/// implementation proves that its executable `reject` agrees with it.
pub trait EntryFilter {
    /// What a rejection reports.
    type Reason;

    /// The verdict on an entry: a reason to reject it, or `None` to keep it.
    spec fn reject_spec(&self, e: EntryView) -> Option<Self::Reason>;

    /// The executable verdict on an entry.
    fn reject(&self, node: &Node, entry_type: FileEntryType) -> (r: Option<Self::Reason>)
        ensures
            r == self.reject_spec(
                EntryView {
                    name: node@.name,
                    local: node@.local,
                    root: node@.root,
                    ty: entry_type,
                },
            ),
    ;
}

/// A filter over entry classifications: rejects file entries, directory
/// entries, or both, with no further reason.
pub struct TypeFilter {
    pub reject_files: bool,
    pub reject_directories: bool,
}

impl EntryFilter for TypeFilter {
    type Reason = ();

    open spec fn reject_spec(&self, e: EntryView) -> Option<()> {
        if (e.ty is File && self.reject_files) || (e.ty is Directory && self.reject_directories) {
            Some(())
        } else {
            None
        }
    }

    fn reject(&self, node: &Node, entry_type: FileEntryType) -> (r: Option<()>) {
        let hit = match entry_type {
            FileEntryType::File => self.reject_files,
            FileEntryType::Directory => self.reject_directories,
        };
        if hit {
            Some(())
        } else {
            None
        }
    }
}

/// The removal flags of a filtering walk.
pub open spec fn reject_flags<F: EntryFilter>(v: Seq<EntryView>, f: F) -> Seq<bool> {
    Seq::new(v.len(), |i: int| f.reject_spec(v[i]) is Some)
}

/// Entry `i` of `v` lies strictly under a rejected entry.
pub open spec fn rejected_above<F: EntryFilter>(v: Seq<EntryView>, f: F, i: int) -> bool {
    exists|j: int|
        0 <= j < v.len() && f.reject_spec(#[trigger] v[j]) is Some && is_ancestor(
            v[j].local,
            v[i].local,
        )
}

/// `p` is the local path of a rejected entry, or lies under one.
pub open spec fn rejected_under<F: EntryFilter>(v: Seq<EntryView>, f: F, p: Seq<char>) -> bool {
    exists|j: int|
        0 <= j < v.len() && f.reject_spec(#[trigger] v[j]) is Some && (v[j].local == p
            || is_ancestor(v[j].local, p))
}

/// The reports of a filtering walk: `(root, local, reason)` for each
/// rejected entry that did not already lie under another rejected one, in
/// table order.
pub open spec fn filter_top_results<F: EntryFilter>(v: Seq<EntryView>, f: F, upto: int) -> Seq<
    (Seq<char>, Seq<char>, F::Reason),
>
    decreases upto,
{
    if upto <= 0 {
        Seq::empty()
    } else {
        let pre = filter_top_results(v, f, upto - 1);
        if f.reject_spec(v[upto - 1]) is Some && !rejected_above(v, f, upto - 1) {
            pre.push((v[upto - 1].root, v[upto - 1].local, f.reject_spec(v[upto - 1]).unwrap()))
        } else {
            pre
        }
    }
}

/// With lazily evaluated flags — an entry is flagged when the filter
/// rejects it and no earlier flagged entry is its ancestor — an entry has a
/// flagged ancestor exactly when it has a rejected one.
proof fn lemma_lazy_above<F: EntryFilter>(v: Seq<EntryView>, f: F, flags: Seq<bool>, i: int)
    requires
        entries_wf(v),
        flags.len() <= v.len(),
        0 <= i < v.len(),
        i <= flags.len(),
        forall|q: int|
            0 <= q < flags.len() ==> (#[trigger] flags[q]) == (f.reject_spec(v[q]) is Some && !(
            exists|j: int|
                0 <= j < q && flags[j] && is_ancestor((#[trigger] v[j]).local, v[q].local))),
    ensures
        (exists|j: int|
            0 <= j < i && (#[trigger] flags[j]) && is_ancestor(v[j].local, v[i].local))
            <==> rejected_above(v, f, i),
{
    if exists|j: int|
        0 <= j < i && (#[trigger] flags[j]) && is_ancestor(v[j].local, v[i].local) {
        let j = choose|j: int|
            0 <= j < i && (#[trigger] flags[j]) && is_ancestor(v[j].local, v[i].local);
        assert(f.reject_spec(v[j]) is Some);
        assert(rejected_above(v, f, i));
    }
    if rejected_above(v, f, i) {
        let m = choose|m: int|
            0 <= m < v.len() && f.reject_spec(#[trigger] v[m]) is Some && is_ancestor(
                v[m].local,
                v[i].local,
            );
        assert(m < i);
        if !flags[m] {
            let j = choose|j: int|
                0 <= j < m && flags[j] && is_ancestor((#[trigger] v[j]).local, v[m].local);
            lemma_ancestor_trans(v[j].local, v[m].local, v[i].local);
            assert(0 <= j < i && flags[j] && is_ancestor(v[j].local, v[i].local));
        }
    }
}

/// Lazily evaluated flags drop exactly what the fully evaluated rejection
/// flags drop.
proof fn lemma_lazy_flags_kill<F: EntryFilter>(v: Seq<EntryView>, f: F, flags: Seq<bool>)
    requires
        entries_wf(v),
        flags.len() == v.len(),
        forall|q: int|
            0 <= q < flags.len() ==> (#[trigger] flags[q]) == (f.reject_spec(v[q]) is Some && !(
            exists|j: int|
                0 <= j < q && flags[j] && is_ancestor((#[trigger] v[j]).local, v[q].local))),
    ensures
        forall|i: int|
            0 <= i < v.len() ==> (#[trigger] kill_idx(v, flags, i) <==> kill_idx(
                v,
                reject_flags(v, f),
                i,
            )),
{
    assert forall|i: int|
        0 <= i < v.len() implies (#[trigger] kill_idx(v, flags, i) <==> kill_idx(
        v,
        reject_flags(v, f),
        i,
    )) by {
        lemma_lazy_above(v, f, flags, i);
        if kill_idx(v, flags, i) {
            let j = choose|j: int|
                0 <= j < v.len() && flags[j] && (j == i || is_ancestor(
                    (#[trigger] v[j]).local,
                    v[i].local,
                ));
            assert(f.reject_spec(v[j]) is Some);
            assert(reject_flags(v, f)[j]);
            assert(kill_idx(v, reject_flags(v, f), i));
        }
        if kill_idx(v, reject_flags(v, f), i) {
            let j = choose|j: int|
                0 <= j < v.len() && reject_flags(v, f)[j] && (j == i || is_ancestor(
                    (#[trigger] v[j]).local,
                    v[i].local,
                ));
            if j == i {
                if !flags[i] {
                    let j2 = choose|j2: int|
                        0 <= j2 < i && flags[j2] && is_ancestor(
                            (#[trigger] v[j2]).local,
                            v[i].local,
                        );
                    assert(kill_idx(v, flags, i));
                } else {
                    assert(kill_idx(v, flags, i));
                }
            } else {
                assert(rejected_above(v, f, i));
                let j2 = choose|j2: int|
                    0 <= j2 < i && flags[j2] && is_ancestor((#[trigger] v[j2]).local, v[i].local);
                assert(kill_idx(v, flags, i));
            }
        }
    }
}

/// Flag vectors that drop the same entries leave the same table.
proof fn lemma_unkilled_pointwise(v: Seq<EntryView>, f1: Seq<bool>, f2: Seq<bool>, upto: int)
    requires
        forall|i: int| 0 <= i < upto ==> (#[trigger] kill_idx(v, f1, i) <==> kill_idx(v, f2, i)),
    ensures
        seq_unkilled(v, f1, upto) == seq_unkilled(v, f2, upto),
    decreases upto,
{
    if upto > 0 {
        lemma_unkilled_pointwise(v, f1, f2, upto - 1);
    }
}

/// The views of a sequence of `(root, local, reason)` reports.
pub open spec fn triple_views<R>(s: Seq<(String, String, R)>) -> Seq<(Seq<char>, Seq<char>, R)> {
    Seq::new(s.len(), |i: int| (s[i].0@, s[i].1@, s[i].2))
}

/// The locals of the entries whose parent path is `q`, in table order.
pub open spec fn child_locals(v: Seq<EntryView>, q: Seq<char>, upto: int) -> Seq<Seq<char>>
    decreases upto,
{
    if upto <= 0 {
        Seq::empty()
    } else {
        let pre = child_locals(v, q, upto - 1);
        if crate::paths::parent_path(v[upto - 1].local) == q {
            pre.push(v[upto - 1].local)
        } else {
            pre
        }
    }
}

/// A path-indexed file tree bound to one [`FileLoader`].
pub struct Tree<L: FileLoader> {
    /// The loader that supplies existence checks, types, sizes and bytes for
    /// the tree's entries.
    pub loader: L,
    entries: Vec<TreeEntry>,
}

spec fn views_of(s: Seq<TreeEntry>) -> Seq<EntryView> {
    Seq::new(s.len(), |i: int| s[i]@)
}

impl<L: FileLoader> View for Tree<L> {
    type V = Seq<EntryView>;

    closed spec fn view(&self) -> Seq<EntryView> {
        views_of(self.entries@)
    }
}

impl<L: FileLoader> Tree<L> {
    /// The structural invariants of the tree's entry table.
    pub open spec fn wf(&self) -> bool {
        entries_wf(self@)
    }

    /// The loader the tree is bound to, for use in contracts.
    pub closed spec fn spec_loader(&self) -> L {
        self.loader
    }

    /// Creates an empty tree bound to a file loader.
    pub fn new(loader: L) -> (r: Tree<L>)
        ensures
            r.wf(),
            r@ == Seq::<EntryView>::empty(),
            r.spec_loader() == loader,
    {
        let t = Tree { loader, entries: Vec::new() };
        proof {
            assert(t@ =~= Seq::<EntryView>::empty());
        }
        t
    }

    /// Index of the entry occupying a local path, if any.
    fn find_idx(&self, local: &String) -> (r: Option<usize>)
        ensures
            match r {
                Some(i) => i < self@.len() && self@[i as int].local == local@,
                None => !has_path(self@, local@),
            },
    {
        let n = self.entries.len();
        let mut i: usize = 0;
        while i < n
            invariant
                i <= n,
                n == self.entries.len(),
                self@.len() == n,
                forall|j: int| 0 <= j < i ==> (#[trigger] self@[j]).local != local@,
            decreases n - i,
        {
            if self.entries[i].node.local_path == *local {
                return Some(i);
            }
            i += 1;
        }
        None
    }

    /// Whether a local path is present in the tree; the empty path names the
    /// tree root itself, which is always present. Only the tree is consulted,
    /// never the loader.
    pub fn contains_path(&self, path: &str) -> (r: bool)
        ensures
            r == (path@.len() == 0 || has_path(self@, path@)),
    {
        if path.unicode_len() == 0 {
            return true;
        }
        let p = path.to_owned();
        match self.find_idx(&p) {
            Some(_) => true,
            None => false,
        }
    }

    /// Rebuilds the table without the entry at `local` and without its
    /// subtree.
    fn retain_uncovered(&mut self, local: &String)
        ensures
            final(self)@ == seq_remove_covered(old(self)@, local@),
            final(self).spec_loader() == old(self).spec_loader(),
    {
        let n = self.entries.len();
        let mut kept: Vec<TreeEntry> = Vec::new();
        let mut i: usize = 0;
        proof {
            assert(views_of(self.entries@.subrange(0, 0)) =~= Seq::<EntryView>::empty());
            assert(views_of(kept@) =~= Seq::<EntryView>::empty());
        }
        while i < n
            invariant
                i <= n,
                n == self.entries.len(),
                views_of(kept@) == seq_remove_covered(
                    views_of(self.entries@.subrange(0, i as int)),
                    local@,
                ),
            decreases n - i,
        {
            let keep = !(self.entries[i].node.local_path == *local || is_ancestor_path(
                local.as_str(),
                self.entries[i].node.local_path.as_str(),
            ));
            proof {
                let pre = views_of(self.entries@.subrange(0, i as int));
                let post = views_of(self.entries@.subrange(0, i as int + 1));
                assert(post.drop_last() =~= pre);
                assert(post.last() == self.entries@[i as int]@);
            }
            if keep {
                let ghost kv = views_of(kept@);
                let e = self.entries[i].clone();
                kept.push(e);
                proof {
                    assert(views_of(kept@) =~= kv.push(self.entries@[i as int]@));
                }
            }
            i += 1;
        }
        proof {
            assert(self.entries@.subrange(0, n as int) =~= self.entries@);
        }
        self.entries = kept;
    }

    /// Appends directory entries for the ancestors of `local_path` that are
    /// not present yet, shortest first.
    fn push_missing_ancestors(&mut self, local_path: &str)
        ensures
            final(self)@ == old(self)@ + missing_ancestors(
                old(self)@,
                local_path@,
                local_path@.len() as int,
            ),
            final(self).spec_loader() == old(self).spec_loader(),
    {
        let n = local_path.unicode_len();
        let mut k: usize = 0;
        proof {
            assert(old(self)@ + missing_ancestors(old(self)@, local_path@, 0) =~= old(self)@);
        }
        while k < n
            invariant
                k <= n,
                n == local_path@.len(),
                self@ == old(self)@ + missing_ancestors(old(self)@, local_path@, k as int),
                self.spec_loader() == old(self).spec_loader(),
            decreases n - k,
        {
            let ghost v0 = old(self)@;
            let ghost l = local_path@;
            let ghost ma_k = missing_ancestors(v0, l, k as int);
            if local_path.get_char(k) == '/' {
                let a = local_path.substring_char(0, k).to_owned();
                let found = match self.find_idx(&a) {
                    Some(_) => true,
                    None => false,
                };
                proof {
                    // presence in the current table agrees with presence in
                    // the original: the appended ancestors are all shorter
                    // than `a`
                    if has_path(v0, a@) {
                        let q = index_of(v0, a@);
                        assert(self@[q] == v0[q] && self@[q].local == a@);
                        assert(has_path(self@, a@));
                    }
                    if has_path(self@, a@) {
                        let q = index_of(self@, a@);
                        if q >= v0.len() {
                            lemma_missing_member(v0, l, k as int, q - v0.len());
                            let m = choose|m: int|
                                0 <= m < k && l[m] == '/' && ma_k[q - v0.len()] == dir_entry(
                                    #[trigger] l.subrange(0, m),
                                ) && !has_path(v0, l.subrange(0, m));
                            assert(self@[q].local.len() == m);
                            assert(false);
                        }
                        assert(has_path(v0, a@));
                    }
                }
                if !found {
                    let name = base_name_of(a.as_str());
                    let ghost pre_view = self@;
                    let node = Node { name, local_path: a, root_path: String::new() };
                    self.entries.push(TreeEntry { node, entry_type: FileEntryType::Directory });
                    proof {
                        assert(self@ =~= pre_view.push(dir_entry(l.subrange(0, k as int))));
                        assert(missing_ancestors(v0, l, k as int + 1) == ma_k.push(
                            dir_entry(l.subrange(0, k as int)),
                        ));
                        assert(self@ =~= v0 + missing_ancestors(v0, l, k as int + 1));
                    }
                } else {
                    proof {
                        assert(missing_ancestors(v0, l, k as int + 1) == ma_k);
                    }
                }
            } else {
                proof {
                    assert(missing_ancestors(v0, l, k as int + 1) == ma_k);
                }
            }
            k += 1;
        }
    }

    /// The unchecked insert: replaces whatever occupied `local_path`
    /// (subtree included), creating absent ancestors as directories.
    fn insert_path_unchecked(
        &mut self,
        root_path: &str,
        local_path: &str,
        entry_type: FileEntryType,
    ) -> (res: Option<(String, String)>)
        requires
            old(self).wf(),
            valid_path(local_path@),
        ensures
            final(self).wf(),
            final(self)@ == insert_result(old(self)@, root_path@, local_path@, entry_type),
            final(self).spec_loader() == old(self).spec_loader(),
            match res {
                Some(pr) => has_path(old(self)@, local_path@) && pr.0@ == entry_at(
                    old(self)@,
                    local_path@,
                ).root && pr.1@ == local_path@,
                None => !has_path(old(self)@, local_path@),
            },
    {
        let local = local_path.to_owned();
        let res: Option<(String, String)> = match self.find_idx(&local) {
            Some(i) => {
                proof {
                    lemma_entry_at(self@, i as int);
                }
                Some(
                    (
                        self.entries[i].node.root_path.clone(),
                        self.entries[i].node.local_path.clone(),
                    ),
                )
            },
            None => None,
        };
        self.retain_uncovered(&local);
        self.push_missing_ancestors(local_path);
        let name = base_name_of(local_path);
        let root_store = if entry_type.is_file() {
            root_path.to_owned()
        } else {
            String::new()
        };
        let node = Node { name, local_path: local, root_path: root_store };
        let ghost pre_view = self@;
        self.entries.push(TreeEntry { node, entry_type });
        proof {
            assert(self@ =~= pre_view.push(new_entry(root_path@, local_path@, entry_type)));
            assert(self@ =~= insert_result(old(self)@, root_path@, local_path@, entry_type));
            lemma_insert_result_wf(old(self)@, root_path@, local_path@, entry_type);
        }
        res
    }

    /// Inserts a file bound to `root_path` at `local_path`, creating absent
    /// ancestors as directories. Whatever occupied the path before is
    /// replaced, its subtree included, and its `(root, local)` pair is
    /// returned. The insert is unchecked: the loader is not consulted.
    pub fn insert_file(&mut self, root_path: &str, local_path: &str) -> (res: Option<
        (String, String),
    >)
        requires
            old(self).wf(),
            valid_path(local_path@),
        ensures
            final(self).wf(),
            final(self)@ == insert_result(
                old(self)@,
                root_path@,
                local_path@,
                FileEntryType::File,
            ),
            final(self).spec_loader() == old(self).spec_loader(),
            match res {
                Some(pr) => has_path(old(self)@, local_path@) && pr.0@ == entry_at(
                    old(self)@,
                    local_path@,
                ).root && pr.1@ == local_path@,
                None => !has_path(old(self)@, local_path@),
            },
    {
        self.insert_path_unchecked(root_path, local_path, FileEntryType::File)
    }

    /// Inserts a directory at `local_path`, creating absent ancestors as
    /// directories. Directories carry no physical backing: the entry's root
    /// is recorded as the empty sentinel whatever `root_path` says. Whatever
    /// occupied the path before is replaced, its subtree included, and its
    /// `(root, local)` pair is returned. The insert is unchecked: the loader
    /// is not consulted.
    pub fn insert_directory(&mut self, root_path: &str, local_path: &str) -> (res: Option<
        (String, String),
    >)
        requires
            old(self).wf(),
            valid_path(local_path@),
        ensures
            final(self).wf(),
            final(self)@ == insert_result(
                old(self)@,
                root_path@,
                local_path@,
                FileEntryType::Directory,
            ),
            final(self).spec_loader() == old(self).spec_loader(),
            match res {
                Some(pr) => has_path(old(self)@, local_path@) && pr.0@ == entry_at(
                    old(self)@,
                    local_path@,
                ).root && pr.1@ == local_path@,
                None => !has_path(old(self)@, local_path@),
            },
    {
        self.insert_path_unchecked(root_path, local_path, FileEntryType::Directory)
    }

    /// Inserts a path after asking the bound loader whether it is a file or
    /// a directory. The caller asserts that the loader can classify the
    /// pair; this is the one insert that consults the loader.
    pub fn insert_path(&mut self, root_path: &str, local_path: &str) -> (res: Option<
        (String, String),
    >)
        requires
            old(self).wf(),
            valid_path(local_path@),
            old(self).spec_loader().type_spec(root_path@, local_path@) is Some,
        ensures
            final(self).wf(),
            final(self)@ == insert_result(
                old(self)@,
                root_path@,
                local_path@,
                old(self).spec_loader().type_spec(root_path@, local_path@).unwrap(),
            ),
            final(self).spec_loader() == old(self).spec_loader(),
            match res {
                Some(pr) => has_path(old(self)@, local_path@) && pr.0@ == entry_at(
                    old(self)@,
                    local_path@,
                ).root && pr.1@ == local_path@,
                None => !has_path(old(self)@, local_path@),
            },
    {
        let entry_type = match self.loader.get_path_type(root_path, local_path) {
            Ok(t) => t,
            Err(_) => {
                proof {
                    assert(false);
                }
                vstd::pervasive::unreached()
            },
        };
        self.insert_path_unchecked(root_path, local_path, entry_type)
    }

    /// Removes the entry at a local path together with its whole subtree,
    /// returning the removed entry's `(root, local)` pair, or nothing when
    /// the path is absent.
    pub fn remove_path(&mut self, path: &str) -> (res: Option<(String, String)>)
        requires
            old(self).wf(),
            valid_path(path@),
        ensures
            final(self).wf(),
            final(self)@ == seq_remove_covered(old(self)@, path@),
            final(self).spec_loader() == old(self).spec_loader(),
            match res {
                Some(pr) => has_path(old(self)@, path@) && pr.0@ == entry_at(
                    old(self)@,
                    path@,
                ).root && pr.1@ == path@,
                None => !has_path(old(self)@, path@),
            },
    {
        let p = path.to_owned();
        let res: Option<(String, String)> = match self.find_idx(&p) {
            Some(i) => {
                proof {
                    lemma_entry_at(self@, i as int);
                }
                Some(
                    (
                        self.entries[i].node.root_path.clone(),
                        self.entries[i].node.local_path.clone(),
                    ),
                )
            },
            None => None,
        };
        self.retain_uncovered(&p);
        proof {
            lemma_remove_covered_wf(old(self)@, path@);
        }
        res
    }

    /// Rebuilds the table without the flagged entries and without their
    /// subtrees.
    fn remove_flagged(&mut self, flags: &Vec<bool>)
        requires
            old(self).wf(),
            flags@.len() == old(self)@.len(),
        ensures
            final(self)@ == seq_unkilled(old(self)@, flags@, old(self)@.len() as int),
            final(self).spec_loader() == old(self).spec_loader(),
    {
        let n = self.entries.len();
        let mut kept: Vec<TreeEntry> = Vec::new();
        let mut i: usize = 0;
        proof {
            assert(views_of(kept@) =~= Seq::<EntryView>::empty());
        }
        while i < n
            invariant
                i <= n,
                n == self.entries.len(),
                self@.len() == n,
                self.wf(),
                flags@.len() == n,
                views_of(kept@) == seq_unkilled(self@, flags@, i as int),
            decreases n - i,
        {
            let mut killed = flags[i];
            proof {
                if flags@[i as int] {
                    assert(kill_idx(self@, flags@, i as int));
                }
            }
            if !killed {
                let mut j: usize = 0;
                while j < i
                    invariant
                        j <= i < n,
                        n == self.entries.len(),
                        self@.len() == n,
                        self.wf(),
                        flags@.len() == n,
                        !flags@[i as int],
                        killed == exists|q: int|
                            0 <= q < j && flags@[q] && is_ancestor(
                                (#[trigger] self@[q]).local,
                                self@[i as int].local,
                            ),
                    decreases i - j,
                {
                    if flags[j] && is_ancestor_path(
                        self.entries[j].node.local_path.as_str(),
                        self.entries[i].node.local_path.as_str(),
                    ) {
                        killed = true;
                        proof {
                            assert(0 <= j < j + 1 && flags@[j as int] && is_ancestor(
                                self@[j as int].local,
                                self@[i as int].local,
                            ));
                        }
                    }
                    j += 1;
                }
                proof {
                    if killed {
                        let q = choose|q: int|
                            0 <= q < i && flags@[q] && is_ancestor(
                                (#[trigger] self@[q]).local,
                                self@[i as int].local,
                            );
                        assert(kill_idx(self@, flags@, i as int));
                    } else if kill_idx(self@, flags@, i as int) {
                        let q = choose|q: int|
                            0 <= q < self@.len() && flags@[q] && (q == i as int || is_ancestor(
                                (#[trigger] self@[q]).local,
                                self@[i as int].local,
                            ));
                        assert(q != i as int);
                        assert(q < i as int);
                        assert(false);
                    }
                }
            }
            if !killed {
                let ghost kv = views_of(kept@);
                let e = self.entries[i].clone();
                kept.push(e);
                proof {
                    assert(views_of(kept@) =~= kv.push(self@[i as int]));
                }
            }
            i += 1;
        }
        self.entries = kept;
    }

    /// Removes every entry whose root path equals the given root, each one
    /// together with its whole subtree. Returns the local paths of the
    /// top-level removals: the removed entries that did not already lie
    /// under another removed one, in table order.
    pub fn remove_paths_by_root(&mut self, root: &str) -> (res: Vec<String>)
        requires
            old(self).wf(),
        ensures
            final(self).wf(),
            final(self)@ == seq_unkilled(
                old(self)@,
                root_flags(old(self)@, root@),
                old(self)@.len() as int,
            ),
            final(self).spec_loader() == old(self).spec_loader(),
            forall|p: Seq<char>| #[trigger]
                has_path(final(self)@, p) <==> (has_path(old(self)@, p) && !root_taints(
                    old(self)@,
                    root@,
                    p,
                )),
            forall|p: Seq<char>| #[trigger]
                has_path(final(self)@, p) ==> entry_at(final(self)@, p) == entry_at(old(self)@, p),
            string_views(res@) == root_top_locals(old(self)@, root@, old(self)@.len() as int),
    {
        let rt = root.to_owned();
        let n = self.entries.len();
        let mut flags: Vec<bool> = Vec::new();
        let mut res: Vec<String> = Vec::new();
        let mut i: usize = 0;
        proof {
            assert(string_views(res@) =~= Seq::<Seq<char>>::empty());
        }
        while i < n
            invariant
                i <= n,
                n == self.entries.len(),
                self@.len() == n,
                self.wf(),
                rt@ == root@,
                flags@.len() == i,
                forall|q: int| 0 <= q < i ==> flags@[q] == ((#[trigger] self@[q]).root == rt@),
                string_views(res@) == root_top_locals(self@, rt@, i as int),
            decreases n - i,
        {
            let bound = self.entries[i].node.root_path == rt;
            let mut tainted = false;
            let mut j: usize = 0;
            while j < i
                invariant
                    j <= i < n,
                    n == self.entries.len(),
                    self@.len() == n,
                    self.wf(),
                    rt@ == root@,
                    tainted == exists|q: int|
                        0 <= q < j && (#[trigger] self@[q]).root == rt@ && is_ancestor(
                            self@[q].local,
                            self@[i as int].local,
                        ),
                decreases i - j,
            {
                if self.entries[j].node.root_path == rt && is_ancestor_path(
                    self.entries[j].node.local_path.as_str(),
                    self.entries[i].node.local_path.as_str(),
                ) {
                    tainted = true;
                    proof {
                        assert(0 <= j < j + 1 && self@[j as int].root == rt@ && is_ancestor(
                            self@[j as int].local,
                            self@[i as int].local,
                        ));
                    }
                }
                j += 1;
            }
            proof {
                // the scan up to `i` decides `root_tainted_above`: ancestors
                // stand before their descendants
                if tainted {
                    let q = choose|q: int|
                        0 <= q < i && (#[trigger] self@[q]).root == rt@ && is_ancestor(
                            self@[q].local,
                            self@[i as int].local,
                        );
                    assert(root_tainted_above(self@, rt@, i as int));
                } else if root_tainted_above(self@, rt@, i as int) {
                    let q = choose|q: int|
                        0 <= q < self@.len() && (#[trigger] self@[q]).root == rt@ && is_ancestor(
                            self@[q].local,
                            self@[i as int].local,
                        );
                    assert(q < i as int);
                    assert(false);
                }
            }
            if bound && !tainted {
                let ghost rv = string_views(res@);
                res.push(self.entries[i].node.local_path.clone());
                proof {
                    assert(string_views(res@) =~= rv.push(self@[i as int].local));
                }
            }
            flags.push(bound);
            i += 1;
        }
        proof {
            assert(flags@ =~= root_flags(self@, rt@));
        }
        self.remove_flagged(&flags);
        proof {
            lemma_unkilled_wf(old(self)@, root_flags(old(self)@, root@));
            let v0 = old(self)@;
            let fl = root_flags(v0, root@);
            // a path is dropped exactly when its entry is bound to the root
            // or lies under one that is
            assert forall|p: Seq<char>| #[trigger] has_path(final(self)@, p) implies (has_path(
                v0,
                p,
            ) && !root_taints(v0, root@, p)) by {
                let i = choose|i: int|
                    0 <= i < v0.len() && (#[trigger] v0[i]).local == p && !kill_idx(v0, fl, i);
                if root_taints(v0, root@, p) {
                    let j = choose|j: int|
                        0 <= j < v0.len() && (#[trigger] v0[j]).root == root@ && (v0[j].local == p
                            || is_ancestor(v0[j].local, p));
                    if v0[j].local == p {
                        assert(j == i);
                    }
                    assert(kill_idx(v0, fl, i));
                }
            }
            assert forall|p: Seq<char>|
                has_path(v0, p) && !root_taints(v0, root@, p) implies #[trigger] has_path(
                final(self)@,
                p,
            ) by {
                let i = index_of(v0, p);
                if kill_idx(v0, fl, i) {
                    let j = choose|j: int|
                        0 <= j < v0.len() && fl[j] && (j == i || is_ancestor(
                            (#[trigger] v0[j]).local,
                            v0[i].local,
                        ));
                    assert(root_taints(v0, root@, p));
                }
                assert(exists|k: int|
                    0 <= k < v0.len() && (#[trigger] v0[k]).local == p && !kill_idx(v0, fl, k));
            }
        }
        res
    }

    /// Reconciles the tree with its backing storage: asks the loader about
    /// every entry and removes each entry that no longer exists, together
    /// with its whole subtree. An entry survives exactly when it and all of
    /// its ancestors still exist according to the loader.
    pub fn purify(&mut self)
        requires
            old(self).wf(),
        ensures
            final(self).wf(),
            final(self)@ == seq_unkilled(
                old(self)@,
                stale_flags(old(self)@, old(self).spec_loader()),
                old(self)@.len() as int,
            ),
            final(self).spec_loader() == old(self).spec_loader(),
            forall|p: Seq<char>| #[trigger]
                has_path(final(self)@, p) <==> (has_path(old(self)@, p) && !stale_under(
                    old(self)@,
                    old(self).spec_loader(),
                    p,
                )),
            forall|p: Seq<char>| #[trigger]
                has_path(final(self)@, p) ==> entry_at(final(self)@, p) == entry_at(old(self)@, p),
    {
        let n = self.entries.len();
        let mut flags: Vec<bool> = Vec::new();
        let mut i: usize = 0;
        while i < n
            invariant
                i <= n,
                n == self.entries.len(),
                self@.len() == n,
                self.wf(),
                flags@.len() == i,
                forall|q: int|
                    0 <= q < i ==> flags@[q] == !self.spec_loader().exists_spec(
                        (#[trigger] self@[q]).root,
                        self@[q].local,
                    ),
            decreases n - i,
        {
            let ex = self.loader.path_exists(
                self.entries[i].node.root_path.as_str(),
                self.entries[i].node.local_path.as_str(),
            );
            flags.push(!ex);
            i += 1;
        }
        proof {
            assert(flags@ =~= stale_flags(self@, self.spec_loader()));
        }
        self.remove_flagged(&flags);
        proof {
            let v0 = old(self)@;
            let ld = old(self).spec_loader();
            let fl = stale_flags(v0, ld);
            lemma_unkilled_wf(v0, fl);
            assert forall|p: Seq<char>| #[trigger] has_path(final(self)@, p) implies (has_path(
                v0,
                p,
            ) && !stale_under(v0, ld, p)) by {
                let i = choose|i: int|
                    0 <= i < v0.len() && (#[trigger] v0[i]).local == p && !kill_idx(v0, fl, i);
                if stale_under(v0, ld, p) {
                    let j = choose|j: int|
                        0 <= j < v0.len() && !ld.exists_spec((#[trigger] v0[j]).root, v0[j].local)
                            && (v0[j].local == p || is_ancestor(v0[j].local, p));
                    if v0[j].local == p {
                        assert(j == i);
                    }
                    assert(kill_idx(v0, fl, i));
                }
            }
            assert forall|p: Seq<char>|
                has_path(v0, p) && !stale_under(v0, ld, p) implies #[trigger] has_path(
                final(self)@,
                p,
            ) by {
                let i = index_of(v0, p);
                if kill_idx(v0, fl, i) {
                    let j = choose|j: int|
                        0 <= j < v0.len() && fl[j] && (j == i || is_ancestor(
                            (#[trigger] v0[j]).local,
                            v0[i].local,
                        ));
                    assert(stale_under(v0, ld, p));
                }
                assert(exists|k: int|
                    0 <= k < v0.len() && (#[trigger] v0[k]).local == p && !kill_idx(v0, fl, k));
            }
        }
    }

    /// Walks the tree and removes every entry the filter rejects, together
    /// with its whole subtree; an entry under a rejected one is not offered
    /// to the filter. Returns `(root, local, reason)` for each top-level
    /// rejection, in walk order.
    pub fn filter_walk_paths<F: EntryFilter>(&mut self, f: &F) -> (res: Vec<
        (String, String, F::Reason),
    >)
        requires
            old(self).wf(),
        ensures
            final(self).wf(),
            final(self)@ == seq_unkilled(
                old(self)@,
                reject_flags(old(self)@, *f),
                old(self)@.len() as int,
            ),
            final(self).spec_loader() == old(self).spec_loader(),
            forall|p: Seq<char>| #[trigger]
                has_path(final(self)@, p) <==> (has_path(old(self)@, p) && !rejected_under(
                    old(self)@,
                    *f,
                    p,
                )),
            forall|p: Seq<char>| #[trigger]
                has_path(final(self)@, p) ==> entry_at(final(self)@, p) == entry_at(old(self)@, p),
            triple_views(res@) == filter_top_results(old(self)@, *f, old(self)@.len() as int),
    {
        let n = self.entries.len();
        let mut flags: Vec<bool> = Vec::new();
        let mut res: Vec<(String, String, F::Reason)> = Vec::new();
        let mut i: usize = 0;
        proof {
            assert(triple_views(res@) =~= Seq::<(Seq<char>, Seq<char>, F::Reason)>::empty());
        }
        while i < n
            invariant
                i <= n,
                n == self.entries.len(),
                self@.len() == n,
                self.wf(),
                flags@.len() == i,
                forall|q: int|
                    0 <= q < i ==> (#[trigger] flags@[q]) == (f.reject_spec(self@[q]) is Some && !(
                    exists|j: int|
                        0 <= j < q && flags@[j] && is_ancestor(
                            (#[trigger] self@[j]).local,
                            self@[q].local,
                        ))),
                triple_views(res@) == filter_top_results(self@, *f, i as int),
            decreases n - i,
        {
            let mut above = false;
            let mut j: usize = 0;
            while j < i
                invariant
                    j <= i < n,
                    n == self.entries.len(),
                    self@.len() == n,
                    self.wf(),
                    flags@.len() == i,
                    above == exists|q: int|
                        0 <= q < j && (#[trigger] flags@[q]) && is_ancestor(
                            self@[q].local,
                            self@[i as int].local,
                        ),
                decreases i - j,
            {
                if flags[j] && is_ancestor_path(
                    self.entries[j].node.local_path.as_str(),
                    self.entries[i].node.local_path.as_str(),
                ) {
                    above = true;
                    proof {
                        assert(0 <= j < j + 1 && flags@[j as int] && is_ancestor(
                            self@[j as int].local,
                            self@[i as int].local,
                        ));
                    }
                }
                j += 1;
            }
            proof {
                lemma_lazy_above(self@, *f, flags@, i as int);
            }
            if above {
                flags.push(false);
            } else {
                // the entry lies under no rejected ancestor: offer it to the
                // filter
                let verdict = f.reject(&self.entries[i].node, self.entries[i].entry_type);
                match verdict {
                    Some(reason) => {
                        let ghost rv = triple_views(res@);
                        res.push(
                            (
                                self.entries[i].node.root_path.clone(),
                                self.entries[i].node.local_path.clone(),
                                reason,
                            ),
                        );
                        proof {
                            assert(triple_views(res@) =~= rv.push(
                                (
                                    self@[i as int].root,
                                    self@[i as int].local,
                                    f.reject_spec(self@[i as int]).unwrap(),
                                ),
                            ));
                        }
                        flags.push(true);
                    },
                    None => {
                        flags.push(false);
                    },
                }
            }
            i += 1;
        }
        proof {
            lemma_lazy_flags_kill(self@, *f, flags@);
            lemma_unkilled_pointwise(self@, flags@, reject_flags(self@, *f), self@.len() as int);
        }
        self.remove_flagged(&flags);
        proof {
            let v0 = old(self)@;
            let fl = reject_flags(v0, *f);
            lemma_unkilled_wf(v0, fl);
            assert forall|p: Seq<char>| #[trigger] has_path(final(self)@, p) implies (has_path(
                v0,
                p,
            ) && !rejected_under(v0, *f, p)) by {
                let i = choose|i: int|
                    0 <= i < v0.len() && (#[trigger] v0[i]).local == p && !kill_idx(v0, fl, i);
                if rejected_under(v0, *f, p) {
                    let j = choose|j: int|
                        0 <= j < v0.len() && f.reject_spec(#[trigger] v0[j]) is Some && (v0[j].local
                            == p || is_ancestor(v0[j].local, p));
                    if v0[j].local == p {
                        assert(j == i);
                    }
                    assert(kill_idx(v0, fl, i));
                }
            }
            assert forall|p: Seq<char>|
                has_path(v0, p) && !rejected_under(v0, *f, p) implies #[trigger] has_path(
                final(self)@,
                p,
            ) by {
                let i = index_of(v0, p);
                if kill_idx(v0, fl, i) {
                    let j = choose|j: int|
                        0 <= j < v0.len() && fl[j] && (j == i || is_ancestor(
                            (#[trigger] v0[j]).local,
                            v0[i].local,
                        ));
                    assert(rejected_under(v0, *f, p));
                }
                assert(exists|k: int|
                    0 <= k < v0.len() && (#[trigger] v0[k]).local == p && !kill_idx(v0, fl, k));
            }
        }
        res
    }

    /// A pre-order walk of the tree: every entry's node and classification,
    /// parents before children. The tree root itself is not reported.
    pub fn walk_paths(&self) -> (res: Vec<(Node, FileEntryType)>)
        ensures
            res@.len() == self@.len(),
            forall|i: int|
                0 <= i < self@.len() ==> ((#[trigger] res@[i]).0@.name == self@[i].name
                    && res@[i].0@.local == self@[i].local && res@[i].0@.root == self@[i].root
                    && res@[i].1 == self@[i].ty),
    {
        let n = self.entries.len();
        let mut res: Vec<(Node, FileEntryType)> = Vec::new();
        let mut i: usize = 0;
        while i < n
            invariant
                i <= n,
                n == self.entries.len(),
                self@.len() == n,
                res@.len() == i,
                forall|q: int|
                    0 <= q < i ==> ((#[trigger] res@[q]).0@.name == self@[q].name && res@[q].0@.local
                        == self@[q].local && res@[q].0@.root == self@[q].root && res@[q].1
                        == self@[q].ty),
            decreases n - i,
        {
            res.push((self.entries[i].node.clone(), self.entries[i].entry_type));
            i += 1;
        }
        res
    }

    /// The local paths of the entries directly under the given path, in walk
    /// order; the empty path names the tree root and yields the top-level
    /// entries.
    pub fn get_children(&self, path: &str) -> (res: Vec<String>)
        ensures
            string_views(res@) == child_locals(self@, path@, self@.len() as int),
    {
        let p = path.to_owned();
        let n = self.entries.len();
        let mut res: Vec<String> = Vec::new();
        let mut i: usize = 0;
        proof {
            assert(string_views(res@) =~= Seq::<Seq<char>>::empty());
        }
        while i < n
            invariant
                i <= n,
                n == self.entries.len(),
                self@.len() == n,
                p@ == path@,
                string_views(res@) == child_locals(self@, path@, i as int),
            decreases n - i,
        {
            let par = crate::paths::parent_of(self.entries[i].node.local_path.as_str());
            if par == p {
                let ghost rv = string_views(res@);
                res.push(self.entries[i].node.local_path.clone());
                proof {
                    assert(string_views(res@) =~= rv.push(self@[i as int].local));
                }
            }
            i += 1;
        }
        res
    }

    /// Loads the bytes behind a local path. A present path (the empty path
    /// names the always-present tree root) is read through its stored root,
    /// and a loader failure there is propagated. An absent path is the soft
    /// miss `Ok(None)`, never an error; the loader is not consulted for it.
    pub fn load(&self, path: &str) -> (r: Result<Option<Vec<u8>>, L::ErrorType>)
        requires
            self.wf(),
        ensures
            ({
                let present = path@.len() == 0 || has_path(self@, path@);
                let rt = if path@.len() == 0 {
                    Seq::<char>::empty()
                } else {
                    entry_at(self@, path@).root
                };
                if present {
                    match self.spec_loader().data_spec(rt, path@) {
                        Some(d) => r matches Ok(o) && o matches Some(b) && b@ == d,
                        None => r matches Err(_),
                    }
                } else {
                    r matches Ok(o) && o is None
                }
            }),
    {
        let p = path.to_owned();
        proof {
            reveal_strlit("");
            assert(("")@ =~= Seq::<char>::empty());
        }
        if path.unicode_len() == 0 {
            match self.loader.load_path("", path) {
                Ok(d) => Ok(Some(d)),
                Err(e) => Err(e),
            }
        } else {
            match self.find_idx(&p) {
                Some(i) => {
                    proof {
                        lemma_entry_at(self@, i as int);
                    }
                    match self.loader.load_path(self.entries[i].node.root_path.as_str(), path) {
                        Ok(d) => Ok(Some(d)),
                        Err(e) => Err(e),
                    }
                },
                None => Ok(None),
            }
        }
    }

    /// The size of the file behind a local path: what the loader reports for
    /// the entry's stored root, or nothing when the path is absent.
    pub fn query_filesize(&self, path: &str) -> (r: Option<usize>)
        requires
            self.wf(),
        ensures
            r == (if path@.len() == 0 {
                self.spec_loader().size_spec(Seq::<char>::empty(), path@)
            } else if has_path(self@, path@) {
                self.spec_loader().size_spec(entry_at(self@, path@).root, path@)
            } else {
                None::<usize>
            }),
    {
        let p = path.to_owned();
        proof {
            reveal_strlit("");
            assert(("")@ =~= Seq::<char>::empty());
        }
        if path.unicode_len() == 0 {
            self.loader.get_file_size("", path)
        } else {
            match self.find_idx(&p) {
                Some(i) => {
                    proof {
                        lemma_entry_at(self@, i as int);
                    }
                    self.loader.get_file_size(self.entries[i].node.root_path.as_str(), path)
                },
                None => None,
            }
        }
    }

    /// The size the loader reports for a local path under the empty root,
    /// without consulting the tree; meant for loaders of virtual entries.
    pub fn query_filesize_local(&self, path: &str) -> (r: Option<usize>)
        ensures
            r == self.spec_loader().size_spec(Seq::<char>::empty(), path@),
    {
        proof {
            reveal_strlit("");
            assert(("")@ =~= Seq::<char>::empty());
        }
        self.loader.get_file_size("", path)
    }

    /// The concrete addressable path behind a present local path, as the
    /// loader resolves it; nothing when the path is absent.
    pub fn get_full_path(&self, path: &str) -> (r: Option<String>)
        requires
            self.wf(),
        ensures
            ({
                let present = path@.len() == 0 || has_path(self@, path@);
                let rt = if path@.len() == 0 {
                    Seq::<char>::empty()
                } else if has_path(self@, path@) {
                    entry_at(self@, path@).root
                } else {
                    Seq::<char>::empty()
                };
                if present {
                    match r {
                        Some(s) => self.spec_loader().actual_path_spec(rt, path@) == Some(s@),
                        None => self.spec_loader().actual_path_spec(rt, path@) is None,
                    }
                } else {
                    r is None
                }
            }),
    {
        let p = path.to_owned();
        proof {
            reveal_strlit("");
            assert(("")@ =~= Seq::<char>::empty());
        }
        if path.unicode_len() == 0 {
            self.loader.get_actual_path("", path)
        } else {
            match self.find_idx(&p) {
                Some(i) => {
                    proof {
                        lemma_entry_at(self@, i as int);
                    }
                    self.loader.get_actual_path(self.entries[i].node.root_path.as_str(), path)
                },
                None => None,
            }
        }
    }

    /// Classifies a local path. A present entry whose stored root is the
    /// empty sentinel is a directory on the tree's own authority; otherwise
    /// the loader classifies the pair (with the empty root for an absent
    /// path).
    pub fn get_path_type(&self, path: &str) -> (r: Result<FileEntryType, L::ErrorType>)
        requires
            self.wf(),
        ensures
            ({
                let present = path@.len() == 0 || has_path(self@, path@);
                let rt = if path@.len() == 0 {
                    Seq::<char>::empty()
                } else if has_path(self@, path@) {
                    entry_at(self@, path@).root
                } else {
                    Seq::<char>::empty()
                };
                if present && rt.len() == 0 {
                    r matches Ok(t) && t is Directory
                } else {
                    match self.spec_loader().type_spec(rt, path@) {
                        Some(t) => r matches Ok(got) && got == t,
                        None => r matches Err(_),
                    }
                }
            }),
    {
        let p = path.to_owned();
        proof {
            reveal_strlit("");
            assert(("")@ =~= Seq::<char>::empty());
        }
        if path.unicode_len() == 0 {
            return Ok(FileEntryType::Directory);
        }
        match self.find_idx(&p) {
            Some(i) => {
                proof {
                    lemma_entry_at(self@, i as int);
                }
                if self.entries[i].node.root_path.as_str().unicode_len() == 0 {
                    Ok(FileEntryType::Directory)
                } else {
                    self.loader.get_path_type(self.entries[i].node.root_path.as_str(), path)
                }
            },
            None => self.loader.get_path_type("", path),
        }
    }

    /// A shared borrow of the bound loader.
    pub fn loader(&self) -> (r: &L)
        ensures
            r == self.spec_loader(),
    {
        &self.loader
    }

    /// A mutable borrow of the bound loader; the entry table is unaffected.
    pub fn loader_mut(&mut self) -> (r: &mut L)
        ensures
            *r == old(self).spec_loader(),
            final(self).spec_loader() == *final(r),
            final(self)@ == old(self)@,
    {
        &mut self.loader
    }

    /// The root path backing a local path, if the path is present; the tree
    /// root is backed by the empty root.
    pub fn get_root_for_path(&self, path: &str) -> (r: Option<String>)
        requires
            self.wf(),
        ensures
            match r {
                Some(root) => if path@.len() == 0 {
                    root@.len() == 0
                } else {
                    has_path(self@, path@) && root@ == entry_at(self@, path@).root
                },
                None => path@.len() > 0 && !has_path(self@, path@),
            },
    {
        if path.unicode_len() == 0 {
            return Some(String::new());
        }
        let p = path.to_owned();
        match self.find_idx(&p) {
            Some(i) => {
                proof {
                    lemma_entry_at(self@, i as int);
                }
                Some(self.entries[i].node.root_path.clone())
            },
            None => None,
        }
    }
}

} // verus!
