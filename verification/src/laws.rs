//! The library's structural guarantees, stated once and proved.
//!
//! Each proof function here records a property of the tree model that holds
//! for every tree and every input, over the same specification functions the
//! executable operations are contracted with.

use crate::paths::{is_ancestor, valid_path};
use crate::tree::{
    covered_by, dir_entry, entries_wf, entry_at, has_path, insert_result, lemma_insert_result_wf,
    lemma_missing_member, lemma_remove_covered_member, lemma_remove_covered_wf, lookup,
    missing_ancestors, new_entry, seq_remove_covered, EntryView,
};
use crate::FileEntryType;
use vstd::prelude::*;

verus! {

/// Trie prefix invariant, standing part: in a well-formed tree, every strict
/// ancestor directory of a present local path is present too.
pub proof fn lemma_prefix_closed(v: Seq<EntryView>, p: Seq<char>, a: Seq<char>)
    requires
        entries_wf(v),
        has_path(v, p),
        is_ancestor(a, p),
    ensures
        has_path(v, a),
{
    let i = choose|i: int| 0 <= i < v.len() && (#[trigger] v[i]).local == p;
    assert(is_ancestor(a, v[i].local));
}

/// Trie prefix invariant, dynamic part: after inserting a local path, every
/// strict ancestor of it is present, even if never explicitly inserted.
pub proof fn lemma_insert_creates_ancestors(
    v: Seq<EntryView>,
    root: Seq<char>,
    l: Seq<char>,
    ty: FileEntryType,
    a: Seq<char>,
)
    requires
        entries_wf(v),
        valid_path(l),
        is_ancestor(a, l),
    ensures
        has_path(insert_result(v, root, l, ty), a),
{
    lemma_insert_result_wf(v, root, l, ty);
}

/// Uniqueness, standing part: in a well-formed tree, at most one entry
/// occupies any local path.
pub proof fn lemma_unique_occupant(v: Seq<EntryView>, i: int, j: int)
    requires
        entries_wf(v),
        0 <= i < v.len(),
        0 <= j < v.len(),
        v[i].local == v[j].local,
    ensures
        i == j,
{
}

/// Uniqueness, dynamic part: an insert with overwrite puts exactly the new
/// entry at the path and makes every descendant of the replaced subtree
/// absent.
pub proof fn lemma_insert_overwrites(
    v: Seq<EntryView>,
    root: Seq<char>,
    l: Seq<char>,
    ty: FileEntryType,
)
    requires
        entries_wf(v),
        valid_path(l),
    ensures
        lookup(insert_result(v, root, l, ty), l) == Some(new_entry(root, l, ty)),
        forall|p: Seq<char>| #[trigger]
            is_ancestor(l, p) ==> !has_path(insert_result(v, root, l, ty), p),
{
    lemma_insert_result_wf(v, root, l, ty);
}

/// Round trip: after inserting a file bound to root `root` at local path
/// `l`, looking `l` up yields exactly that pair, classified as a file.
pub proof fn lemma_insert_round_trip(v: Seq<EntryView>, root: Seq<char>, l: Seq<char>)
    requires
        entries_wf(v),
        valid_path(l),
    ensures
        has_path(insert_result(v, root, l, FileEntryType::File), l),
        entry_at(insert_result(v, root, l, FileEntryType::File), l).root == root,
        entry_at(insert_result(v, root, l, FileEntryType::File), l).local == l,
        entry_at(insert_result(v, root, l, FileEntryType::File), l).ty is File,
{
    lemma_insert_result_wf(v, root, l, FileEntryType::File);
}

/// Removal completeness: removing a local path makes the path itself and
/// every strict descendant of it absent, and touches nothing else.
pub proof fn lemma_removal_complete(v: Seq<EntryView>, l: Seq<char>, p: Seq<char>)
    requires
        entries_wf(v),
    ensures
        p == l || is_ancestor(l, p) ==> !has_path(seq_remove_covered(v, l), p),
        !(p == l || is_ancestor(l, p)) ==> lookup(seq_remove_covered(v, l), p) == lookup(v, p),
{
    lemma_remove_covered_wf(v, l);
    if !covered_by(p, l) && has_path(v, p) {
        assert(has_path(seq_remove_covered(v, l), p));
    }
}

/// A table in which no entry is the path or one of its descendants is left
/// unchanged by a removal at that path.
proof fn lemma_remove_covered_noop(s: Seq<EntryView>, l: Seq<char>)
    requires
        forall|i: int| 0 <= i < s.len() ==> !covered_by((#[trigger] s[i]).local, l),
    ensures
        seq_remove_covered(s, l) == s,
    decreases s.len(),
{
    if s.len() > 0 {
        assert forall|i: int| 0 <= i < s.drop_last().len() implies !covered_by(
            (#[trigger] s.drop_last()[i]).local,
            l,
        ) by {
            assert(s.drop_last()[i] == s[i]);
        }
        lemma_remove_covered_noop(s.drop_last(), l);
        assert(seq_remove_covered(s, l) =~= s);
    }
}

/// No ancestors are missing from a table that already holds the path's
/// whole ancestor chain.
proof fn lemma_missing_ancestors_none(s: Seq<EntryView>, l: Seq<char>, k: int)
    requires
        k <= l.len(),
        forall|m: int| 0 <= m < k && l[m] == '/' ==> has_path(s, #[trigger] l.subrange(0, m)),
    ensures
        missing_ancestors(s, l, k) == Seq::<EntryView>::empty(),
    decreases k,
{
    if k > 0 {
        lemma_missing_ancestors_none(s, l, k - 1);
    }
}

/// Idempotent directory insert: inserting the same directory local path
/// twice, with whatever roots, leaves the tree of the first insert exactly
/// as it was — a directory entry never records a physical root, so the
/// second insert replaces the node with an identical one and drops an empty
/// subtree.
pub proof fn lemma_directory_insert_idempotent(
    v: Seq<EntryView>,
    r1: Seq<char>,
    r2: Seq<char>,
    l: Seq<char>,
)
    requires
        entries_wf(v),
        valid_path(l),
    ensures
        insert_result(insert_result(v, r1, l, FileEntryType::Directory), r2, l, FileEntryType::Directory)
            == insert_result(v, r1, l, FileEntryType::Directory),
        lookup(insert_result(v, r1, l, FileEntryType::Directory), l) == Some(dir_entry(l)),
{
    lemma_insert_result_wf(v, r1, l, FileEntryType::Directory);
    let w = seq_remove_covered(v, l);
    lemma_remove_covered_wf(v, l);
    let ma = missing_ancestors(w, l, l.len() as int);
    let e = new_entry(r1, l, FileEntryType::Directory);
    let v1 = insert_result(v, r1, l, FileEntryType::Directory);
    assert(e == dir_entry(l));
    assert(new_entry(r2, l, FileEntryType::Directory) == e);
    assert(v1 =~= (w + ma).push(e));
    assert((w + ma).push(e).drop_last() =~= w + ma);

    // neither a kept entry nor a created ancestor is covered by `l`
    assert forall|i: int| 0 <= i < (w + ma).len() implies !covered_by(
        (#[trigger] (w + ma)[i]).local,
        l,
    ) by {
        if i < w.len() {
            lemma_remove_covered_member(v, l, i);
        } else {
            lemma_missing_member(w, l, l.len() as int, i - w.len());
            let m = choose|m: int|
                0 <= m < l.len() && l[m] == '/' && ma[i - w.len()] == dir_entry(
                    #[trigger] l.subrange(0, m),
                ) && !has_path(w, l.subrange(0, m));
            assert((w + ma)[i].local.len() == m);
            if is_ancestor(l, (w + ma)[i].local) {
                assert((w + ma)[i].local.len() > l.len());
            }
        }
    }
    assert(seq_remove_covered(v1, l) == w + ma) by {
        assert(v1.drop_last() =~= w + ma);
        assert(covered_by(v1.last().local, l));
        lemma_remove_covered_noop(w + ma, l);
    }
    // every ancestor of `l` is present in the first result's body
    assert forall|m: int| 0 <= m < l.len() && l[m] == '/' implies has_path(
        w + ma,
        #[trigger] l.subrange(0, m),
    ) by {
        crate::paths::lemma_prefix_at_sep(l, m);
        let a = l.subrange(0, m);
        assert(has_path(v1, a));
        let i = choose|i: int| 0 <= i < v1.len() && (#[trigger] v1[i]).local == a;
        assert(i < v1.len() - 1);
        assert((w + ma)[i] == v1[i]);
    }
    lemma_missing_ancestors_none(w + ma, l, l.len() as int);
    assert(insert_result(v1, r2, l, FileEntryType::Directory) =~= v1);
}

} // verus!
