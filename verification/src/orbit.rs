//! Discovery and layered composition.
//!
//! A [`DiscoverSystem`] ingests a walked directory listing into one
//! [`Tree`], applying a [`ConflictHandler`] when an incoming file collides
//! with a registered path. An [`Orbit`] composes three independently built
//! trees — physical, patch and virtual — into one namespace with
//! virtual-over-patch-over-physical priority.

use crate::loader::FileLoader;
use crate::paths::{join_path, join_paths, valid_path};
use crate::tree::{
    entry_at, has_path, insert_result, node::Node, root_flags, seq_unkilled, string_views,
    child_locals, EntryView, Tree, TreeError,
};
use crate::{ConflictHandler, FileEntryType};
use vstd::prelude::*;

verus! {

/// A predicate over local paths, bound to a discovery system at
/// construction. `matches_spec` fixes, for one predicate value, which paths
/// it matches; an implementation proves that its executable `matches` agrees
/// with it.
pub trait PathPredicate {
    /// Which paths the predicate matches.
    spec fn matches_spec(&self, path: Seq<char>) -> bool;

    /// The executable test.
    fn matches(&self, path: &str) -> (r: bool)
        ensures
            r == self.matches_spec(path@),
    ;
}

/// The predicate that matches nothing: the default ignore and collect
/// predicate of a fresh discovery system.
pub struct DefaultPredicate;

impl PathPredicate for DefaultPredicate {
    open spec fn matches_spec(&self, path: Seq<char>) -> bool {
        false
    }

    fn matches(&self, path: &str) -> (r: bool) {
        false
    }
}

/// The predicate that matches exactly one local path.
pub struct ExactPredicate {
    pub path: String,
}

impl PathPredicate for ExactPredicate {
    open spec fn matches_spec(&self, path: Seq<char>) -> bool {
        path == self.path@
    }

    fn matches(&self, path: &str) -> (r: bool) {
        let p = path.to_owned();
        p == self.path
    }
}

/// A conflict reported by discovery. A `StandardConflict` names the rejected
/// full path and the full path of the retained occupant. A `RootConflict`
/// names the evicted root and the contested local path.
#[derive(Debug, PartialEq)]
pub enum ConflictKind {
    StandardConflict(String, String),
    RootConflict(String, String),
}

/// The view of a [`ConflictKind`].
pub ghost enum ConflictView {
    Standard(Seq<char>, Seq<char>),
    Root(Seq<char>, Seq<char>),
}

impl View for ConflictKind {
    type V = ConflictView;

    open spec fn view(&self) -> ConflictView {
        match self {
            ConflictKind::StandardConflict(a, b) => ConflictView::Standard(a@, b@),
            ConflictKind::RootConflict(a, b) => ConflictView::Root(a@, b@),
        }
    }
}

/// The views of a sequence of conflicts.
pub open spec fn conflict_views(s: Seq<ConflictKind>) -> Seq<ConflictView> {
    Seq::new(s.len(), |i: int| s[i]@)
}

/// The views of a sequence of collected `(root, local)` pairs.
pub open spec fn pair_views(s: Seq<(String, String)>) -> Seq<(Seq<char>, Seq<char>)> {
    Seq::new(s.len(), |i: int| (s[i].0@, s[i].1@))
}

/// The views of a walked directory listing.
pub open spec fn entry_pair_views(s: Seq<(String, FileEntryType)>) -> Seq<
    (Seq<char>, FileEntryType),
> {
    Seq::new(s.len(), |i: int| (s[i].0@, s[i].1))
}

/// The mutable state of a discovery system: its tree and what the collect
/// predicate has gathered.
pub ghost struct DiscoverStateView {
    pub tree: Seq<EntryView>,
    pub collected: Seq<(Seq<char>, Seq<char>)>,
}

/// What a discovery run has produced after some prefix of the walked
/// entries: still going with the standard conflicts gathered so far, stopped
/// by a root-level conflict, or aborted by a strict collision (whose
/// payloads are the incoming full path and the occupant's full path).
pub ghost enum DiscoverOutcome {
    Done(DiscoverStateView, Seq<ConflictView>),
    RootStop(DiscoverStateView, ConflictView),
    Fatal(DiscoverStateView, Seq<char>, Seq<char>),
}

/// One walked entry, applied to the discovery state.
///
/// Collected paths are recorded in the accumulator and never enter the
/// tree; the collect predicate is tested first, so a path matched by both
/// predicates is collected, not ignored. Ignored paths are skipped. A
/// directory is inserted only when its path is absent, so
/// directory inserts are idempotent and bypass conflict handling. A file at
/// an absent path is inserted; at an occupied path the conflict handler
/// decides: `Strict` aborts naming both full paths, `NoRoot` evicts every entry
/// bound to the occupant's root and stops the run, `First` keeps the
/// occupant and reports both full paths, `Last` overwrites silently.
pub open spec fn discover_step<I: PathPredicate, C: PathPredicate>(
    st: DiscoverStateView,
    handler: ConflictHandler,
    ignore: I,
    collect: C,
    root: Seq<char>,
    local: Seq<char>,
    ty: FileEntryType,
) -> DiscoverOutcome {
    if collect.matches_spec(local) {
        DiscoverOutcome::Done(
            DiscoverStateView { collected: st.collected.push((root, local)), ..st },
            Seq::empty(),
        )
    } else if ignore.matches_spec(local) {
        DiscoverOutcome::Done(st, Seq::empty())
    } else if ty is Directory {
        if has_path(st.tree, local) {
            DiscoverOutcome::Done(st, Seq::empty())
        } else {
            DiscoverOutcome::Done(
                DiscoverStateView {
                    tree: insert_result(st.tree, root, local, FileEntryType::Directory),
                    ..st
                },
                Seq::empty(),
            )
        }
    } else if !has_path(st.tree, local) {
        DiscoverOutcome::Done(
            DiscoverStateView {
                tree: insert_result(st.tree, root, local, FileEntryType::File),
                ..st
            },
            Seq::empty(),
        )
    } else {
        let occ = entry_at(st.tree, local);
        match handler {
            ConflictHandler::Strict => DiscoverOutcome::Fatal(
                st,
                join_path(root, local),
                join_path(occ.root, local),
            ),
            ConflictHandler::NoRoot => DiscoverOutcome::RootStop(
                DiscoverStateView {
                    tree: seq_unkilled(
                        st.tree,
                        root_flags(st.tree, occ.root),
                        st.tree.len() as int,
                    ),
                    ..st
                },
                ConflictView::Root(occ.root, local),
            ),
            ConflictHandler::First => DiscoverOutcome::Done(
                st,
                seq![ConflictView::Standard(join_path(root, local), join_path(occ.root, local))],
            ),
            ConflictHandler::Last => DiscoverOutcome::Done(
                DiscoverStateView {
                    tree: insert_result(st.tree, root, local, FileEntryType::File),
                    ..st
                },
                Seq::empty(),
            ),
        }
    }
}

/// The discovery state after the first `i` walked entries; a root-level stop
/// or a strict abort absorbs everything after it.
pub open spec fn discover_prefix<I: PathPredicate, C: PathPredicate>(
    st0: DiscoverStateView,
    handler: ConflictHandler,
    ignore: I,
    collect: C,
    root: Seq<char>,
    entries: Seq<(Seq<char>, FileEntryType)>,
    i: int,
) -> DiscoverOutcome
    decreases i,
{
    if i <= 0 {
        DiscoverOutcome::Done(st0, Seq::empty())
    } else {
        match discover_prefix(st0, handler, ignore, collect, root, entries, i - 1) {
            DiscoverOutcome::Done(st, cs) => match discover_step(
                st,
                handler,
                ignore,
                collect,
                root,
                entries[i - 1].0,
                entries[i - 1].1,
            ) {
                DiscoverOutcome::Done(st2, cs2) => DiscoverOutcome::Done(st2, cs + cs2),
                DiscoverOutcome::RootStop(st2, c) => DiscoverOutcome::RootStop(st2, c),
                DiscoverOutcome::Fatal(st2, p, q) => DiscoverOutcome::Fatal(st2, p, q),
            },
            DiscoverOutcome::RootStop(st, c) => DiscoverOutcome::RootStop(st, c),
            DiscoverOutcome::Fatal(st, p, q) => DiscoverOutcome::Fatal(st, p, q),
        }
    }
}

/// Once a discovery run has stopped or aborted, the later entries change
/// nothing.
pub proof fn lemma_discover_prefix_absorbs<I: PathPredicate, C: PathPredicate>(
    st0: DiscoverStateView,
    handler: ConflictHandler,
    ignore: I,
    collect: C,
    root: Seq<char>,
    entries: Seq<(Seq<char>, FileEntryType)>,
    i: int,
    j: int,
)
    requires
        0 <= i <= j,
        !(discover_prefix(st0, handler, ignore, collect, root, entries, i) is Done),
    ensures
        discover_prefix(st0, handler, ignore, collect, root, entries, j) == discover_prefix(
            st0,
            handler,
            ignore,
            collect,
            root,
            entries,
            i,
        ),
    decreases j - i,
{
    if j > i {
        lemma_discover_prefix_absorbs(st0, handler, ignore, collect, root, entries, i, j - 1);
    }
}

/// The views of a list of discovery runs: each root with its walked
/// listing.
pub open spec fn run_views(s: Seq<(String, Vec<(String, FileEntryType)>)>) -> Seq<
    (Seq<char>, Seq<(Seq<char>, FileEntryType)>),
> {
    Seq::new(s.len(), |i: int| (s[i].0@, entry_pair_views(s[i].1@)))
}

/// The discovery state after the first `i` listed runs. Each run contributes
/// its standard conflicts; a run stopped by a root-level conflict
/// contributes that single conflict and ends only its own run; a strict
/// collision aborts everything after it.
pub open spec fn discover_runs_prefix<I: PathPredicate, C: PathPredicate>(
    st0: DiscoverStateView,
    handler: ConflictHandler,
    ignore: I,
    collect: C,
    runs: Seq<(Seq<char>, Seq<(Seq<char>, FileEntryType)>)>,
    i: int,
) -> DiscoverOutcome
    decreases i,
{
    if i <= 0 {
        DiscoverOutcome::Done(st0, Seq::empty())
    } else {
        match discover_runs_prefix(st0, handler, ignore, collect, runs, i - 1) {
            DiscoverOutcome::Done(st, cs) => match discover_prefix(
                st,
                handler,
                ignore,
                collect,
                runs[i - 1].0,
                runs[i - 1].1,
                runs[i - 1].1.len() as int,
            ) {
                DiscoverOutcome::Done(st2, cs2) => DiscoverOutcome::Done(st2, cs + cs2),
                DiscoverOutcome::RootStop(st2, c) => DiscoverOutcome::Done(st2, cs.push(c)),
                DiscoverOutcome::Fatal(st2, p, q) => DiscoverOutcome::Fatal(st2, p, q),
            },
            DiscoverOutcome::RootStop(st, c) => DiscoverOutcome::RootStop(st, c),
            DiscoverOutcome::Fatal(st, p, q) => DiscoverOutcome::Fatal(st, p, q),
        }
    }
}

/// Once a strict collision has aborted a run list, the later runs change
/// nothing.
pub proof fn lemma_discover_runs_absorbs<I: PathPredicate, C: PathPredicate>(
    st0: DiscoverStateView,
    handler: ConflictHandler,
    ignore: I,
    collect: C,
    runs: Seq<(Seq<char>, Seq<(Seq<char>, FileEntryType)>)>,
    i: int,
    j: int,
)
    requires
        0 <= i <= j,
        !(discover_runs_prefix(st0, handler, ignore, collect, runs, i) is Done),
    ensures
        discover_runs_prefix(st0, handler, ignore, collect, runs, j) == discover_runs_prefix(
            st0,
            handler,
            ignore,
            collect,
            runs,
            i,
        ),
    decreases j - i,
{
    if j > i {
        lemma_discover_runs_absorbs(st0, handler, ignore, collect, runs, i, j - 1);
    }
}

/// A discovery engine: one tree under construction, a conflict policy, an
/// ignore predicate, a collect predicate, and the `(root, local)` pairs the
/// collect predicate has gathered.
pub struct DiscoverSystem<A: FileLoader, I: PathPredicate, C: PathPredicate> {
    /// The tree being populated.
    pub tree: Tree<A>,
    /// How file collisions are resolved.
    pub handler: ConflictHandler,
    /// Paths to skip entirely.
    pub ignore: I,
    /// Paths to gather instead of inserting.
    pub collect: C,
    /// What the collect predicate has gathered.
    pub collected: Vec<(String, String)>,
}

impl<A: FileLoader> DiscoverSystem<A, DefaultPredicate, DefaultPredicate> {
    /// A discovery system over a fresh tree, with predicates that match
    /// nothing.
    pub fn new(loader: A, handler: ConflictHandler) -> (r: DiscoverSystem<
        A,
        DefaultPredicate,
        DefaultPredicate,
    >)
        ensures
            r.wf(),
            r.tree@ == Seq::<EntryView>::empty(),
            r.tree.spec_loader() == loader,
            r.handler == handler,
            r.collected@.len() == 0,
    {
        DiscoverSystem {
            tree: Tree::new(loader),
            handler,
            ignore: DefaultPredicate,
            collect: DefaultPredicate,
            collected: Vec::new(),
        }
    }

    /// A discovery system that continues populating an existing tree, with
    /// predicates that match nothing.
    pub fn from_tree(tree: Tree<A>, handler: ConflictHandler) -> (r: DiscoverSystem<
        A,
        DefaultPredicate,
        DefaultPredicate,
    >)
        ensures
            r.tree == tree,
            r.handler == handler,
            r.collected@.len() == 0,
    {
        DiscoverSystem {
            tree,
            handler,
            ignore: DefaultPredicate,
            collect: DefaultPredicate,
            collected: Vec::new(),
        }
    }
}

impl<A: FileLoader, I: PathPredicate, C: PathPredicate> DiscoverSystem<A, I, C> {
    /// The discovery system's mutable state, as the fold specification sees
    /// it.
    pub open spec fn state_view(&self) -> DiscoverStateView {
        DiscoverStateView { tree: self.tree@, collected: pair_views(self.collected@) }
    }

    /// The tree's structural invariants.
    pub open spec fn wf(&self) -> bool {
        self.tree.wf()
    }

    /// Releases the populated tree.
    pub fn into_tree(self) -> (r: Tree<A>)
        ensures
            r == self.tree,
    {
        let DiscoverSystem { tree, .. } = self;
        tree
    }

    /// Replaces the ignore predicate.
    pub fn ignoring<I2: PathPredicate>(self, ignore_fn: I2) -> (r: DiscoverSystem<A, I2, C>)
        ensures
            r.tree == self.tree,
            r.handler == self.handler,
            r.ignore == ignore_fn,
            r.collect == self.collect,
            r.collected == self.collected,
    {
        let DiscoverSystem { tree, handler, collect, collected, .. } = self;
        DiscoverSystem { tree, handler, ignore: ignore_fn, collect, collected }
    }

    /// Replaces the collect predicate.
    pub fn collecting<C2: PathPredicate>(self, collect_fn: C2) -> (r: DiscoverSystem<A, I, C2>)
        ensures
            r.tree == self.tree,
            r.handler == self.handler,
            r.ignore == self.ignore,
            r.collect == collect_fn,
            r.collected == self.collected,
    {
        let DiscoverSystem { tree, handler, ignore, collected, .. } = self;
        DiscoverSystem { tree, handler, ignore, collect: collect_fn, collected }
    }

    /// Resolves a collision between an incoming file and the present
    /// occupant of its local path, according to the bound policy:
    /// - `Strict`: an error naming the incoming full path and the occupant's
    ///   full path; no mutation.
    /// - `NoRoot`: every entry bound to the occupant's root is evicted, and
    ///   a root conflict names that root and the contested local path.
    /// - `First`: no mutation; a standard conflict names the rejected
    ///   incoming full path and the occupant's full path.
    /// - `Last`: no mutation here — the caller overwrites — and no report.
    pub fn handle_conflict(&mut self, root_path: &str, local_path: &str) -> (r: Result<
        Option<ConflictKind>,
        TreeError,
    >)
        requires
            old(self).wf(),
            valid_path(local_path@),
            has_path(old(self).tree@, local_path@),
        ensures
            final(self).wf(),
            final(self).handler == old(self).handler,
            final(self).ignore == old(self).ignore,
            final(self).collect == old(self).collect,
            final(self).collected == old(self).collected,
            final(self).tree.spec_loader() == old(self).tree.spec_loader(),
            ({
                let occ = entry_at(old(self).tree@, local_path@);
                match old(self).handler {
                    ConflictHandler::Strict => final(self).tree@ == old(self).tree@ && (
                    r matches Err(e) && e matches TreeError::OwnedPath(inc, own) && inc@
                        == join_path(root_path@, local_path@) && own@ == join_path(
                        occ.root,
                        local_path@,
                    )),
                    ConflictHandler::NoRoot => final(self).tree@ == seq_unkilled(
                        old(self).tree@,
                        root_flags(old(self).tree@, occ.root),
                        old(self).tree@.len() as int,
                    ) && (r matches Ok(c) && c matches Some(k) && k@ == ConflictView::Root(
                        occ.root,
                        local_path@,
                    )),
                    ConflictHandler::First => final(self).tree@ == old(self).tree@ && (
                    r matches Ok(c) && c matches Some(k) && k@ == ConflictView::Standard(
                        join_path(root_path@, local_path@),
                        join_path(occ.root, local_path@),
                    )),
                    ConflictHandler::Last => final(self).tree@ == old(self).tree@ && (
                    r matches Ok(c) && c is None),
                }
            }),
    {
        match self.handler {
            ConflictHandler::Strict => {
                let occ_root = match self.tree.get_root_for_path(local_path) {
                    Some(rt) => rt,
                    None => {
                        proof {
                            assert(false);
                        }
                        vstd::pervasive::unreached()
                    },
                };
                Err(
                    TreeError::OwnedPath(
                        join_paths(root_path, local_path),
                        join_paths(occ_root.as_str(), local_path),
                    ),
                )
            },
            ConflictHandler::NoRoot => {
                let occ_root = match self.tree.get_root_for_path(local_path) {
                    Some(rt) => rt,
                    None => {
                        proof {
                            assert(false);
                        }
                        vstd::pervasive::unreached()
                    },
                };
                let _ = self.tree.remove_paths_by_root(occ_root.as_str());
                Ok(Some(ConflictKind::RootConflict(occ_root, local_path.to_owned())))
            },
            ConflictHandler::First => {
                let occ_root = match self.tree.get_root_for_path(local_path) {
                    Some(rt) => rt,
                    None => {
                        proof {
                            assert(false);
                        }
                        vstd::pervasive::unreached()
                    },
                };
                Ok(
                    Some(
                        ConflictKind::StandardConflict(
                            join_paths(root_path, local_path),
                            join_paths(occ_root.as_str(), local_path),
                        ),
                    ),
                )
            },
            ConflictHandler::Last => Ok(None),
        }
    }

    /// Ingests a walked directory listing, already relative to `root`: each
    /// entry is a local path with its classification, parents walked before
    /// their children. Returns the standard conflicts gathered over the
    /// whole listing; a root-level conflict stops the run at once, discards
    /// the earlier reports, and is returned alone; a strict collision aborts
    /// the run with an error.
    pub fn discover_entries(&mut self, root: &str, entries: &Vec<(String, FileEntryType)>) -> (r:
        Result<Vec<ConflictKind>, TreeError>)
        requires
            old(self).wf(),
            forall|i: int| 0 <= i < entries@.len() ==> valid_path((#[trigger] entries@[i]).0@),
        ensures
            final(self).wf(),
            final(self).handler == old(self).handler,
            final(self).ignore == old(self).ignore,
            final(self).collect == old(self).collect,
            final(self).tree.spec_loader() == old(self).tree.spec_loader(),
            ({
                let out = discover_prefix(
                    old(self).state_view(),
                    old(self).handler,
                    old(self).ignore,
                    old(self).collect,
                    root@,
                    entry_pair_views(entries@),
                    entries@.len() as int,
                );
                match out {
                    DiscoverOutcome::Done(st, cs) => final(self).state_view() == st && (
                    r matches Ok(v) && conflict_views(v@) == cs),
                    DiscoverOutcome::RootStop(st, c) => final(self).state_view() == st && (
                    r matches Ok(v) && conflict_views(v@) == seq![c]),
                    DiscoverOutcome::Fatal(st, p, q) => final(self).state_view() == st && (
                    r matches Err(e) && e matches TreeError::OwnedPath(inc, own) && inc@ == p
                        && own@ == q),
                }
            }),
    {
        let ghost st0 = old(self).state_view();
        let ghost h = old(self).handler;
        let ghost ig = old(self).ignore;
        let ghost co = old(self).collect;
        let ghost evs = entry_pair_views(entries@);
        let n = entries.len();
        let mut conflicts: Vec<ConflictKind> = Vec::new();
        let mut i: usize = 0;
        proof {
            assert(conflict_views(conflicts@) =~= Seq::<ConflictView>::empty());
        }
        while i < n
            invariant
                i <= n,
                n == entries@.len(),
                evs == entry_pair_views(entries@),
                forall|q: int| 0 <= q < entries@.len() ==> valid_path((#[trigger] entries@[q]).0@),
                self.wf(),
                st0 == old(self).state_view(),
                h == old(self).handler,
                ig == old(self).ignore,
                co == old(self).collect,
                self.handler == h,
                self.ignore == ig,
                self.collect == co,
                self.tree.spec_loader() == old(self).tree.spec_loader(),
                discover_prefix(st0, h, ig, co, root@, evs, i as int) == DiscoverOutcome::Done(
                    self.state_view(),
                    conflict_views(conflicts@),
                ),
            decreases n - i,
        {
            let ghost pre_st = self.state_view();
            let ghost pre_cs = conflict_views(conflicts@);
            let ghost local_v = entries@[i as int].0@;
            let ty = entries[i].1;
            proof {
                assert(evs[i as int] == (local_v, ty));
            }
            if self.collect.matches(entries[i].0.as_str()) {
                let ghost cv = pair_views(self.collected@);
                self.collected.push((root.to_owned(), entries[i].0.clone()));
                proof {
                    assert(pair_views(self.collected@) =~= cv.push((root@, local_v)));
                    assert(pre_cs + Seq::<ConflictView>::empty() =~= pre_cs);
                }
            } else if self.ignore.matches(entries[i].0.as_str()) {
                proof {
                    assert(pre_cs + Seq::<ConflictView>::empty() =~= pre_cs);
                }
            } else {
                let is_dir = match ty {
                    FileEntryType::Directory => true,
                    FileEntryType::File => false,
                };
                if is_dir {
                    if !self.tree.contains_path(entries[i].0.as_str()) {
                        let _ = self.tree.insert_directory(root, entries[i].0.as_str());
                    }
                    proof {
                        assert(pre_cs + Seq::<ConflictView>::empty() =~= pre_cs);
                    }
                } else {
                    if self.tree.contains_path(entries[i].0.as_str()) {
                        match self.handle_conflict(root, entries[i].0.as_str()) {
                            Err(e) => {
                                proof {
                                    lemma_discover_prefix_absorbs(
                                        st0,
                                        h,
                                        ig,
                                        co,
                                        root@,
                                        evs,
                                        i as int + 1,
                                        evs.len() as int,
                                    );
                                }
                                return Err(e);
                            },
                            Ok(Some(c)) => {
                                match c {
                                    ConflictKind::RootConflict(a, b) => {
                                        let one = ConflictKind::RootConflict(a, b);
                                        let ghost cview = one@;
                                        let mut out: Vec<ConflictKind> = Vec::new();
                                        out.push(one);
                                        proof {
                                            assert(conflict_views(out@) =~= seq![cview]);
                                            lemma_discover_prefix_absorbs(
                                                st0,
                                                h,
                                                ig,
                                                co,
                                                root@,
                                                evs,
                                                i as int + 1,
                                                evs.len() as int,
                                            );
                                        }
                                        return Ok(out);
                                    },
                                    ConflictKind::StandardConflict(a, b) => {
                                        let ghost cview = ConflictView::Standard(a@, b@);
                                        conflicts.push(ConflictKind::StandardConflict(a, b));
                                        proof {
                                            assert(conflict_views(conflicts@) =~= pre_cs.push(
                                                cview,
                                            ));
                                            assert(pre_cs.push(cview) =~= pre_cs + seq![cview]);
                                        }
                                    },
                                }
                            },
                            Ok(None) => {
                                let _ = self.tree.insert_file(root, entries[i].0.as_str());
                                proof {
                                    assert(pre_cs + Seq::<ConflictView>::empty() =~= pre_cs);
                                }
                            },
                        }
                    } else {
                        let _ = self.tree.insert_file(root, entries[i].0.as_str());
                        proof {
                            assert(pre_cs + Seq::<ConflictView>::empty() =~= pre_cs);
                        }
                    }
                }
            }
            i += 1;
        }
        Ok(conflicts)
    }

    /// Ingests several walked listings in turn, each under its own root,
    /// concatenating the conflicts. A root-level conflict ends only its own
    /// run and stands in the output as that run's single conflict; a strict
    /// collision aborts the whole call.
    pub fn discover_listed_roots(
        &mut self,
        runs: &Vec<(String, Vec<(String, FileEntryType)>)>,
    ) -> (r: Result<Vec<ConflictKind>, TreeError>)
        requires
            old(self).wf(),
            forall|i: int, j: int|
                0 <= i < runs@.len() && 0 <= j < runs@[i].1@.len() ==> valid_path(
                    (#[trigger] runs@[i].1@[j]).0@,
                ),
        ensures
            final(self).wf(),
            final(self).handler == old(self).handler,
            final(self).ignore == old(self).ignore,
            final(self).collect == old(self).collect,
            final(self).tree.spec_loader() == old(self).tree.spec_loader(),
            ({
                let out = discover_runs_prefix(
                    old(self).state_view(),
                    old(self).handler,
                    old(self).ignore,
                    old(self).collect,
                    run_views(runs@),
                    runs@.len() as int,
                );
                match out {
                    DiscoverOutcome::Done(st, cs) => final(self).state_view() == st && (
                    r matches Ok(v) && conflict_views(v@) == cs),
                    DiscoverOutcome::RootStop(st, c) => false,
                    DiscoverOutcome::Fatal(st, p, q) => final(self).state_view() == st && (
                    r matches Err(e) && e matches TreeError::OwnedPath(inc, own) && inc@ == p
                        && own@ == q),
                }
            }),
    {
        let ghost st0 = old(self).state_view();
        let ghost h = old(self).handler;
        let ghost ig = old(self).ignore;
        let ghost co = old(self).collect;
        let ghost rv = run_views(runs@);
        let n = runs.len();
        let mut conflicts: Vec<ConflictKind> = Vec::new();
        let mut i: usize = 0;
        proof {
            assert(conflict_views(conflicts@) =~= Seq::<ConflictView>::empty());
        }
        while i < n
            invariant
                i <= n,
                n == runs@.len(),
                rv == run_views(runs@),
                forall|q: int, j: int|
                    0 <= q < runs@.len() && 0 <= j < runs@[q].1@.len() ==> valid_path(
                        (#[trigger] runs@[q].1@[j]).0@,
                    ),
                self.wf(),
                st0 == old(self).state_view(),
                h == old(self).handler,
                ig == old(self).ignore,
                co == old(self).collect,
                self.handler == h,
                self.ignore == ig,
                self.collect == co,
                self.tree.spec_loader() == old(self).tree.spec_loader(),
                discover_runs_prefix(st0, h, ig, co, rv, i as int) == DiscoverOutcome::Done(
                    self.state_view(),
                    conflict_views(conflicts@),
                ),
            decreases n - i,
        {
            let ghost pre_cs = conflict_views(conflicts@);
            proof {
                assert(rv[i as int] == (runs@[i as int].0@, entry_pair_views(runs@[i as int].1@)));
                assert forall|j: int| 0 <= j < runs@[i as int].1@.len() implies valid_path(
                    (#[trigger] runs@[i as int].1@[j]).0@,
                ) by {}
            }
            match self.discover_entries(runs[i].0.as_str(), &runs[i].1) {
                Ok(mut cs) => {
                    let ghost csv = conflict_views(cs@);
                    conflicts.append(&mut cs);
                    proof {
                        assert(conflict_views(conflicts@) =~= pre_cs + csv);
                        if csv.len() == 1 {
                            assert(pre_cs + csv =~= pre_cs.push(csv[0]));
                        }
                    }
                },
                Err(e) => {
                    proof {
                        lemma_discover_runs_absorbs(
                            st0,
                            h,
                            ig,
                            co,
                            rv,
                            i as int + 1,
                            rv.len() as int,
                        );
                    }
                    return Err(e);
                },
            }
            i += 1;
        }
        Ok(conflicts)
    }
}

/// What loading a path from one tree yields: bytes, a loader failure on a
/// path the tree believes in, or a soft miss.
pub ghost enum LoadOutcome {
    Bytes(Seq<u8>),
    Failure,
    Absent,
}

/// The outcome of [`Tree::load`] on a tree, at the specification level. A
/// present path (the empty path counts as the always-present tree root) is
/// read through its stored root and a loader failure is a `Failure`; an
/// absent path is a soft miss.
pub open spec fn load_outcome<L: FileLoader>(t: Tree<L>, p: Seq<char>) -> LoadOutcome {
    if p.len() == 0 || has_path(t@, p) {
        let rt = if p.len() == 0 {
            Seq::<char>::empty()
        } else {
            entry_at(t@, p).root
        };
        match t.spec_loader().data_spec(rt, p) {
            Some(d) => LoadOutcome::Bytes(d),
            None => LoadOutcome::Failure,
        }
    } else {
        LoadOutcome::Absent
    }
}

/// What the physical layer answers for a path, at the specification level.
/// A path its tree claims is read through the stored root, and a loader
/// failure there is a recoverable `Failure`. Any other path is read directly
/// through the physical loader under the empty root — the physical layer
/// must resolve every leaf — and a loader failure there is the fatal
/// `Absent`: the physical loader returned no data.
pub open spec fn physical_load_outcome<L: FileLoader>(t: Tree<L>, p: Seq<char>) -> LoadOutcome {
    if p.len() == 0 || has_path(t@, p) {
        load_outcome(t, p)
    } else {
        match t.spec_loader().data_spec(Seq::<char>::empty(), p) {
            Some(d) => LoadOutcome::Bytes(d),
            None => LoadOutcome::Absent,
        }
    }
}

/// The outcome of [`Tree::query_filesize`] on a tree, at the specification
/// level.
pub open spec fn size_outcome<L: FileLoader>(t: Tree<L>, p: Seq<char>) -> Option<usize> {
    if p.len() == 0 {
        t.spec_loader().size_spec(Seq::<char>::empty(), p)
    } else if has_path(t@, p) {
        t.spec_loader().size_spec(entry_at(t@, p).root, p)
    } else {
        None
    }
}

/// The outcome of [`Tree::get_full_path`] on a tree, at the specification
/// level.
pub open spec fn actual_outcome<L: FileLoader>(t: Tree<L>, p: Seq<char>) -> Option<Seq<char>> {
    if p.len() == 0 {
        t.spec_loader().actual_path_spec(Seq::<char>::empty(), p)
    } else if has_path(t@, p) {
        t.spec_loader().actual_path_spec(entry_at(t@, p).root, p)
    } else {
        None
    }
}

/// The numeric maximum of two optional sizes; a missing size loses to any
/// known one.
pub open spec fn opt_max(a: Option<usize>, b: Option<usize>) -> Option<usize> {
    match (a, b) {
        (Some(x), Some(y)) => if x >= y {
            a
        } else {
            b
        },
        (Some(_), None) => a,
        (None, _) => b,
    }
}

/// The first known value of two optional paths.
pub open spec fn opt_or(a: Option<Seq<char>>, b: Option<Seq<char>>) -> Option<Seq<char>> {
    if a is Some {
        a
    } else {
        b
    }
}

/// Some element of `s` equals `x`.
pub open spec fn seq_has_str(s: Seq<Seq<char>>, x: Seq<char>) -> bool {
    exists|i: int| 0 <= i < s.len() && s[i] == x
}

/// `a` extended by the first `upto` elements of `b` that `a` (so extended)
/// does not hold yet.
pub open spec fn append_new(a: Seq<Seq<char>>, b: Seq<Seq<char>>, upto: int) -> Seq<Seq<char>>
    decreases upto,
{
    if upto <= 0 {
        a
    } else {
        let pre = append_new(a, b, upto - 1);
        if seq_has_str(pre, b[upto - 1]) {
            pre
        } else {
            pre.push(b[upto - 1])
        }
    }
}

/// The numeric maximum of two optional sizes.
fn max_filesize(a: Option<usize>, b: Option<usize>) -> (r: Option<usize>)
    ensures
        r == opt_max(a, b),
{
    match (a, b) {
        (Some(x), Some(y)) => if x >= y {
            Some(x)
        } else {
            Some(y)
        },
        (Some(x), None) => Some(x),
        (None, Some(y)) => Some(y),
        (None, None) => None,
    }
}

/// The staging ground of an [`Orbit`]: the patch and virtual discovery
/// systems, configured and populated before the physical loader is ready.
pub struct LaunchPad<
    P: FileLoader,
    V: FileLoader,
    PI: PathPredicate,
    PC: PathPredicate,
    VI: PathPredicate,
    VC: PathPredicate,
> {
    /// The mid-priority overlay under construction.
    pub patch: DiscoverSystem<P, PI, PC>,
    /// The highest-priority overlay under construction.
    pub virt: DiscoverSystem<V, VI, VC>,
}

impl<
    P: FileLoader,
    V: FileLoader,
    PI: PathPredicate,
    PC: PathPredicate,
    VI: PathPredicate,
    VC: PathPredicate,
> LaunchPad<P, V, PI, PC, VI, VC> {
    /// Pairs the two overlay discovery systems.
    pub fn new(patch: DiscoverSystem<P, PI, PC>, virt: DiscoverSystem<V, VI, VC>) -> (r: Self)
        ensures
            r.patch == patch,
            r.virt == virt,
    {
        LaunchPad { patch, virt }
    }

    /// Binds the physical loader and assembles the orbit. The physical tree
    /// starts empty: paths the overlays miss are read directly through the
    /// physical loader, which is assumed to resolve every leaf.
    pub fn launch<A: FileLoader>(self, physical: A) -> (r: Orbit<A, P, V>)
        ensures
            r.spec_physical().wf(),
            r.spec_physical()@ == Seq::<EntryView>::empty(),
            r.spec_physical().spec_loader() == physical,
            r.spec_patch() == self.patch.tree,
            r.spec_virt() == self.virt.tree,
    {
        let LaunchPad { patch, virt } = self;
        Orbit { physical: Tree::new(physical), patch: patch.into_tree(), virt: virt.into_tree() }
    }
}

/// Three layered trees composed into one namespace. Reads try the virtual
/// layer, then the patch layer, then the physical layer.
pub struct Orbit<A: FileLoader, B: FileLoader, C: FileLoader> {
    physical: Tree<A>,
    patch: Tree<B>,
    virt: Tree<C>,
}

/// A loader failure, tagged with the layer that produced it.
#[derive(Debug)]
pub enum Error<A, B, C> {
    Physical(A),
    Patch(B),
    Virtual(C),
}

impl<A: FileLoader, B: FileLoader, C: FileLoader> Orbit<A, B, C> {
    /// The baseline layer, for use in contracts.
    pub closed spec fn spec_physical(&self) -> Tree<A> {
        self.physical
    }

    /// The mid-priority layer, for use in contracts.
    pub closed spec fn spec_patch(&self) -> Tree<B> {
        self.patch
    }

    /// The highest-priority layer, for use in contracts.
    pub closed spec fn spec_virt(&self) -> Tree<C> {
        self.virt
    }

    /// The structural invariants of all three layers.
    pub open spec fn wf(&self) -> bool {
        self.spec_physical().wf() && self.spec_patch().wf() && self.spec_virt().wf()
    }

    /// Loads a path with virtual-over-patch-over-physical priority: the
    /// virtual layer answers if it holds the path (its loader failure is
    /// final, tagged `Virtual`); otherwise the patch layer the same way;
    /// otherwise the physical layer, which by contract resolves every path
    /// both overlays miss.
    pub fn load(&self, path: &str) -> (r: Result<
        Vec<u8>,
        Error<A::ErrorType, B::ErrorType, C::ErrorType>,
    >)
        requires
            self.wf(),
            (load_outcome(self.spec_virt(), path@) is Absent && load_outcome(
                self.spec_patch(),
                path@,
            ) is Absent) ==> !(physical_load_outcome(self.spec_physical(), path@) is Absent),
        ensures
            match load_outcome(self.spec_virt(), path@) {
                LoadOutcome::Bytes(d) => r matches Ok(b) && b@ == d,
                LoadOutcome::Failure => r matches Err(e) && e is Virtual,
                LoadOutcome::Absent => match load_outcome(self.spec_patch(), path@) {
                    LoadOutcome::Bytes(d) => r matches Ok(b) && b@ == d,
                    LoadOutcome::Failure => r matches Err(e) && e is Patch,
                    LoadOutcome::Absent => match physical_load_outcome(
                        self.spec_physical(),
                        path@,
                    ) {
                        LoadOutcome::Bytes(d) => r matches Ok(b) && b@ == d,
                        LoadOutcome::Failure => r matches Err(e) && e is Physical,
                        LoadOutcome::Absent => false,
                    },
                },
            },
    {
        match self.virt.load(path) {
            Ok(Some(data)) => Ok(data),
            Ok(None) => self.load_patch(path),
            Err(e) => Err(Error::Virtual(e)),
        }
    }

    /// Loads a path starting at the patch layer, falling back to the
    /// physical layer.
    pub fn load_patch(&self, path: &str) -> (r: Result<
        Vec<u8>,
        Error<A::ErrorType, B::ErrorType, C::ErrorType>,
    >)
        requires
            self.spec_patch().wf(),
            self.spec_physical().wf(),
            load_outcome(self.spec_patch(), path@) is Absent ==> !(physical_load_outcome(
                self.spec_physical(),
                path@,
            ) is Absent),
        ensures
            match load_outcome(self.spec_patch(), path@) {
                LoadOutcome::Bytes(d) => r matches Ok(b) && b@ == d,
                LoadOutcome::Failure => r matches Err(e) && e is Patch,
                LoadOutcome::Absent => match physical_load_outcome(self.spec_physical(), path@) {
                    LoadOutcome::Bytes(d) => r matches Ok(b) && b@ == d,
                    LoadOutcome::Failure => r matches Err(e) && e is Physical,
                    LoadOutcome::Absent => false,
                },
            },
    {
        match self.patch.load(path) {
            Ok(Some(data)) => Ok(data),
            Ok(None) => self.load_physical(path),
            Err(e) => Err(Error::Patch(e)),
        }
    }

    /// Loads a path from the physical layer alone: through its tree when the
    /// tree claims the path, else directly through the physical loader under
    /// the empty root. The physical layer is assumed to resolve every path
    /// that reaches it; the physical loader returning no data on the direct
    /// read is a contract violation, excluded by the precondition.
    pub fn load_physical(&self, path: &str) -> (r: Result<
        Vec<u8>,
        Error<A::ErrorType, B::ErrorType, C::ErrorType>,
    >)
        requires
            self.spec_physical().wf(),
            !(physical_load_outcome(self.spec_physical(), path@) is Absent),
        ensures
            match physical_load_outcome(self.spec_physical(), path@) {
                LoadOutcome::Bytes(d) => r matches Ok(b) && b@ == d,
                LoadOutcome::Failure => r matches Err(e) && e is Physical,
                LoadOutcome::Absent => false,
            },
    {
        proof {
            reveal_strlit("");
            assert(("")@ =~= Seq::<char>::empty());
        }
        match self.physical.load(path) {
            Ok(Some(data)) => Ok(data),
            Ok(None) => {
                match self.physical.loader().load_path("", path) {
                    Ok(data) => Ok(data),
                    Err(_) => {
                        proof {
                            assert(false);
                        }
                        vstd::pervasive::unreached()
                    },
                }
            },
            Err(e) => Err(Error::Physical(e)),
        }
    }

    /// Inserts a file into the virtual layer; see [`Tree::insert_file`].
    pub fn insert_virtual_file(&mut self, root_path: &str, local_path: &str) -> (res: Option<
        (String, String),
    >)
        requires
            old(self).spec_virt().wf(),
            valid_path(local_path@),
        ensures
            final(self).spec_virt().wf(),
            final(self).spec_virt()@ == insert_result(
                old(self).spec_virt()@,
                root_path@,
                local_path@,
                FileEntryType::File,
            ),
            final(self).spec_virt().spec_loader() == old(self).spec_virt().spec_loader(),
            final(self).spec_physical() == old(self).spec_physical(),
            final(self).spec_patch() == old(self).spec_patch(),
            match res {
                Some(pr) => has_path(old(self).spec_virt()@, local_path@) && pr.0@ == entry_at(
                    old(self).spec_virt()@,
                    local_path@,
                ).root && pr.1@ == local_path@,
                None => !has_path(old(self).spec_virt()@, local_path@),
            },
    {
        self.virt.insert_file(root_path, local_path)
    }

    /// Inserts a directory into the virtual layer; see
    /// [`Tree::insert_directory`].
    pub fn insert_virtual_directory(&mut self, root_path: &str, local_path: &str) -> (res: Option<
        (String, String),
    >)
        requires
            old(self).spec_virt().wf(),
            valid_path(local_path@),
        ensures
            final(self).spec_virt().wf(),
            final(self).spec_virt()@ == insert_result(
                old(self).spec_virt()@,
                root_path@,
                local_path@,
                FileEntryType::Directory,
            ),
            final(self).spec_virt().spec_loader() == old(self).spec_virt().spec_loader(),
            final(self).spec_physical() == old(self).spec_physical(),
            final(self).spec_patch() == old(self).spec_patch(),
            match res {
                Some(pr) => has_path(old(self).spec_virt()@, local_path@) && pr.0@ == entry_at(
                    old(self).spec_virt()@,
                    local_path@,
                ).root && pr.1@ == local_path@,
                None => !has_path(old(self).spec_virt()@, local_path@),
            },
    {
        self.virt.insert_directory(root_path, local_path)
    }

    /// Inserts a path into the virtual layer after asking that layer's
    /// loader to classify it; see [`Tree::insert_path`].
    pub fn insert_virtual_path(&mut self, root_path: &str, local_path: &str) -> (res: Option<
        (String, String),
    >)
        requires
            old(self).spec_virt().wf(),
            valid_path(local_path@),
            old(self).spec_virt().spec_loader().type_spec(root_path@, local_path@) is Some,
        ensures
            final(self).spec_virt().wf(),
            final(self).spec_virt()@ == insert_result(
                old(self).spec_virt()@,
                root_path@,
                local_path@,
                old(self).spec_virt().spec_loader().type_spec(root_path@, local_path@).unwrap(),
            ),
            final(self).spec_virt().spec_loader() == old(self).spec_virt().spec_loader(),
            final(self).spec_physical() == old(self).spec_physical(),
            final(self).spec_patch() == old(self).spec_patch(),
            match res {
                Some(pr) => has_path(old(self).spec_virt()@, local_path@) && pr.0@ == entry_at(
                    old(self).spec_virt()@,
                    local_path@,
                ).root && pr.1@ == local_path@,
                None => !has_path(old(self).spec_virt()@, local_path@),
            },
    {
        self.virt.insert_path(root_path, local_path)
    }

    /// A pre-order walk of the patch layer; see [`Tree::walk_paths`].
    pub fn walk_patch(&self) -> (res: Vec<(Node, FileEntryType)>)
        ensures
            res@.len() == self.spec_patch()@.len(),
            forall|i: int|
                0 <= i < res@.len() ==> ((#[trigger] res@[i]).0@.name == self.spec_patch()@[i].name
                    && res@[i].0@.local == self.spec_patch()@[i].local && res@[i].0@.root
                    == self.spec_patch()@[i].root && res@[i].1 == self.spec_patch()@[i].ty),
    {
        self.patch.walk_paths()
    }

    /// A pre-order walk of the virtual layer; see [`Tree::walk_paths`].
    pub fn walk_virtual(&self) -> (res: Vec<(Node, FileEntryType)>)
        ensures
            res@.len() == self.spec_virt()@.len(),
            forall|i: int|
                0 <= i < res@.len() ==> ((#[trigger] res@[i]).0@.name == self.spec_virt()@[i].name
                    && res@[i].0@.local == self.spec_virt()@[i].local && res@[i].0@.root
                    == self.spec_virt()@[i].root && res@[i].1 == self.spec_virt()@[i].ty),
    {
        self.virt.walk_paths()
    }

    /// The numeric maximum of the sizes all three layers report for a local
    /// path; a layer that does not hold the path reports nothing.
    pub fn query_max_filesize(&self, local_path: &str) -> (r: Option<usize>)
        requires
            self.wf(),
        ensures
            r == opt_max(
                opt_max(
                    size_outcome(self.spec_virt(), local_path@),
                    size_outcome(self.spec_patch(), local_path@),
                ),
                size_outcome(self.spec_physical(), local_path@),
            ),
    {
        let layered = self.query_max_layered_filesize(local_path);
        let phys = self.physical.query_filesize(local_path);
        max_filesize(layered, phys)
    }

    /// The numeric maximum of the sizes the two overlay layers report for a
    /// local path.
    pub fn query_max_layered_filesize(&self, local_path: &str) -> (r: Option<usize>)
        requires
            self.spec_virt().wf(),
            self.spec_patch().wf(),
        ensures
            r == opt_max(
                size_outcome(self.spec_virt(), local_path@),
                size_outcome(self.spec_patch(), local_path@),
            ),
    {
        let v = self.virt.query_filesize(local_path);
        let p = self.patch.query_filesize(local_path);
        max_filesize(v, p)
    }

    /// The concrete addressable path of a local path, tried virtual first,
    /// then patch, then physical.
    pub fn query_actual_path(&self, local_path: &str) -> (r: Option<String>)
        requires
            self.wf(),
        ensures
            ({
                let combined = opt_or(
                    opt_or(
                        actual_outcome(self.spec_virt(), local_path@),
                        actual_outcome(self.spec_patch(), local_path@),
                    ),
                    actual_outcome(self.spec_physical(), local_path@),
                );
                match r {
                    Some(s) => combined == Some(s@),
                    None => combined is None,
                }
            }),
    {
        match self.query_actual_layered_path(local_path) {
            Some(p) => Some(p),
            None => self.physical.get_full_path(local_path),
        }
    }

    /// The concrete addressable path of a local path within the two overlay
    /// layers, virtual first.
    pub fn query_actual_layered_path(&self, local_path: &str) -> (r: Option<String>)
        requires
            self.spec_virt().wf(),
            self.spec_patch().wf(),
        ensures
            ({
                let combined = opt_or(
                    actual_outcome(self.spec_virt(), local_path@),
                    actual_outcome(self.spec_patch(), local_path@),
                );
                match r {
                    Some(s) => combined == Some(s@),
                    None => combined is None,
                }
            }),
    {
        match self.virt.get_full_path(local_path) {
            Some(p) => Some(p),
            None => self.patch.get_full_path(local_path),
        }
    }

    /// The size the physical layer's loader reports for a local path under
    /// the empty root, without consulting the physical tree.
    pub fn physical_filesize(&self, local_path: &str) -> (r: Option<usize>)
        ensures
            r == self.spec_physical().spec_loader().size_spec(Seq::<char>::empty(), local_path@),
    {
        self.physical.query_filesize_local(local_path)
    }

    /// The size the patch layer reports for a local path.
    pub fn patch_filesize(&self, local_path: &str) -> (r: Option<usize>)
        requires
            self.spec_patch().wf(),
        ensures
            r == size_outcome(self.spec_patch(), local_path@),
    {
        self.patch.query_filesize(local_path)
    }

    /// The size the virtual layer reports for a local path.
    pub fn virtual_filesize(&self, local_path: &str) -> (r: Option<usize>)
        requires
            self.spec_virt().wf(),
        ensures
            r == size_outcome(self.spec_virt(), local_path@),
    {
        self.virt.query_filesize(local_path)
    }

    /// The children of a local path over the enumerable overlay surface: the
    /// virtual layer's children, then those of the patch layer that the
    /// virtual layer did not already contribute. The physical layer is a
    /// load-time fallback and is deliberately not enumerated.
    pub fn get_children(&self, path: &str) -> (res: Vec<String>)
        ensures
            string_views(res@) == append_new(
                child_locals(self.spec_virt()@, path@, self.spec_virt()@.len() as int),
                child_locals(self.spec_patch()@, path@, self.spec_patch()@.len() as int),
                child_locals(self.spec_patch()@, path@, self.spec_patch()@.len() as int).len() as int,
            ),
    {
        let mut res = self.virt.get_children(path);
        let from_patch = self.patch.get_children(path);
        let ghost a = child_locals(self.spec_virt()@, path@, self.spec_virt()@.len() as int);
        let ghost b = child_locals(self.spec_patch()@, path@, self.spec_patch()@.len() as int);
        let m = from_patch.len();
        let mut i: usize = 0;
        while i < m
            invariant
                i <= m,
                m == from_patch.len(),
                string_views(from_patch@) == b,
                string_views(res@) == append_new(a, b, i as int),
            decreases m - i,
        {
            let candidate = &from_patch[i];
            proof {
                assert(candidate@ == b[i as int]);
            }
            let mut present = false;
            let k = res.len();
            let mut j: usize = 0;
            while j < k
                invariant
                    j <= k,
                    k == res.len(),
                    i < m,
                    m == from_patch.len(),
                    candidate == &from_patch@[i as int],
                    present == exists|q: int|
                        0 <= q < j && (#[trigger] res@[q])@ == candidate@,
                decreases k - j,
            {
                if res[j] == *candidate {
                    present = true;
                    proof {
                        assert(0 <= j < j + 1 && res@[j as int]@ == candidate@);
                    }
                }
                j += 1;
            }
            proof {
                if present {
                    let q = choose|q: int| 0 <= q < k && (#[trigger] res@[q])@ == candidate@;
                    assert(string_views(res@)[q] == candidate@);
                    assert(seq_has_str(append_new(a, b, i as int), b[i as int]));
                } else if seq_has_str(append_new(a, b, i as int), b[i as int]) {
                    let q = choose|q: int|
                        0 <= q < append_new(a, b, i as int).len() && append_new(a, b, i as int)[q]
                            == b[i as int];
                    assert(res@[q]@ == string_views(res@)[q]);
                    assert(false);
                }
            }
            if !present {
                let ghost rv = string_views(res@);
                res.push(candidate.clone());
                proof {
                    assert(string_views(res@) =~= rv.push(b[i as int]));
                }
            }
            i += 1;
        }
        res
    }
}

} // verus!
