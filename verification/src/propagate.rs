//! Dependency propagation: the two-phase pass that keeps a learner's store
//! consistent with the dependency graph.
//!
//! Phase A walks the dependents of every `Failed` card and pushes them
//! toward failure states ([`demote`]); phase B visits every card and pulls
//! it back toward recovery ([`promote`]) exactly when all of its direct
//! dependencies are mastered, recursing into dependents after each
//! recovery. The final store is pinned down exactly: it equals the
//! order-free denotation [`detect_spec`], built from reachability along
//! dependent edges ([`reaches`]) and a rank-recursive recovery fixpoint
//! ([`phase_b_at`]).

use vstd::pervasive::VecAdditionalExecFns;
use vstd::prelude::*;

use crate::graph::CourseGraph;
use crate::progress_store::{ProgressStore, TaskProgress};

verus! {

/// The fail-propagation update of one card: an unattempted card loses its
/// `could_be_learned` flag, a mastered card becomes `RecursiveFailed`, and
/// failure states stay put.
pub open spec fn demote(p: TaskProgress) -> TaskProgress {
    match p {
        TaskProgress::NotStarted { .. } => TaskProgress::NotStarted { could_be_learned: false },
        TaskProgress::Good => TaskProgress::RecursiveFailed,
        _ => p,
    }
}

/// The recovery update of one card: an unattempted card regains its
/// `could_be_learned` flag, a `RecursiveFailed` card returns to `Good`, and
/// everything else stays put.
pub open spec fn promote(p: TaskProgress) -> TaskProgress {
    match p {
        TaskProgress::NotStarted { .. } => TaskProgress::NotStarted { could_be_learned: true },
        TaskProgress::RecursiveFailed => TaskProgress::Good,
        _ => p,
    }
}

/// Card `c` is reachable from card `f` along dependent edges; `f` reaches
/// itself. Recursion is well-founded because every dependency ranks
/// strictly below its dependent.
pub open spec fn reaches(g: CourseGraph, f: int, c: int) -> bool
    decreases g.rank_of(c), g.deps_of(c).len() + 1,
        when g.wf() && 0 <= f < g.n() && 0 <= c < g.n()
{
    f == c || reaches_some_dep(g, f, c, g.deps_of(c).len() as int)
}

/// `f` reaches one of the first `i` dependencies of `c`.
pub open spec fn reaches_some_dep(g: CourseGraph, f: int, c: int, i: int) -> bool
    decreases g.rank_of(c), i,
        when g.wf() && 0 <= f < g.n() && 0 <= c < g.n() && 0 <= i <= g.deps_of(c).len()
{
    i > 0 && {
        let d = g.deps_of(c)[i - 1] as int;
        reaches(g, f, d) || reaches_some_dep(g, f, c, i - 1)
    }
}

/// Some `Failed` card of `s` reaches `c` along dependent edges.
pub open spec fn failed_reaches(g: CourseGraph, s: Seq<TaskProgress>, c: int) -> bool {
    exists|f: int|
        0 <= f < g.n() && s[f] == TaskProgress::Failed && #[trigger] reaches(g, f, c)
}

/// What phase A leaves at card `c`: cards downstream of a failure are
/// demoted, everything else is untouched.
pub open spec fn phase_a_at(g: CourseGraph, s: Seq<TaskProgress>, c: int) -> TaskProgress {
    if failed_reaches(g, s, c) {
        demote(s[c])
    } else {
        s[c]
    }
}

/// The store after phase A, pointwise.
pub open spec fn phase_a(g: CourseGraph, s: Seq<TaskProgress>) -> Seq<TaskProgress> {
    Seq::new(s.len(), |c: int| phase_a_at(g, s, c))
}

/// What phase B leaves at card `c`, over the phase-A result `s`: the card
/// recovers exactly when every direct dependency itself ends up `Good`.
pub open spec fn phase_b_at(g: CourseGraph, s: Seq<TaskProgress>, c: int) -> TaskProgress
    decreases g.rank_of(c), g.deps_of(c).len() + 1,
        when g.wf() && 0 <= c < g.n()
{
    if deps_good_upto(g, s, c, g.deps_of(c).len() as int) {
        promote(s[c])
    } else {
        s[c]
    }
}

/// The first `i` dependencies of `c` all end phase B as `Good`.
pub open spec fn deps_good_upto(g: CourseGraph, s: Seq<TaskProgress>, c: int, i: int) -> bool
    decreases g.rank_of(c), i,
        when g.wf() && 0 <= c < g.n() && 0 <= i <= g.deps_of(c).len()
{
    i <= 0 || {
        let d = g.deps_of(c)[i - 1] as int;
        phase_b_at(g, s, d) == TaskProgress::Good && deps_good_upto(g, s, c, i - 1)
    }
}

/// Every direct dependency of `c` ends phase B as `Good`.
pub open spec fn all_deps_recovered(g: CourseGraph, s: Seq<TaskProgress>, c: int) -> bool {
    forall|d: int| #[trigger] g.edge(d, c) ==> phase_b_at(g, s, d) == TaskProgress::Good
}

/// The store after a full reconciliation pass: phase A, then phase B.
pub open spec fn detect_spec(g: CourseGraph, s: Seq<TaskProgress>) -> Seq<TaskProgress> {
    Seq::new(s.len(), |c: int| phase_b_at(g, phase_a(g, s), c))
}

/// Mid-phase-A store states: every card holds its start value, or its
/// demotion justified by a failure upstream.
spec fn inv_a(g: CourseGraph, s0: Seq<TaskProgress>, s: Seq<TaskProgress>) -> bool {
    forall|c: int|
        0 <= c < g.n() ==> (#[trigger] s[c]) == s0[c] || (s[c] == demote(s0[c]) && failed_reaches(
            g,
            s0,
            c,
        ))
}

/// Mid-phase-B store states: every card holds its phase-A value, or its
/// promotion justified by all dependencies recovering.
spec fn inv_b(g: CourseGraph, sa: Seq<TaskProgress>, s: Seq<TaskProgress>) -> bool {
    forall|c: int|
        0 <= c < g.n() ==> (#[trigger] s[c]) == sa[c] || (s[c] == promote(sa[c])
            && all_deps_recovered(g, sa, c))
}

/// Card `c` is settled in state `s`: if all its direct dependencies are
/// currently `Good`, its own promotion has already been applied.
spec fn settled(g: CourseGraph, sa: Seq<TaskProgress>, s: Seq<TaskProgress>, c: int) -> bool {
    (forall|d: int| #[trigger] g.edge(d, c) ==> s[d] == TaskProgress::Good) ==> s[c] == promote(
        sa[c],
    )
}

/// `reaches_some_dep` is the finite disjunction it folds up.
pub(crate) proof fn lemma_reaches_some_dep_iff(g: CourseGraph, f: int, c: int, i: int)
    requires
        g.wf(),
        0 <= f < g.n(),
        0 <= c < g.n(),
        0 <= i <= g.deps_of(c).len(),
    ensures
        reaches_some_dep(g, f, c, i) <==> exists|k: int|
            0 <= k < i && reaches(g, f, (#[trigger] g.deps_of(c)[k]) as int),
    decreases i,
{
    if i > 0 {
        lemma_reaches_some_dep_iff(g, f, c, i - 1);
        let d = g.deps_of(c)[i - 1] as int;
        if reaches(g, f, d) {
            assert(reaches(g, f, (g.deps_of(c)[i - 1]) as int));
        }
    }
}

/// One unfolding of `reaches`, phrased over edges.
pub(crate) proof fn lemma_reaches_unfold(g: CourseGraph, f: int, c: int)
    requires
        g.wf(),
        0 <= f < g.n(),
        0 <= c < g.n(),
    ensures
        reaches(g, f, c) <==> (f == c || exists|d: int|
            0 <= d < g.n() && (#[trigger] g.edge(d, c)) && reaches(g, f, d)),
{
    lemma_reaches_some_dep_iff(g, f, c, g.deps_of(c).len() as int);
    if reaches(g, f, c) && f != c {
        let k = choose|k: int|
            0 <= k < g.deps_of(c).len() && reaches(g, f, (#[trigger] g.deps_of(c)[k]) as int);
        let d = g.deps_of(c)[k] as int;
        assert(g.has_dep(c, d));
        assert(g.edge(d, c));
    }
    if f != c && exists|d: int| 0 <= d < g.n() && (#[trigger] g.edge(d, c)) && reaches(g, f, d) {
        let d = choose|d: int| 0 <= d < g.n() && (#[trigger] g.edge(d, c)) && reaches(g, f, d);
        let k = choose|k: int| 0 <= k < g.deps_of(c).len() && (#[trigger] g.deps_of(c)[k]) == d;
        assert(reaches(g, f, (g.deps_of(c)[k]) as int));
    }
}

/// Reachability is reflexive.
pub(crate) proof fn lemma_reaches_refl(g: CourseGraph, f: int)
    requires
        g.wf(),
        0 <= f < g.n(),
    ensures
        reaches(g, f, f),
{
}

/// Reachability extends across one more dependent edge.
pub(crate) proof fn lemma_reaches_step(g: CourseGraph, f: int, d: int, c: int)
    requires
        g.wf(),
        0 <= f < g.n(),
        0 <= d < g.n(),
        0 <= c < g.n(),
        reaches(g, f, d),
        g.edge(d, c),
    ensures
        reaches(g, f, c),
{
    lemma_reaches_unfold(g, f, c);
}

/// Reachability is transitive.
pub(crate) proof fn lemma_reaches_trans(g: CourseGraph, a: int, b: int, c: int)
    requires
        g.wf(),
        0 <= a < g.n(),
        0 <= b < g.n(),
        0 <= c < g.n(),
        reaches(g, a, b),
        reaches(g, b, c),
    ensures
        reaches(g, a, c),
    decreases g.rank_of(c),
{
    lemma_reaches_unfold(g, b, c);
    if b != c {
        let d = choose|d: int| 0 <= d < g.n() && (#[trigger] g.edge(d, c)) && reaches(g, b, d);
        g.lemma_edge_rank(d, c);
        lemma_reaches_trans(g, a, b, d);
        lemma_reaches_step(g, a, d, c);
    }
}

/// A reachable card other than the source is reached through one of the
/// source's dependents.
pub(crate) proof fn lemma_reaches_from(g: CourseGraph, f: int, c: int)
    requires
        g.wf(),
        0 <= f < g.n(),
        0 <= c < g.n(),
        reaches(g, f, c),
        f != c,
    ensures
        exists|x: int| 0 <= x < g.n() && (#[trigger] g.edge(f, x)) && reaches(g, x, c),
    decreases g.rank_of(c),
{
    lemma_reaches_unfold(g, f, c);
    let d = choose|d: int| 0 <= d < g.n() && (#[trigger] g.edge(d, c)) && reaches(g, f, d);
    if f == d {
        lemma_reaches_refl(g, c);
        assert(g.edge(f, c) && reaches(g, c, c));
    } else {
        g.lemma_edge_rank(d, c);
        lemma_reaches_from(g, f, d);
        let x = choose|x: int| 0 <= x < g.n() && (#[trigger] g.edge(f, x)) && reaches(g, x, d);
        lemma_reaches_step(g, x, d, c);
    }
}

/// `deps_good_upto` is the finite conjunction it folds up.
pub(crate) proof fn lemma_deps_good_upto_iff(g: CourseGraph, s: Seq<TaskProgress>, c: int, i: int)
    requires
        g.wf(),
        0 <= c < g.n(),
        0 <= i <= g.deps_of(c).len(),
    ensures
        deps_good_upto(g, s, c, i) <==> (forall|k: int|
            0 <= k < i ==> phase_b_at(g, s, (#[trigger] g.deps_of(c)[k]) as int)
                == TaskProgress::Good),
    decreases i,
{
    if i > 0 {
        lemma_deps_good_upto_iff(g, s, c, i - 1);
    }
}

/// One unfolding of `phase_b_at`, phrased over edges.
pub(crate) proof fn lemma_phase_b_unfold(g: CourseGraph, s: Seq<TaskProgress>, c: int)
    requires
        g.wf(),
        0 <= c < g.n(),
    ensures
        phase_b_at(g, s, c) == (if all_deps_recovered(g, s, c) {
            promote(s[c])
        } else {
            s[c]
        }),
{
    lemma_deps_good_upto_iff(g, s, c, g.deps_of(c).len() as int);
    if deps_good_upto(g, s, c, g.deps_of(c).len() as int) {
        assert forall|d: int| #[trigger] g.edge(d, c) implies phase_b_at(g, s, d)
            == TaskProgress::Good by {
            let k = choose|k: int| 0 <= k < g.deps_of(c).len() && (#[trigger] g.deps_of(c)[k]) == d;
            assert(phase_b_at(g, s, (g.deps_of(c)[k]) as int) == TaskProgress::Good);
        }
    } else {
        if all_deps_recovered(g, s, c) {
            assert forall|k: int|
                0 <= k < g.deps_of(c).len() implies phase_b_at(
                g,
                s,
                (#[trigger] g.deps_of(c)[k]) as int,
            ) == TaskProgress::Good by {
                let d = g.deps_of(c)[k] as int;
                assert(g.has_dep(c, d));
                assert(g.edge(d, c));
            }
            assert(false);
        }
    }
}

/// Phase B either keeps a card or promotes it.
pub(crate) proof fn lemma_phase_b_cases(g: CourseGraph, s: Seq<TaskProgress>, c: int)
    requires
        g.wf(),
        0 <= c < g.n(),
    ensures
        phase_b_at(g, s, c) == s[c] || phase_b_at(g, s, c) == promote(s[c]),
{
    lemma_phase_b_unfold(g, s, c);
}

/// Under the phase-B invariant, a card that is currently `Good` also ends
/// the denotational phase B as `Good`.
proof fn lemma_cur_good_recovered(
    g: CourseGraph,
    sa: Seq<TaskProgress>,
    s: Seq<TaskProgress>,
    d: int,
)
    requires
        g.wf(),
        inv_b(g, sa, s),
        0 <= d < g.n(),
        s[d] == TaskProgress::Good,
    ensures
        phase_b_at(g, sa, d) == TaskProgress::Good,
{
    lemma_phase_b_unfold(g, sa, d);
}

/// A settled, invariant-respecting state is exactly the phase-B denotation.
proof fn lemma_b_complete_at(g: CourseGraph, sa: Seq<TaskProgress>, s: Seq<TaskProgress>, c: int)
    requires
        g.wf(),
        sa.len() == g.n(),
        s.len() == g.n(),
        inv_b(g, sa, s),
        forall|c1: int| 0 <= c1 < g.n() ==> settled(g, sa, s, c1),
        0 <= c < g.n(),
    ensures
        s[c] == phase_b_at(g, sa, c),
    decreases g.rank_of(c),
{
    lemma_phase_b_unfold(g, sa, c);
    if all_deps_recovered(g, sa, c) {
        assert forall|d: int| #[trigger] g.edge(d, c) implies s[d] == TaskProgress::Good by {
            g.lemma_edge_rank(d, c);
            lemma_b_complete_at(g, sa, s, d);
        }
        assert(settled(g, sa, s, c));
        assert(s[c] == promote(sa[c]));
    } else {
        assert(s[c] == sa[c]);
    }
}

/// Under the phase-A invariant, a card reads `Failed` now exactly when it
/// started `Failed`.
proof fn lemma_inv_a_failed(g: CourseGraph, s0: Seq<TaskProgress>, s: Seq<TaskProgress>, c: int)
    requires
        g.wf(),
        inv_a(g, s0, s),
        0 <= c < g.n(),
    ensures
        (s[c] == TaskProgress::Failed) == (s0[c] == TaskProgress::Failed),
{
    assert(s[c] == s0[c] || s[c] == demote(s0[c]));
}

/// The executable fail-propagation update.
fn demote_exec(p: TaskProgress) -> (r: TaskProgress)
    ensures
        r == demote(p),
{
    match p {
        TaskProgress::NotStarted { .. } => TaskProgress::NotStarted { could_be_learned: false },
        TaskProgress::Good => TaskProgress::RecursiveFailed,
        _ => p,
    }
}

/// The executable recovery update.
fn promote_exec(p: TaskProgress) -> (r: TaskProgress)
    ensures
        r == promote(p),
{
    match p {
        TaskProgress::NotStarted { .. } => TaskProgress::NotStarted { could_be_learned: true },
        TaskProgress::RecursiveFailed => TaskProgress::Good,
        _ => p,
    }
}

impl CourseGraph {
    /// Phase A walk from one failed source: demote `i` and every card
    /// downstream of it.
    #[verifier::loop_isolation(false)]
    #[verifier::rlimit(60)]
    fn propagate_fail(
        &self,
        i: usize,
        store: &mut ProgressStore,
        Ghost(s0): Ghost<Seq<TaskProgress>>,
    )
        requires
            self.wf(),
            old(store).wf(),
            old(store).spec_len() == self.n(),
            s0.len() == self.n(),
            i < self.n(),
            inv_a(*self, s0, old(store).progress_view()),
            failed_reaches(*self, s0, i as int),
        ensures
            final(store).wf(),
            final(store).spec_len() == self.n(),
            final(store).names_view() == old(store).names_view(),
            final(store).memory_view() == old(store).memory_view(),
            inv_a(*self, s0, final(store).progress_view()),
            forall|c: int|
                0 <= c < self.n() && reaches(*self, i as int, c)
                    ==> (#[trigger] final(store).progress_view()[c]) == demote(s0[c]),
            forall|c: int|
                0 <= c < self.n() && !reaches(*self, i as int, c)
                    ==> (#[trigger] final(store).progress_view()[c]) == old(store).progress_view()[c],
        decreases self.n() - self.rank_of(i as int),
    {
        let n = self.names.len();
        let cur = store.progress[i];
        store.progress.set(i, demote_exec(cur));
        proof {
            lemma_reaches_refl(*self, i as int);
            assert(store.progress_view()[i as int] == demote(s0[i as int]));
            assert(store.progress@.len() == store.names@.len());
            assert(store.names_view() == old(store).names_view());
            assert(store.wf());
        }
        let m = self.dnts[i].len();
        let mut k: usize = 0;
        while k < m
            invariant
                store.wf(),
                store.spec_len() == self.n(),
                store.names_view() == old(store).names_view(),
                store.memory_view() == old(store).memory_view(),
                k <= m,
                m == self.dnts_of(i as int).len(),
                inv_a(*self, s0, store.progress_view()),
                forall|c: int|
                    0 <= c < self.n() && (c == i as int || exists|k1: int|
                        0 <= k1 < k && reaches(
                            *self,
                            (#[trigger] self.dnts_of(i as int)[k1]) as int,
                            c,
                        )) ==> (#[trigger] store.progress_view()[c]) == demote(s0[c]),
                forall|c: int|
                    0 <= c < self.n() && !(c == i as int || exists|k1: int|
                        0 <= k1 < k && reaches(
                            *self,
                            (#[trigger] self.dnts_of(i as int)[k1]) as int,
                            c,
                        )) ==> (#[trigger] store.progress_view()[c]) == old(store).progress_view()[c],
            decreases m - k,
        {
            let x = self.dnts[i][k];
            proof {
                assert(self.dnts_of(i as int)[k as int] == x);
                assert(self.has_dnt(i as int, x as int));
                assert(self.has_dep(x as int, i as int));
                assert(self.edge(i as int, x as int));
                self.lemma_edge_rank(i as int, x as int);
                let f = choose|f: int|
                    0 <= f < self.n() && s0[f] == TaskProgress::Failed && #[trigger] reaches(
                        *self,
                        f,
                        i as int,
                    );
                lemma_reaches_step(*self, f, i as int, x as int);
                assert(failed_reaches(*self, s0, x as int));
            }
            let ghost s_before = store.progress_view();
            self.propagate_fail(x, store, Ghost(s0));
            proof {
                assert forall|c: int|
                    0 <= c < self.n() && (c == i as int || exists|k1: int|
                        0 <= k1 < k + 1 && reaches(
                            *self,
                            (#[trigger] self.dnts_of(i as int)[k1]) as int,
                            c,
                        )) implies (#[trigger] store.progress_view()[c]) == demote(s0[c]) by {
                    if reaches(*self, x as int, c) {
                        assert(store.progress_view()[c] == demote(s0[c]));
                    } else {
                        assert(store.progress_view()[c] == s_before[c]);
                        if c == i as int {
                            assert(s_before[c] == demote(s0[c]));
                        } else {
                            let k1 = choose|k1: int|
                                0 <= k1 < k + 1 && reaches(
                                    *self,
                                    (#[trigger] self.dnts_of(i as int)[k1]) as int,
                                    c,
                                );
                            assert(k1 < k);
                            assert(s_before[c] == demote(s0[c]));
                        }
                    }
                }
            }
            k = k + 1;
        }
        proof {
            assert forall|c: int|
                0 <= c < self.n() && reaches(*self, i as int, c) implies (
            #[trigger] store.progress_view()[c]) == demote(s0[c]) by {
                if c != i as int {
                    lemma_reaches_from(*self, i as int, c);
                    let x = choose|x: int|
                        0 <= x < self.n() && (#[trigger] self.edge(i as int, x)) && reaches(
                            *self,
                            x,
                            c,
                        );
                    assert(self.has_dnt(i as int, x));
                    let k1 = choose|k1: int|
                        0 <= k1 < self.dnts_of(i as int).len() && (#[trigger] self.dnts_of(
                            i as int,
                        )[k1]) == x;
                    assert(reaches(*self, (self.dnts_of(i as int)[k1]) as int, c));
                }
            }
            assert forall|c: int|
                0 <= c < self.n() && !reaches(*self, i as int, c) implies (
            #[trigger] store.progress_view()[c]) == old(store).progress_view()[c] by {
                if c == i as int {
                    lemma_reaches_refl(*self, i as int);
                    assert(false);
                }
                if exists|k1: int|
                    0 <= k1 < m && reaches(*self, (#[trigger] self.dnts_of(i as int)[k1]) as int, c) {
                    let k1 = choose|k1: int|
                        0 <= k1 < m && reaches(
                            *self,
                            (#[trigger] self.dnts_of(i as int)[k1]) as int,
                            c,
                        );
                    let x = self.dnts_of(i as int)[k1] as int;
                    assert(self.has_dnt(i as int, x));
                    assert(self.edge(i as int, x));
                    lemma_reaches_refl(*self, i as int);
                    lemma_reaches_step(*self, i as int, i as int, x);
                    lemma_reaches_trans(*self, i as int, x, c);
                    assert(false);
                }
            }
        }
    }

    /// Phase B visit of one card: recover it if all its direct dependencies
    /// are mastered, then revisit its dependents.
    #[verifier::loop_isolation(false)]
    #[verifier::rlimit(60)]
    fn propagate_no_fail(
        &self,
        i: usize,
        store: &mut ProgressStore,
        Ghost(sa): Ghost<Seq<TaskProgress>>,
    )
        requires
            self.wf(),
            old(store).wf(),
            old(store).spec_len() == self.n(),
            sa.len() == self.n(),
            i < self.n(),
            inv_b(*self, sa, old(store).progress_view()),
        ensures
            final(store).wf(),
            final(store).spec_len() == self.n(),
            final(store).names_view() == old(store).names_view(),
            final(store).memory_view() == old(store).memory_view(),
            inv_b(*self, sa, final(store).progress_view()),
            forall|c: int|
                0 <= c < self.n() ==> (#[trigger] final(store).progress_view()[c]) == old(store).progress_view()[c] || (old(store).progress_view()[c] == sa[c] && final(store).progress_view()[c] == promote(sa[c]) && all_deps_recovered(*self, sa, c)),
            forall|c: int|
                0 <= c < self.n() && settled(*self, sa, old(store).progress_view(), c)
                    ==> #[trigger] settled(*self, sa, final(store).progress_view(), c),
            settled(*self, sa, final(store).progress_view(), i as int),
        decreases self.n() - self.rank_of(i as int),
    {
        let n = self.names.len();
        let row_len = self.deps[i].len();
        let mut all_good = true;
        let mut k: usize = 0;
        while k < row_len
            invariant
                k <= row_len,
                row_len == self.deps_of(i as int).len(),
                all_good == (forall|k1: int|
                    0 <= k1 < k ==> store.progress_view()[(#[trigger] self.deps_of(i as int)[k1]) as int] == TaskProgress::Good),
            decreases row_len - k,
        {
            let d = self.deps[i][k];
            if store.progress[d] != TaskProgress::Good {
                all_good = false;
            }
            k = k + 1;
        }
        if !all_good {
            proof {
                let k1 = choose|k1: int|
                    0 <= k1 < row_len && store.progress_view()[(#[trigger] self.deps_of(i as int)[k1]) as int] != TaskProgress::Good;
                let d = self.deps_of(i as int)[k1] as int;
                assert(self.has_dep(i as int, d));
                assert(self.edge(d, i as int));
                assert(store.progress_view()[d] != TaskProgress::Good);
                assert(settled(*self, sa, store.progress_view(), i as int)) by {
                    assert(!(forall|dd: int|
                        #[trigger] self.edge(dd, i as int) ==> store.progress_view()[dd]
                            == TaskProgress::Good));
                }
            }
            return ;
        }
        proof {
            assert forall|d: int| #[trigger] self.edge(d, i as int) implies phase_b_at(
                *self,
                sa,
                d,
            ) == TaskProgress::Good by {
                let k1 = choose|k1: int|
                    0 <= k1 < self.deps_of(i as int).len() && (#[trigger] self.deps_of(i as int)[k1]) == d;
                assert(store.progress_view()[d] == TaskProgress::Good);
                lemma_cur_good_recovered(*self, sa, store.progress_view(), d);
            }
            assert(all_deps_recovered(*self, sa, i as int));
        }
        let cur = store.progress[i];
        store.progress.set(i, promote_exec(cur));
        proof {
            assert(store.progress_view()[i as int] == promote(sa[i as int]));
            assert(store.progress@.len() == store.names@.len());
            assert(store.names_view() == old(store).names_view());
            assert(store.wf());
        }
        let m = self.dnts[i].len();
        proof {
            assert forall|c: int|
                0 <= c < self.n() && (settled(*self, sa, old(store).progress_view(), c) || c
                    == i as int) && !(exists|j2: int|
                    0 <= j2 < m && c == (#[trigger] self.dnts_of(i as int)[j2]) as int)
                implies #[trigger] settled(*self, sa, store.progress_view(), c) by {
                if c == i as int {
                    assert(store.progress_view()[c] == promote(sa[c]));
                } else {
                    if forall|d: int|
                        #[trigger] self.edge(d, c) ==> store.progress_view()[d]
                            == TaskProgress::Good {
                        assert forall|d: int| #[trigger] self.edge(d, c) implies old(
                            store,
                        ).progress_view()[d] == TaskProgress::Good by {
                            if d == i as int {
                                assert(self.has_dep(c, i as int));
                                assert(self.has_dnt(i as int, c));
                                let j2 = choose|j2: int|
                                    0 <= j2 < self.dnts_of(i as int).len() && (
                                    #[trigger] self.dnts_of(i as int)[j2]) == c;
                                assert(c == (self.dnts_of(i as int)[j2]) as int);
                                assert(false);
                            } else {
                                assert(store.progress_view()[d] == old(store).progress_view()[d]);
                            }
                        }
                        assert(old(store).progress_view()[c] == promote(sa[c]));
                        assert(store.progress_view()[c] == old(store).progress_view()[c]);
                    }
                }
            }
        }
        let mut j: usize = 0;
        while j < m
            invariant
                store.wf(),
                store.spec_len() == self.n(),
                store.names_view() == old(store).names_view(),
                store.memory_view() == old(store).memory_view(),
                j <= m,
                m == self.dnts_of(i as int).len(),
                inv_b(*self, sa, store.progress_view()),
                forall|c: int|
                    0 <= c < self.n() ==> (#[trigger] store.progress_view()[c]) == old(store).progress_view()[c] || (old(store).progress_view()[c] == sa[c]
                        && store.progress_view()[c] == promote(sa[c]) && all_deps_recovered(
                        *self,
                        sa,
                        c,
                    )),
                forall|c: int|
                    0 <= c < self.n() && (settled(*self, sa, old(store).progress_view(), c) || c
                        == i as int || (exists|j1: int|
                        0 <= j1 < j && c == (#[trigger] self.dnts_of(i as int)[j1]) as int)) && !(
                    exists|j2: int|
                        j <= j2 < m && c == (#[trigger] self.dnts_of(i as int)[j2]) as int)
                        ==> #[trigger] settled(*self, sa, store.progress_view(), c),
            decreases m - j,
        {
            let x = self.dnts[i][j];
            proof {
                assert(self.dnts_of(i as int)[j as int] == x);
                assert(self.has_dnt(i as int, x as int));
                assert(self.has_dep(x as int, i as int));
                assert(self.edge(i as int, x as int));
                self.lemma_edge_rank(i as int, x as int);
            }
            let ghost s_before = store.progress_view();
            self.propagate_no_fail(x, store, Ghost(sa));
            proof {
                assert forall|c: int|
                    0 <= c < self.n() && (settled(*self, sa, old(store).progress_view(), c) || c
                        == i as int || (exists|j1: int|
                        0 <= j1 < j + 1 && c == (#[trigger] self.dnts_of(i as int)[j1]) as int))
                        && !(exists|j2: int|
                        j + 1 <= j2 < m && c == (#[trigger] self.dnts_of(i as int)[j2]) as int)
                        implies #[trigger] settled(*self, sa, store.progress_view(), c) by {
                    if c == x as int {
                        assert(settled(*self, sa, store.progress_view(), c));
                    } else {
                        assert(!(exists|j2: int|
                            j <= j2 < m && c == (#[trigger] self.dnts_of(i as int)[j2]) as int));
                        if exists|j1: int|
                            0 <= j1 < j + 1 && c == (#[trigger] self.dnts_of(i as int)[j1]) as int {
                            let j1 = choose|j1: int|
                                0 <= j1 < j + 1 && c == (#[trigger] self.dnts_of(i as int)[j1]) as int;
                            assert(j1 < j);
                            assert(exists|j1a: int|
                                0 <= j1a < j && c == (#[trigger] self.dnts_of(i as int)[j1a]) as int);
                        }
                        assert(settled(*self, sa, s_before, c));
                        assert(settled(*self, sa, store.progress_view(), c));
                    }
                }
            }
            j = j + 1;
        }
        proof {
            // At loop exit the set of dependents still to visit is empty,
            // so the tracking invariant applies unconditionally.
            assert forall|c: int|
                0 <= c < self.n() && settled(*self, sa, old(store).progress_view(), c)
                implies #[trigger] settled(*self, sa, store.progress_view(), c) by {
                assert(!(exists|j2: int|
                    j <= j2 < m && c == (#[trigger] self.dnts_of(i as int)[j2]) as int));
            }
            assert(settled(*self, sa, store.progress_view(), i as int)) by {
                assert(!(exists|j2: int|
                    j <= j2 < m && i as int == (#[trigger] self.dnts_of(i as int)[j2]) as int));
            }
        }
    }

    /// The two-phase reconciliation pass over a learner's store.
    ///
    /// Phase A demotes every card downstream of a `Failed` card; phase B
    /// recovers every card whose direct dependencies all end up mastered.
    /// The result is exactly [`detect_spec`] of the starting store — an
    /// order-free function of the store and the dependency relation alone.
    #[verifier::loop_isolation(false)]
    #[verifier::rlimit(60)]
    pub fn detect_recursive_fails(&self, store: &mut ProgressStore)
        requires
            self.wf(),
            old(store).wf(),
            old(store).spec_len() == self.n(),
        ensures
            final(store).wf(),
            final(store).spec_len() == self.n(),
            final(store).names_view() == old(store).names_view(),
            final(store).memory_view() == old(store).memory_view(),
            final(store).progress_view() == detect_spec(*self, old(store).progress_view()),
    {
        let ghost s0 = old(store).progress_view();
        let n = self.names.len();

        // Phase A: demote everything downstream of a failure.
        let mut f: usize = 0;
        while f < n
            invariant
                store.wf(),
                store.spec_len() == self.n(),
                store.names_view() == old(store).names_view(),
                store.memory_view() == old(store).memory_view(),
                f <= n,
                inv_a(*self, s0, store.progress_view()),
                forall|f1: int|
                    0 <= f1 < f && s0[f1] == TaskProgress::Failed ==> forall|c: int|
                        0 <= c < self.n() && reaches(*self, f1, c)
                            ==> (#[trigger] store.progress_view()[c]) == demote(s0[c]),
            decreases n - f,
        {
            let p = store.progress[f];
            if p == (TaskProgress::Failed) {
                proof {
                    lemma_inv_a_failed(*self, s0, store.progress_view(), f as int);
                    lemma_reaches_refl(*self, f as int);
                    assert(failed_reaches(*self, s0, f as int));
                }
                let ghost s_before = store.progress_view();
                self.propagate_fail(f, store, Ghost(s0));
                proof {
                    assert forall|f1: int|
                        0 <= f1 < f + 1 && s0[f1] == TaskProgress::Failed implies forall|c: int|
                        0 <= c < self.n() && reaches(*self, f1, c)
                            ==> (#[trigger] store.progress_view()[c]) == demote(s0[c]) by {
                        assert forall|c: int|
                            0 <= c < self.n() && reaches(*self, f1, c) implies (
                        #[trigger] store.progress_view()[c]) == demote(s0[c]) by {
                            if reaches(*self, f as int, c) {
                            } else {
                                assert(store.progress_view()[c] == s_before[c]);
                                if f1 < f {
                                    assert(s_before[c] == demote(s0[c]));
                                }
                            }
                        }
                    }
                }
            } else {
                proof {
                    lemma_inv_a_failed(*self, s0, store.progress_view(), f as int);
                }
            }
            f = f + 1;
        }
        let ghost sa = store.progress_view();
        proof {
            assert forall|c: int| 0 <= c < self.n() implies sa[c] == phase_a_at(*self, s0, c) by {
                if failed_reaches(*self, s0, c) {
                    let f1 = choose|f1: int|
                        0 <= f1 < self.n() && s0[f1] == TaskProgress::Failed && #[trigger] reaches(
                            *self,
                            f1,
                            c,
                        );
                    assert(sa[c] == demote(s0[c]));
                } else {
                    assert(sa[c] == s0[c]);
                }
            }
            assert(sa =~= phase_a(*self, s0));
            assert(inv_b(*self, sa, sa));
        }

        // Phase B: recover every card whose prerequisites are all mastered.
        let mut c: usize = 0;
        while c < n
            invariant
                store.wf(),
                store.spec_len() == self.n(),
                store.names_view() == old(store).names_view(),
                store.memory_view() == old(store).memory_view(),
                c <= n,
                inv_b(*self, sa, store.progress_view()),
                forall|c1: int|
                    0 <= c1 < c ==> #[trigger] settled(*self, sa, store.progress_view(), c1),
            decreases n - c,
        {
            self.propagate_no_fail(c, store, Ghost(sa));
            c = c + 1;
        }
        proof {
            assert forall|cc: int| 0 <= cc < self.n() implies (#[trigger] store.progress_view()[cc]) == phase_b_at(*self, sa, cc) by {
                lemma_b_complete_at(*self, sa, store.progress_view(), cc);
            }
            assert(store.progress_view() =~= detect_spec(*self, s0));
        }
    }
}

} // verus!
