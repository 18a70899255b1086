//! The global properties of the reconciliation pass, stated and proved over
//! its denotation [`detect_spec`]: idempotence, monotonicity of the fail
//! phase, soundness of recovery, and independence from iteration order.
//!
//! Because `CourseGraph::detect_recursive_fails` ensures that the store it
//! leaves behind equals `detect_spec` of the store it was given, each
//! statement here transfers directly to the executable pass.

use vstd::prelude::*;

use crate::graph::CourseGraph;
use crate::progress_store::TaskProgress;
use crate::propagate::{
    all_deps_recovered, demote, detect_spec, failed_reaches, lemma_phase_b_cases,
    lemma_phase_b_unfold, lemma_reaches_step, lemma_reaches_unfold, phase_a, phase_a_at,
    phase_b_at, promote, reaches,
};

verus! {

/// A card downstream of a failure ends the pass demoted, and in particular
/// not mastered.
proof fn lemma_failed_downstream(g: CourseGraph, s: Seq<TaskProgress>, c: int)
    requires
        g.wf(),
        s.len() == g.n(),
        0 <= c < g.n(),
        failed_reaches(g, s, c),
    ensures
        detect_spec(g, s)[c] == demote(s[c]),
        detect_spec(g, s)[c] != TaskProgress::Good,
    decreases g.rank_of(c),
{
    let sa = phase_a(g, s);
    let f = choose|f: int|
        0 <= f < g.n() && s[f] == TaskProgress::Failed && #[trigger] reaches(g, f, c);
    assert(sa[c] == demote(s[c]));
    if f == c {
        lemma_phase_b_cases(g, sa, c);
    } else {
        lemma_reaches_unfold(g, f, c);
        let d = choose|d: int| 0 <= d < g.n() && (#[trigger] g.edge(d, c)) && reaches(g, f, d);
        g.lemma_edge_rank(d, c);
        assert(failed_reaches(g, s, d));
        lemma_failed_downstream(g, s, d);
        lemma_phase_b_unfold(g, sa, c);
        assert(!all_deps_recovered(g, sa, c));
    }
}

/// After the pass, a card reads `Failed` exactly where it started `Failed`:
/// neither phase creates or clears that state.
proof fn lemma_failed_set_preserved(g: CourseGraph, s: Seq<TaskProgress>, c: int)
    requires
        g.wf(),
        s.len() == g.n(),
        0 <= c < g.n(),
    ensures
        (detect_spec(g, s)[c] == TaskProgress::Failed) == (s[c] == TaskProgress::Failed),
{
    let sa = phase_a(g, s);
    lemma_phase_b_cases(g, sa, c);
}

/// The phase-B fixpoint of the pass's own result changes nothing.
proof fn lemma_second_phase_b(g: CourseGraph, s: Seq<TaskProgress>, c: int)
    requires
        g.wf(),
        s.len() == g.n(),
        0 <= c < g.n(),
    ensures
        phase_b_at(g, detect_spec(g, s), c) == detect_spec(g, s)[c],
    decreases g.rank_of(c),
{
    let sa = phase_a(g, s);
    let r = detect_spec(g, s);
    lemma_phase_b_unfold(g, r, c);
    lemma_phase_b_unfold(g, sa, c);
    assert forall|d: int| #[trigger] g.edge(d, c) implies phase_b_at(g, r, d) == r[d] by {
        g.lemma_edge_rank(d, c);
        lemma_second_phase_b(g, s, d);
    }
    assert(all_deps_recovered(g, r, c) == all_deps_recovered(g, sa, c));
}

/// **Idempotence.** Running the reconciliation pass twice in succession
/// yields no further changes: `detect_spec` of its own result is that
/// result again. Since `detect_recursive_fails` ensures its store equals
/// `detect_spec` of the input, a second run of the executable pass leaves
/// the store untouched.
pub proof fn lemma_detect_idempotent(g: CourseGraph, s: Seq<TaskProgress>)
    requires
        g.wf(),
        s.len() == g.n(),
    ensures
        detect_spec(g, detect_spec(g, s)) == detect_spec(g, s),
{
    let r = detect_spec(g, s);
    assert(r.len() == g.n());
    // The second fail phase finds the same failed set and changes nothing.
    assert forall|c: int| 0 <= c < g.n() implies #[trigger] phase_a_at(g, r, c) == r[c] by {
        if failed_reaches(g, r, c) {
            let f = choose|f: int|
                0 <= f < g.n() && r[f] == TaskProgress::Failed && #[trigger] reaches(g, f, c);
            lemma_failed_set_preserved(g, s, f);
            assert(failed_reaches(g, s, c));
            lemma_failed_downstream(g, s, c);
        }
    }
    assert(phase_a(g, r) =~= r);
    // The second recovery phase is already at its fixpoint.
    assert forall|c: int| 0 <= c < g.n() implies #[trigger] detect_spec(g, r)[c] == r[c] by {
        lemma_second_phase_b(g, s, c);
        assert(phase_b_at(g, phase_a(g, r), c) == phase_b_at(g, r, c));
    }
    assert(detect_spec(g, r) =~= r);
}

/// **Monotonic fail phase.** The fail-propagation phase never moves a card
/// away from `Failed`, `RecursiveFailed` or
/// `NotStarted { could_be_learned: false }` toward a healthier state: those
/// three states are left exactly as they are, and any card it does change
/// is changed to its demotion.
pub proof fn lemma_phase_a_monotone(g: CourseGraph, s: Seq<TaskProgress>, c: int)
    requires
        g.wf(),
        s.len() == g.n(),
        0 <= c < g.n(),
    ensures
        s[c] == TaskProgress::Failed ==> phase_a(g, s)[c] == TaskProgress::Failed,
        s[c] == TaskProgress::RecursiveFailed ==> phase_a(g, s)[c]
            == TaskProgress::RecursiveFailed,
        s[c] == (TaskProgress::NotStarted { could_be_learned: false }) ==> phase_a(g, s)[c]
            == (TaskProgress::NotStarted { could_be_learned: false }),
        phase_a(g, s)[c] == s[c] || phase_a(g, s)[c] == demote(s[c]),
{
}

/// **Recovery-only phase B.** The recovery phase never pushes a card
/// toward failure: it either keeps the phase-A value of a card or promotes
/// it, and it promotes only when every direct dependency itself ends the
/// phase mastered.
pub proof fn lemma_phase_b_monotone(g: CourseGraph, sa: Seq<TaskProgress>, c: int)
    requires
        g.wf(),
        0 <= c < g.n(),
    ensures
        phase_b_at(g, sa, c) == sa[c] || phase_b_at(g, sa, c) == promote(sa[c]),
        phase_b_at(g, sa, c) != sa[c] ==> all_deps_recovered(g, sa, c),
{
    lemma_phase_b_cases(g, sa, c);
    lemma_phase_b_unfold(g, sa, c);
}

/// Every direct dependency of a card the pass leaves `Good` or
/// `NotStarted { could_be_learned: true }` is itself left `Good`, provided
/// the starting store blames only failures: a dependency of a card held as
/// mastered or learnable is either mastered or downstream of a `Failed`
/// card.
pub open spec fn failure_consistent(g: CourseGraph, s: Seq<TaskProgress>) -> bool {
    forall|c: int, d: int|
        0 <= c < g.n() && (#[trigger] g.edge(d, c)) && (s[c] == TaskProgress::Good || s[c]
            == (TaskProgress::NotStarted { could_be_learned: true })) ==> s[d]
            == TaskProgress::Good || failed_reaches(g, s, d)
}

/// Direct-dependency form of recovery soundness.
proof fn lemma_detect_good_deps(g: CourseGraph, s: Seq<TaskProgress>, c: int)
    requires
        g.wf(),
        s.len() == g.n(),
        failure_consistent(g, s),
        0 <= c < g.n(),
        detect_spec(g, s)[c] == TaskProgress::Good || detect_spec(g, s)[c]
            == (TaskProgress::NotStarted { could_be_learned: true }),
    ensures
        forall|d: int| #[trigger] g.edge(d, c) ==> detect_spec(g, s)[d] == TaskProgress::Good,
{
    let sa = phase_a(g, s);
    let r = detect_spec(g, s);
    lemma_phase_b_unfold(g, sa, c);
    if all_deps_recovered(g, sa, c) {
        assert forall|d: int| #[trigger] g.edge(d, c) implies r[d] == TaskProgress::Good by {
            assert(phase_b_at(g, sa, d) == TaskProgress::Good);
        }
    } else {
        assert(r[c] == sa[c]);
        assert(!failed_reaches(g, s, c));
        assert(sa[c] == s[c]);
        assert forall|d: int| #[trigger] g.edge(d, c) implies r[d] == TaskProgress::Good by {
            if failed_reaches(g, s, d) {
                let f = choose|f: int|
                    0 <= f < g.n() && s[f] == TaskProgress::Failed && #[trigger] reaches(g, f, d);
                lemma_reaches_step(g, f, d, c);
                assert(failed_reaches(g, s, c));
                assert(false);
            }
            assert(s[d] == TaskProgress::Good);
            assert(sa[d] == TaskProgress::Good);
            lemma_phase_b_cases(g, sa, d);
        }
    }
}

/// **Recovery soundness.** After the pass, a card left `Good` or
/// `NotStarted { could_be_learned: true }` has every transitive dependency
/// left `Good` — provided the starting store blames only failures
/// ([`failure_consistent`]). A store in which a card is held as learnable
/// while a prerequisite was simply never started (for instance, a freshly
/// initialized store) is outside that premise, and the pass indeed keeps
/// such a card learnable there.
pub proof fn lemma_recovery_sound(g: CourseGraph, s: Seq<TaskProgress>, c: int, d: int)
    requires
        g.wf(),
        s.len() == g.n(),
        failure_consistent(g, s),
        0 <= c < g.n(),
        0 <= d < g.n(),
        d != c,
        reaches(g, d, c),
        detect_spec(g, s)[c] == TaskProgress::Good || detect_spec(g, s)[c]
            == (TaskProgress::NotStarted { could_be_learned: true }),
    ensures
        detect_spec(g, s)[d] == TaskProgress::Good,
    decreases g.rank_of(c),
{
    lemma_reaches_unfold(g, d, c);
    let e = choose|e: int| 0 <= e < g.n() && (#[trigger] g.edge(e, c)) && reaches(g, d, e);
    lemma_detect_good_deps(g, s, c);
    assert(detect_spec(g, s)[e] == TaskProgress::Good);
    if d != e {
        g.lemma_edge_rank(e, c);
        lemma_recovery_sound(g, s, e, d);
    }
}

/// Reachability depends only on the edge relation.
proof fn lemma_reaches_congruent(g1: CourseGraph, g2: CourseGraph, f: int, c: int)
    requires
        g1.wf(),
        g2.wf(),
        g1.n() == g2.n(),
        forall|a: int, b: int|
            #![trigger g1.edge(a, b)]
            #![trigger g2.edge(a, b)]
            g1.edge(a, b) <==> g2.edge(a, b),
        0 <= f < g1.n(),
        0 <= c < g1.n(),
    ensures
        reaches(g1, f, c) == reaches(g2, f, c),
    decreases g1.rank_of(c),
{
    lemma_reaches_unfold(g1, f, c);
    lemma_reaches_unfold(g2, f, c);
    if f != c {
        if reaches(g1, f, c) {
            let d = choose|d: int|
                0 <= d < g1.n() && (#[trigger] g1.edge(d, c)) && reaches(g1, f, d);
            g1.lemma_edge_rank(d, c);
            lemma_reaches_congruent(g1, g2, f, d);
            assert(g2.edge(d, c) && reaches(g2, f, d));
        }
        if reaches(g2, f, c) {
            let d = choose|d: int|
                0 <= d < g2.n() && (#[trigger] g2.edge(d, c)) && reaches(g2, f, d);
            assert(g1.edge(d, c));
            g1.lemma_edge_rank(d, c);
            lemma_reaches_congruent(g1, g2, f, d);
            assert(g1.edge(d, c) && reaches(g1, f, d));
        }
    }
}

/// The recovery fixpoint depends only on the edge relation.
proof fn lemma_phase_b_congruent(g1: CourseGraph, g2: CourseGraph, sa: Seq<TaskProgress>, c: int)
    requires
        g1.wf(),
        g2.wf(),
        g1.n() == g2.n(),
        forall|a: int, b: int|
            #![trigger g1.edge(a, b)]
            #![trigger g2.edge(a, b)]
            g1.edge(a, b) <==> g2.edge(a, b),
        0 <= c < g1.n(),
    ensures
        phase_b_at(g1, sa, c) == phase_b_at(g2, sa, c),
    decreases g1.rank_of(c),
{
    lemma_phase_b_unfold(g1, sa, c);
    lemma_phase_b_unfold(g2, sa, c);
    assert forall|d: int| #[trigger] g1.edge(d, c) implies phase_b_at(g1, sa, d) == phase_b_at(
        g2,
        sa,
        d,
    ) by {
        g1.lemma_edge_rank(d, c);
        lemma_phase_b_congruent(g1, g2, sa, d);
    }
    assert(all_deps_recovered(g1, sa, c) == all_deps_recovered(g2, sa, c));
}

/// **Order independence.** The pass's result depends only on the starting
/// store and the dependency relation itself: two well-formed graphs with
/// the same cards and the same edges — however their adjacency lists are
/// ordered, and whatever topological rank witnesses their acyclicity —
/// produce identical final stores. Together with the exact postcondition of
/// `detect_recursive_fails`, shuffling the iteration order of either phase
/// cannot change the outcome.
pub proof fn lemma_detect_order_independent(g1: CourseGraph, g2: CourseGraph, s: Seq<TaskProgress>)
    requires
        g1.wf(),
        g2.wf(),
        g1.n() == g2.n(),
        s.len() == g1.n(),
        forall|a: int, b: int|
            #![trigger g1.edge(a, b)]
            #![trigger g2.edge(a, b)]
            g1.edge(a, b) <==> g2.edge(a, b),
    ensures
        detect_spec(g1, s) == detect_spec(g2, s),
{
    assert forall|c: int| 0 <= c < g1.n() implies #[trigger] phase_a_at(g1, s, c) == phase_a_at(
        g2,
        s,
        c,
    ) by {
        if failed_reaches(g1, s, c) {
            let f = choose|f: int|
                0 <= f < g1.n() && s[f] == TaskProgress::Failed && #[trigger] reaches(g1, f, c);
            lemma_reaches_congruent(g1, g2, f, c);
            assert(failed_reaches(g2, s, c));
        }
        if failed_reaches(g2, s, c) {
            let f = choose|f: int|
                0 <= f < g2.n() && s[f] == TaskProgress::Failed && #[trigger] reaches(g2, f, c);
            lemma_reaches_congruent(g1, g2, f, c);
            assert(failed_reaches(g1, s, c));
        }
    }
    assert(phase_a(g1, s) =~= phase_a(g2, s));
    assert forall|c: int| 0 <= c < g1.n() implies #[trigger] detect_spec(g1, s)[c] == detect_spec(
        g2,
        s,
    )[c] by {
        lemma_phase_b_congruent(g1, g2, phase_a(g1, s), c);
    }
    assert(detect_spec(g1, s) =~= detect_spec(g2, s));
}

} // verus!
