use course_graph::graph::{Card, CourseGraph};
use course_graph::progress_store::{ProgressStore, TaskProgress};

fn card(name: &str, deps: &[&str]) -> Card {
    Card {
        name: name.to_string(),
        dependencies: deps.iter().map(|d| d.to_string()).collect(),
    }
}

fn build(cards: Vec<Card>) -> CourseGraph {
    CourseGraph::new(String::new(), cards).expect("graph should be accepted")
}

fn init(graph: &CourseGraph) -> ProgressStore {
    let mut store = ProgressStore::new();
    graph.init_store(&mut store);
    store
}

fn progress(store: &ProgressStore, name: &str) -> TaskProgress {
    store
        .progress_of(&name.to_string())
        .expect("card should be tracked")
}

fn mark(store: &mut ProgressStore, name: &str, p: TaskProgress) {
    assert!(store.set_progress(&name.to_string(), p));
}

const NOT_STARTED_OPEN: TaskProgress = TaskProgress::NotStarted {
    could_be_learned: true,
};
const NOT_STARTED_BLOCKED: TaskProgress = TaskProgress::NotStarted {
    could_be_learned: false,
};

#[test]
fn fail_blocks_untouched_dependent() {
    // a1 depends on a0; both never attempted; failing a0 closes a1.
    let g = build(vec![card("a0", &[]), card("a1", &["a0"])]);
    let mut store = init(&g);
    assert_eq!(progress(&store, "a0"), NOT_STARTED_OPEN);
    assert_eq!(progress(&store, "a1"), NOT_STARTED_OPEN);

    mark(&mut store, "a0", TaskProgress::Failed);
    g.detect_recursive_fails(&mut store);

    assert_eq!(progress(&store, "a0"), TaskProgress::Failed);
    assert_eq!(progress(&store, "a1"), NOT_STARTED_BLOCKED);
}

#[test]
fn fail_and_recovery_round_trip() {
    // a0 and a1 mastered; failing a0 marks a1 RecursiveFailed, and a0
    // recovering returns a1 to Good.
    let g = build(vec![card("a0", &[]), card("a1", &["a0"])]);
    let mut store = init(&g);
    mark(&mut store, "a0", TaskProgress::Good);
    mark(&mut store, "a1", TaskProgress::Good);

    mark(&mut store, "a0", TaskProgress::Failed);
    g.detect_recursive_fails(&mut store);
    assert_eq!(progress(&store, "a1"), TaskProgress::RecursiveFailed);

    mark(&mut store, "a0", TaskProgress::Good);
    g.detect_recursive_fails(&mut store);
    assert_eq!(progress(&store, "a1"), TaskProgress::Good);
    assert_eq!(progress(&store, "a0"), TaskProgress::Good);
}

#[test]
fn diamond_fails_through_one_branch() {
    // d0 depends on a3 and b3; only b3 failed, yet d0 is RecursiveFailed.
    let g = build(vec![
        card("a3", &[]),
        card("b3", &[]),
        card("d0", &["a3", "b3"]),
    ]);
    let mut store = init(&g);
    mark(&mut store, "a3", TaskProgress::Good);
    mark(&mut store, "b3", TaskProgress::Failed);
    mark(&mut store, "d0", TaskProgress::Good);

    g.detect_recursive_fails(&mut store);

    assert_eq!(progress(&store, "a3"), TaskProgress::Good);
    assert_eq!(progress(&store, "b3"), TaskProgress::Failed);
    assert_eq!(progress(&store, "d0"), TaskProgress::RecursiveFailed);
}

#[test]
fn failure_cascades_down_a_chain() {
    let g = build(vec![
        card("base", &[]),
        card("mid", &["base"]),
        card("top", &["mid"]),
    ]);
    let mut store = init(&g);
    mark(&mut store, "base", TaskProgress::Failed);
    mark(&mut store, "mid", TaskProgress::Good);
    mark(&mut store, "top", TaskProgress::Good);

    g.detect_recursive_fails(&mut store);

    assert_eq!(progress(&store, "mid"), TaskProgress::RecursiveFailed);
    assert_eq!(progress(&store, "top"), TaskProgress::RecursiveFailed);
}

#[test]
fn recovery_cascades_down_a_chain() {
    let g = build(vec![
        card("base", &[]),
        card("mid", &["base"]),
        card("top", &["mid"]),
    ]);
    let mut store = init(&g);
    mark(&mut store, "base", TaskProgress::Good);
    mark(&mut store, "mid", TaskProgress::RecursiveFailed);
    mark(&mut store, "top", TaskProgress::RecursiveFailed);

    g.detect_recursive_fails(&mut store);

    assert_eq!(progress(&store, "base"), TaskProgress::Good);
    assert_eq!(progress(&store, "mid"), TaskProgress::Good);
    assert_eq!(progress(&store, "top"), TaskProgress::Good);
}

#[test]
fn propagation_is_idempotent_on_concrete_store() {
    let g = build(vec![
        card("a", &[]),
        card("b", &["a"]),
        card("c", &["a", "b"]),
        card("d", &["c"]),
    ]);
    let mut store = init(&g);
    mark(&mut store, "a", TaskProgress::Failed);
    mark(&mut store, "b", TaskProgress::Good);
    mark(&mut store, "c", NOT_STARTED_OPEN);
    mark(&mut store, "d", TaskProgress::RecursiveFailed);

    g.detect_recursive_fails(&mut store);
    let first: Vec<(String, TaskProgress)> = store.entries();
    g.detect_recursive_fails(&mut store);
    let second: Vec<(String, TaskProgress)> = store.entries();

    assert_eq!(first, second);
}

#[test]
fn propagation_ignores_dependency_list_order() {
    // The same diamond with both adjacency orders settles identically.
    let g1 = build(vec![
        card("a3", &[]),
        card("b3", &[]),
        card("d0", &["a3", "b3"]),
    ]);
    let g2 = build(vec![
        card("a3", &[]),
        card("b3", &[]),
        card("d0", &["b3", "a3"]),
    ]);
    for seed in [
        TaskProgress::Good,
        TaskProgress::Failed,
        TaskProgress::RecursiveFailed,
        NOT_STARTED_OPEN,
    ] {
        let mut s1 = init(&g1);
        let mut s2 = init(&g2);
        for store in [&mut s1, &mut s2] {
            mark(store, "a3", seed);
            mark(store, "b3", TaskProgress::Failed);
            mark(store, "d0", TaskProgress::Good);
        }
        g1.detect_recursive_fails(&mut s1);
        g2.detect_recursive_fails(&mut s2);
        for name in ["a3", "b3", "d0"] {
            assert_eq!(progress(&s1, name), progress(&s2, name));
        }
    }
}

#[test]
fn recovery_waits_for_every_dependency() {
    // One of two prerequisites is still NotStarted: no recovery.
    let g = build(vec![
        card("p1", &[]),
        card("p2", &[]),
        card("goal", &["p1", "p2"]),
    ]);
    let mut store = init(&g);
    mark(&mut store, "p1", TaskProgress::Good);
    mark(&mut store, "p2", NOT_STARTED_OPEN);
    mark(&mut store, "goal", TaskProgress::RecursiveFailed);

    g.detect_recursive_fails(&mut store);

    assert_eq!(progress(&store, "goal"), TaskProgress::RecursiveFailed);
}

#[test]
fn empty_graph_propagates_trivially() {
    let g = build(vec![]);
    let mut store = init(&g);
    g.detect_recursive_fails(&mut store);
    assert_eq!(store.len(), 0);
    assert!(store.entries().is_empty());
}

#[test]
fn fail_phase_never_heals_a_card() {
    // Failure states survive the pass untouched wherever no recovery is
    // possible: the failed source itself, and cards blocked beneath it.
    let g = build(vec![
        card("root", &[]),
        card("low", &["root"]),
        card("high", &["low"]),
    ]);
    let mut store = init(&g);
    mark(&mut store, "root", TaskProgress::Failed);
    mark(&mut store, "low", TaskProgress::RecursiveFailed);
    mark(&mut store, "high", NOT_STARTED_BLOCKED);

    g.detect_recursive_fails(&mut store);

    assert_eq!(progress(&store, "root"), TaskProgress::Failed);
    assert_eq!(progress(&store, "low"), TaskProgress::RecursiveFailed);
    assert_eq!(progress(&store, "high"), NOT_STARTED_BLOCKED);
}

#[test]
fn good_cards_have_good_dependencies_after_pass() {
    // Recovery soundness on concrete values: wherever the pass leaves a
    // card Good, every dependency it lists is Good as well.
    let g = build(vec![
        card("a", &[]),
        card("b", &["a"]),
        card("c", &["b"]),
        card("d", &["a", "c"]),
    ]);
    let mut store = init(&g);
    mark(&mut store, "a", TaskProgress::Good);
    mark(&mut store, "b", TaskProgress::Failed);
    mark(&mut store, "c", TaskProgress::RecursiveFailed);
    mark(&mut store, "d", TaskProgress::Good);

    g.detect_recursive_fails(&mut store);

    for (name, p) in store.entries() {
        if p == TaskProgress::Good {
            for dep in g.dependencies_of(&name).expect("tracked card") {
                assert_eq!(progress(&store, &dep), TaskProgress::Good);
            }
        }
    }
    // And the pass did leave a mixture behind.
    assert_eq!(progress(&store, "a"), TaskProgress::Good);
    assert_eq!(progress(&store, "d"), TaskProgress::RecursiveFailed);
}
