use course_graph::graph::{Card, CourseGraph};
use course_graph::progress_store::{
    failed, PrerequisitesNotMet, ProgressStore, Quality, Repetition, TaskProgress,
    TaskProgressStore,
};

fn card(name: &str, deps: &[&str]) -> Card {
    Card {
        name: name.to_string(),
        dependencies: deps.iter().map(|d| d.to_string()).collect(),
    }
}

fn one_card_store(progress: TaskProgress) -> ProgressStore {
    let g = CourseGraph::new(String::new(), vec![card("solo", &[])]).expect("valid graph");
    let mut store = ProgressStore::new();
    g.init_store(&mut store);
    assert!(store.set_progress(&"solo".to_string(), progress));
    store
}

fn solo_progress(store: &ProgressStore) -> TaskProgress {
    store
        .progress_of(&"solo".to_string())
        .expect("card should be tracked")
}

const NOT_STARTED_OPEN: TaskProgress = TaskProgress::NotStarted {
    could_be_learned: true,
};
const NOT_STARTED_BLOCKED: TaskProgress = TaskProgress::NotStarted {
    could_be_learned: false,
};

#[test]
fn due_good_card_decays_to_failed() {
    // The memory model reports the card due: a mastered card goes stale.
    let mut store = one_card_store(TaskProgress::Good);
    store.synchronize(&vec![true]);
    assert_eq!(solo_progress(&store), TaskProgress::Failed);
}

#[test]
fn due_recursive_failed_card_decays_to_failed() {
    let mut store = one_card_store(TaskProgress::RecursiveFailed);
    store.synchronize(&vec![true]);
    assert_eq!(solo_progress(&store), TaskProgress::Failed);
}

#[test]
fn fresh_cards_stay_put_when_not_due() {
    let mut store = one_card_store(TaskProgress::Good);
    store.synchronize(&vec![false]);
    assert_eq!(solo_progress(&store), TaskProgress::Good);

    let mut store = one_card_store(TaskProgress::RecursiveFailed);
    store.synchronize(&vec![false]);
    assert_eq!(solo_progress(&store), TaskProgress::RecursiveFailed);
}

#[test]
fn clean_history_admits_failed_card_back_to_good() {
    // Not due and no negative outcome on record: Failed becomes Good.
    let mut store = one_card_store(TaskProgress::Failed);
    store.synchronize(&vec![false]);
    assert_eq!(solo_progress(&store), TaskProgress::Good);
}

#[test]
fn negative_history_keeps_failed_card_failed() {
    let mut store = one_card_store(TaskProgress::Failed);
    store
        .apply_repetition(&"solo".to_string(), Quality::Again, 100)
        .expect("failed card may be repeated");
    store.synchronize(&vec![false]);
    assert_eq!(solo_progress(&store), TaskProgress::Failed);
}

#[test]
fn clean_unattempted_card_ripens_to_good() {
    let mut store = one_card_store(NOT_STARTED_OPEN);
    store.synchronize(&vec![false]);
    assert_eq!(solo_progress(&store), TaskProgress::Good);
}

#[test]
fn due_unattempted_card_stays_unattempted() {
    let mut store = one_card_store(NOT_STARTED_OPEN);
    store.synchronize(&vec![true]);
    assert_eq!(solo_progress(&store), NOT_STARTED_OPEN);

    let mut store = one_card_store(NOT_STARTED_BLOCKED);
    store.synchronize(&vec![true]);
    assert_eq!(solo_progress(&store), NOT_STARTED_BLOCKED);
}

#[test]
fn blocked_card_rejects_repetition_and_keeps_history() {
    let mut store = one_card_store(NOT_STARTED_BLOCKED);
    assert_eq!(
        store.apply_repetition(&"solo".to_string(), Quality::Good, 42),
        Err(PrerequisitesNotMet)
    );
    let history = store.history_of(&"solo".to_string()).expect("tracked");
    assert!(history.is_empty());
    assert_eq!(solo_progress(&store), NOT_STARTED_BLOCKED);
}

#[test]
fn repetitions_append_to_history_in_order() {
    let mut store = one_card_store(NOT_STARTED_OPEN);
    store
        .apply_repetition(&"solo".to_string(), Quality::Again, 10)
        .expect("open card may be repeated");
    store
        .apply_repetition(&"solo".to_string(), Quality::Good, 20)
        .expect("open card may be repeated");
    let history = store.history_of(&"solo".to_string()).expect("tracked");
    assert_eq!(
        history,
        &vec![
            Repetition {
                quality: Quality::Again,
                time_unix: 10
            },
            Repetition {
                quality: Quality::Good,
                time_unix: 20
            },
        ]
    );
    // Recording alone never moves the lifecycle state.
    assert_eq!(solo_progress(&store), NOT_STARTED_OPEN);
}

#[test]
fn failed_predicate_reads_last_outcome() {
    assert!(!failed(&vec![]));
    assert!(failed(&vec![Repetition {
        quality: Quality::Again,
        time_unix: 1
    }]));
    assert!(!failed(&vec![
        Repetition {
            quality: Quality::Again,
            time_unix: 1
        },
        Repetition {
            quality: Quality::Good,
            time_unix: 2
        },
    ]));
}

#[test]
fn init_store_opens_every_card_once() {
    let g = CourseGraph::new(
        String::new(),
        vec![card("x", &[]), card("y", &["x"]), card("z", &["y"])],
    )
    .expect("valid graph");
    let mut store = ProgressStore::new();
    g.init_store(&mut store);
    assert_eq!(store.len(), 3);
    let entries = store.entries();
    assert_eq!(entries.len(), 3);
    for (name, progress) in entries {
        assert!(store.contains(&name));
        assert_eq!(progress, NOT_STARTED_OPEN);
    }
    assert!(store.history_of(&"z".to_string()).expect("tracked").is_empty());
}

#[test]
fn set_progress_rejects_unknown_names() {
    let mut store = one_card_store(TaskProgress::Good);
    assert!(!store.set_progress(&"missing".to_string(), TaskProgress::Failed));
    assert_eq!(store.progress_of(&"missing".to_string()), None);
    assert_eq!(store.history_of(&"missing".to_string()), None);
    assert_eq!(solo_progress(&store), TaskProgress::Good);
}

#[test]
fn trait_updates_apply_the_propagation_rules() {
    let mut store = one_card_store(TaskProgress::Good);
    TaskProgressStore::update_recursive_failed(&mut store, &"solo".to_string());
    assert_eq!(solo_progress(&store), TaskProgress::RecursiveFailed);
    TaskProgressStore::update_no_recursive_failed(&mut store, &"solo".to_string());
    assert_eq!(solo_progress(&store), TaskProgress::Good);

    let mut store = one_card_store(NOT_STARTED_OPEN);
    TaskProgressStore::update_recursive_failed(&mut store, &"solo".to_string());
    assert_eq!(solo_progress(&store), NOT_STARTED_BLOCKED);
    TaskProgressStore::update_no_recursive_failed(&mut store, &"solo".to_string());
    assert_eq!(solo_progress(&store), NOT_STARTED_OPEN);
}

#[test]
fn trait_init_is_idempotent_per_name() {
    let mut store = ProgressStore::new();
    TaskProgressStore::init(&mut store, &"only".to_string());
    assert_eq!(store.len(), 1);
    assert!(store.set_progress(&"only".to_string(), TaskProgress::Good));
    // A second init of the same name changes nothing.
    TaskProgressStore::init(&mut store, &"only".to_string());
    assert_eq!(store.len(), 1);
    assert_eq!(
        store.progress_of(&"only".to_string()),
        Some(TaskProgress::Good)
    );
    assert!(TaskProgressStore::contains(&store, &"only".to_string()));
    assert!(!TaskProgressStore::contains(&store, &"other".to_string()));
}

#[test]
fn progress_names_parse_case_insensitively() {
    assert_eq!(TaskProgress::from_str("good"), Ok(TaskProgress::Good));
    assert_eq!(TaskProgress::from_str("GOOD"), Ok(TaskProgress::Good));
    assert_eq!(TaskProgress::from_str("Failed"), Ok(TaskProgress::Failed));
    assert_eq!(
        TaskProgress::from_str("not_started"),
        Ok(TaskProgress::NotStarted {
            could_be_learned: true
        })
    );
    assert_eq!(
        TaskProgress::from_str("NoT_StArTeD"),
        Ok(TaskProgress::NotStarted {
            could_be_learned: true
        })
    );
    assert!(TaskProgress::from_str("recursive_failed").is_err());
    assert!(TaskProgress::from_str("").is_err());
    assert!(TaskProgress::from_str("good ").is_err());
}

#[test]
fn default_progress_is_blocked_not_started() {
    assert_eq!(TaskProgress::default(), NOT_STARTED_BLOCKED);
}
