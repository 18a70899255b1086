//! Per-learner progress state: the card lifecycle value, the per-card
//! review history, and the store that maps card names to both.
//!
//! The store holds one entry per card of the course graph it was initialized
//! from, in the same order as the graph's card table. The time-decay pass
//! ([`ProgressStore::synchronize`]) and the repetition recorder
//! ([`ProgressStore::apply_repetition`]) live here; the graph-driven
//! propagation pass lives with the graph itself.

use vstd::pervasive::VecAdditionalExecFns;
use vstd::prelude::*;
use vstd::string::StrSliceExecFns;

verus! {

/// Lifecycle state of one card for one learner.
#[derive(Clone, Copy, Debug, PartialEq, Eq, Structural)]
pub enum TaskProgress {
    /// Never attempted; `could_be_learned` tracks whether all prerequisite
    /// cards are currently mastered.
    NotStarted { could_be_learned: bool },
    /// Currently considered mastered and not locally decayed.
    Good,
    /// Most recent outcome was a failure, or decay fired; eligible for
    /// repetition.
    Failed,
    /// Was `Good`, but some upstream prerequisite is currently not mastered;
    /// distinct from `Failed` because the card itself was never answered
    /// incorrectly.
    RecursiveFailed,
}

impl Default for TaskProgress {
    /// A card that was never attempted and whose prerequisites are not known
    /// to be mastered.
    fn default() -> (r: Self)
        ensures
            r == (TaskProgress::NotStarted { could_be_learned: false }),
    {
        TaskProgress::NotStarted { could_be_learned: false }
    }
}

/// `a` reads as the lowercase character `b`: either equal, or `a` is the
/// ASCII uppercase form of `b`.
pub open spec fn char_matches_lower(a: char, b: char) -> bool {
    a == b || ('A' as u32 <= a as u32 && a as u32 <= 'Z' as u32 && a as u32 + ('a' as u32 - 'A'
        as u32) == b as u32)
}

/// `s` spells `t` up to ASCII case, `t` being the lowercase reference.
pub open spec fn matches_lower(s: Seq<char>, t: Seq<char>) -> bool {
    s.len() == t.len() && forall|i: int|
        0 <= i < s.len() ==> char_matches_lower(s[i], #[trigger] t[i])
}

/// Whether `s` spells the lowercase reference `t` up to ASCII case.
fn eq_ignore_ascii_lower(s: &str, t: &str) -> (r: bool)
    ensures
        r == matches_lower(s@, t@),
{
    let sl = s.unicode_len();
    let tl = t.unicode_len();
    if sl != tl {
        return false;
    }
    let mut i: usize = 0;
    while i < sl
        invariant
            sl == s@.len(),
            tl == t@.len(),
            sl == tl,
            i <= sl,
            forall|j: int| 0 <= j < i ==> char_matches_lower(s@[j], #[trigger] t@[j]),
        decreases sl - i,
    {
        let a = s.get_char(i) as u32;
        let b = t.get_char(i) as u32;
        let gap = 'a' as u32 - 'A' as u32;
        if !(a == b || ('A' as u32 <= a && a <= 'Z' as u32 && a + gap == b)) {
            proof {
                assert(!char_matches_lower(s@[i as int], t@[i as int]));
            }
            return false;
        }
        i = i + 1;
    }
    true
}

impl TaskProgress {
    /// Parse a progress name, ASCII case-insensitively: `good`, `failed` or
    /// `not_started` (never attempted, prerequisites mastered). Anything
    /// else is rejected with a usage message.
    pub fn from_str(s: &str) -> (r: Result<TaskProgress, String>)
        ensures
            matches_lower(s@, "good"@) ==> r == Ok::<TaskProgress, String>(TaskProgress::Good),
            !matches_lower(s@, "good"@) && matches_lower(s@, "failed"@) ==> r == Ok::<
                TaskProgress,
                String,
            >(TaskProgress::Failed),
            !matches_lower(s@, "good"@) && !matches_lower(s@, "failed"@) && matches_lower(
                s@,
                "not_started"@,
            ) ==> r == Ok::<TaskProgress, String>(
                TaskProgress::NotStarted { could_be_learned: true },
            ),
            r is Err <==> !matches_lower(s@, "good"@) && !matches_lower(s@, "failed"@)
                && !matches_lower(s@, "not_started"@),
    {
        if eq_ignore_ascii_lower(s, "good") {
            Ok(TaskProgress::Good)
        } else if eq_ignore_ascii_lower(s, "failed") {
            Ok(TaskProgress::Failed)
        } else if eq_ignore_ascii_lower(s, "not_started") {
            Ok(TaskProgress::NotStarted { could_be_learned: true })
        } else {
            Err("possible variants: 'good', 'failed', 'not_started'".to_owned())
        }
    }
}

/// Outcome of one recorded repetition of a card.
#[derive(Clone, Copy, Debug, PartialEq, Eq, Structural)]
pub enum Quality {
    /// The learner answered correctly.
    Good,
    /// The learner answered incorrectly or gave up.
    Again,
}

/// One entry of a card's review history: an outcome and when it happened,
/// as seconds of Unix time.
#[derive(Clone, Copy, Debug, PartialEq, Eq, Structural)]
pub struct Repetition {
    pub quality: Quality,
    pub time_unix: i64,
}

/// The memory model's `failed` predicate over a review history: the most
/// recently recorded outcome was negative. An empty history has no negative
/// outcome.
pub open spec fn spec_failed(history: Seq<Repetition>) -> bool {
    history.len() > 0 && history.last().quality == Quality::Again
}

/// Whether the most recently recorded outcome of `history` was negative.
pub fn failed(history: &Vec<Repetition>) -> (r: bool)
    ensures
        r == spec_failed(history@),
{
    if history.len() == 0 {
        false
    } else {
        let last = history[history.len() - 1];
        match last.quality {
            Quality::Again => true,
            Quality::Good => false,
        }
    }
}

/// The local time-decay rule for a single card.
///
/// `due` is the memory model's verdict that the card's next repetition lies
/// in the past; `failed` is its verdict that the last recorded outcome was
/// negative.
pub open spec fn sync_step(p: TaskProgress, due: bool, failed: bool) -> TaskProgress {
    match p {
        TaskProgress::Good | TaskProgress::RecursiveFailed => if due {
            TaskProgress::Failed
        } else {
            p
        },
        TaskProgress::Failed => if !due && !failed {
            TaskProgress::Good
        } else {
            p
        },
        TaskProgress::NotStarted { could_be_learned } => if could_be_learned && !due && !failed {
            TaskProgress::Good
        } else {
            p
        },
    }
}

/// Refusal to record a repetition for a card whose prerequisites are not
/// currently mastered.
#[derive(Clone, Copy, Debug, PartialEq, Eq, Structural)]
pub struct PrerequisitesNotMet;

/// Per-learner mapping from card name to lifecycle state and review history.
///
/// The three columns are parallel: entry `i` of each belongs to the card
/// named `names[i]`.
pub struct ProgressStore {
    pub(crate) names: Vec<String>,
    pub(crate) progress: Vec<TaskProgress>,
    pub(crate) memory: Vec<Vec<Repetition>>,
}

impl ProgressStore {
    /// Number of cards tracked.
    pub open(crate) spec fn spec_len(self) -> int {
        self.names@.len() as int
    }

    /// The card names, as sequences of characters, in table order.
    pub open(crate) spec fn names_view(self) -> Seq<Seq<char>> {
        Seq::new(self.names@.len(), |i: int| self.names@[i]@)
    }

    /// The lifecycle states, in table order.
    pub open(crate) spec fn progress_view(self) -> Seq<TaskProgress> {
        self.progress@
    }

    /// The review histories, in table order.
    pub open(crate) spec fn memory_view(self) -> Seq<Seq<Repetition>> {
        Seq::new(self.memory@.len(), |i: int| self.memory@[i]@)
    }

    /// The columns are parallel and no card name repeats.
    pub open(crate) spec fn wf(self) -> bool {
        &&& self.progress@.len() == self.names@.len()
        &&& self.memory@.len() == self.names@.len()
        &&& forall|i: int, j: int|
            0 <= i < self.spec_len() && 0 <= j < self.spec_len() && i != j
                ==> self.names_view()[i] != self.names_view()[j]
    }

    /// Whether some entry is named `n`.
    pub open(crate) spec fn contains_name(self, n: Seq<char>) -> bool {
        exists|i: int| 0 <= i < self.spec_len() && self.names_view()[i] == n
    }

    /// The position of the entry named `n` (meaningful when `contains_name`).
    pub open(crate) spec fn index_of(self, n: Seq<char>) -> int {
        choose|i: int| 0 <= i < self.spec_len() && self.names_view()[i] == n
    }

    /// An empty store, to be filled by a graph's `init_store`.
    pub fn new() -> (r: Self)
        ensures
            r.wf(),
            r.spec_len() == 0,
    {
        ProgressStore { names: Vec::new(), progress: Vec::new(), memory: Vec::new() }
    }

    /// Number of cards tracked.
    pub fn len(&self) -> (r: usize)
        ensures
            r == self.spec_len(),
    {
        self.names.len()
    }

    /// The name of the card at position `i`.
    pub fn name_at(&self, i: usize) -> (r: &String)
        requires
            i < self.spec_len(),
        ensures
            r@ == self.names_view()[i as int],
    {
        &self.names[i]
    }

    /// The lifecycle state of the card at position `i`.
    pub fn progress_at(&self, i: usize) -> (r: TaskProgress)
        requires
            self.wf(),
            i < self.spec_len(),
        ensures
            r == self.progress_view()[i as int],
    {
        self.progress[i]
    }

    /// The position of the card named `name`, if it is tracked.
    pub fn find_index(&self, name: &String) -> (r: Option<usize>)
        requires
            self.wf(),
        ensures
            match r {
                Some(i) => i < self.spec_len() && self.names_view()[i as int] == name@
                    && self.contains_name(name@) && self.index_of(name@) == i,
                None => !self.contains_name(name@),
            },
    {
        let n = self.names.len();
        let mut k: usize = 0;
        while k < n
            invariant
                self.wf(),
                n == self.spec_len(),
                k <= n,
                forall|j: int| 0 <= j < k ==> self.names_view()[j] != name@,
            decreases n - k,
        {
            if self.names[k] == *name {
                proof {
                    assert(self.names_view()[k as int] == name@);
                }
                return Some(k);
            }
            k = k + 1;
        }
        None
    }

    /// Whether a card named `name` is tracked.
    pub fn contains(&self, name: &String) -> (r: bool)
        requires
            self.wf(),
        ensures
            r == self.contains_name(name@),
    {
        self.find_index(name).is_some()
    }

    /// The lifecycle state of the card named `name`, if it is tracked.
    pub fn progress_of(&self, name: &String) -> (r: Option<TaskProgress>)
        requires
            self.wf(),
        ensures
            match r {
                Some(p) => self.contains_name(name@)
                    && p == self.progress_view()[self.index_of(name@)],
                None => !self.contains_name(name@),
            },
    {
        match self.find_index(name) {
            Some(i) => Some(self.progress[i]),
            None => None,
        }
    }

    /// The review history of the card named `name`, if it is tracked.
    pub fn history_of(&self, name: &String) -> (r: Option<&Vec<Repetition>>)
        requires
            self.wf(),
        ensures
            match r {
                Some(h) => self.contains_name(name@)
                    && h@ == self.memory_view()[self.index_of(name@)],
                None => !self.contains_name(name@),
            },
    {
        match self.find_index(name) {
            Some(i) => Some(&self.memory[i]),
            None => None,
        }
    }

    /// Overwrite the lifecycle state of the card named `name`. Returns
    /// whether the card is tracked; an untracked name changes nothing.
    ///
    /// This is the hook for the host application's persistence layer, which
    /// must be able to rebuild a store from saved state, and for marking a
    /// card after an answer was graded.
    pub fn set_progress(&mut self, name: &String, p: TaskProgress) -> (r: bool)
        requires
            old(self).wf(),
        ensures
            final(self).wf(),
            final(self).names_view() == old(self).names_view(),
            final(self).memory_view() == old(self).memory_view(),
            r == old(self).contains_name(name@),
            r ==> final(self).progress_view()
                == old(self).progress_view().update(old(self).index_of(name@), p),
            !r ==> final(self).progress_view() == old(self).progress_view(),
    {
        match self.find_index(name) {
            Some(i) => {
                self.progress.set(i, p);
                true
            },
            None => false,
        }
    }

    /// Append one entry to the store; used by a graph's `init_store`.
    pub(crate) fn push_entry(&mut self, name: String, p: TaskProgress)
        requires
            old(self).wf(),
            !old(self).contains_name(name@),
        ensures
            final(self).wf(),
            final(self).names_view() == old(self).names_view().push(name@),
            final(self).progress_view() == old(self).progress_view().push(p),
            final(self).memory_view() == old(self).memory_view().push(Seq::<Repetition>::empty()),
    {
        let ghost old_names = self.names_view();
        self.names.push(name);
        self.progress.push(p);
        self.memory.push(Vec::new());
        proof {
            assert(self.names_view() =~= old_names.push(name@));
            assert(self.memory_view() =~= old(self).memory_view().push(
                Seq::<Repetition>::empty(),
            ));
            assert forall|i: int, j: int|
                0 <= i < self.spec_len() && 0 <= j < self.spec_len() && i != j implies self
                .names_view()[i] != self.names_view()[j] by {
                if i < old_names.len() && j < old_names.len() {
                    assert(old(self).names_view()[i] != old(self).names_view()[j]);
                } else if i < old_names.len() {
                    assert(old(self).names_view()[i] != name@);
                } else if j < old_names.len() {
                    assert(old(self).names_view()[j] != name@);
                }
            }
        }
    }

    /// The `(card name, progress)` pairs, in table order, for rendering.
    pub fn entries(&self) -> (r: Vec<(String, TaskProgress)>)
        requires
            self.wf(),
        ensures
            r@.len() == self.spec_len(),
            forall|i: int| 0 <= i < r@.len()
                ==> (#[trigger] r@[i]).0@ == self.names_view()[i]
                    && r@[i].1 == self.progress_view()[i],
    {
        let n = self.names.len();
        let mut r: Vec<(String, TaskProgress)> = Vec::new();
        let mut k: usize = 0;
        while k < n
            invariant
                self.wf(),
                n == self.spec_len(),
                k <= n,
                r@.len() == k,
                forall|i: int| 0 <= i < k
                    ==> (#[trigger] r@[i]).0@ == self.names_view()[i]
                        && r@[i].1 == self.progress_view()[i],
            decreases n - k,
        {
            r.push((self.names[k].clone(), self.progress[k]));
            k = k + 1;
        }
        r
    }

    /// The time-decay pass over every card.
    ///
    /// `due[i]` is the memory model's verdict, for the card at position `i`,
    /// that its next repetition lies in the past. The memory model never
    /// reports a card with unmet prerequisites as fresh, so such a card must
    /// be due; a violation would be a contract breach by the caller. Each
    /// card is rewritten by [`sync_step`] with its `due` flag and the
    /// `failed` verdict of its own history; histories and names are
    /// untouched.
    pub fn synchronize(&mut self, due: &Vec<bool>)
        requires
            old(self).wf(),
            due@.len() == old(self).spec_len(),
            forall|i: int| 0 <= i < old(self).spec_len()
                && old(self).progress_view()[i]
                    == (TaskProgress::NotStarted { could_be_learned: false }) ==> due@[i],
        ensures
            final(self).wf(),
            final(self).names_view() == old(self).names_view(),
            final(self).memory_view() == old(self).memory_view(),
            final(self).progress_view().len() == old(self).progress_view().len(),
            forall|i: int| 0 <= i < old(self).spec_len()
                ==> final(self).progress_view()[i] == sync_step(
                    old(self).progress_view()[i],
                    due@[i],
                    spec_failed(old(self).memory_view()[i]),
                ),
    {
        let n = self.names.len();
        let mut k: usize = 0;
        while k < n
            invariant
                self.wf(),
                n == self.spec_len(),
                due@.len() == n,
                k <= n,
                self.names_view() == old(self).names_view(),
                self.memory_view() == old(self).memory_view(),
                self.progress_view().len() == old(self).progress_view().len(),
                forall|i: int| k <= i < n
                    ==> self.progress_view()[i] == old(self).progress_view()[i],
                forall|i: int| 0 <= i < k
                    ==> self.progress_view()[i] == sync_step(
                        old(self).progress_view()[i],
                        due@[i],
                        spec_failed(old(self).memory_view()[i]),
                    ),
            decreases n - k,
        {
            let was_failed = failed(&self.memory[k]);
            let is_due = due[k];
            let p = self.progress[k];
            let next = match p {
                TaskProgress::Good | TaskProgress::RecursiveFailed => if is_due {
                    TaskProgress::Failed
                } else {
                    p
                },
                TaskProgress::Failed => if !is_due && !was_failed {
                    TaskProgress::Good
                } else {
                    p
                },
                TaskProgress::NotStarted { could_be_learned } => if could_be_learned && !is_due
                    && !was_failed {
                    TaskProgress::Good
                } else {
                    p
                },
            };
            proof {
                assert(self.memory_view()[k as int] == old(self).memory_view()[k as int]);
            }
            self.progress.set(k, next);
            k = k + 1;
        }
    }

    /// Record one repetition outcome for the card named `name`.
    ///
    /// A card whose prerequisites are unmet rejects the attempt and its
    /// history stays unchanged; any other card has `(quality, now)` appended
    /// to its history. Lifecycle states are untouched either way: the caller
    /// is expected to re-run `synchronize` and `detect_recursive_fails` to
    /// obtain the new canonical state. Asking about a card that is not
    /// tracked is a caller error, excluded by precondition.
    pub fn apply_repetition(&mut self, name: &String, quality: Quality, now: i64) -> (r: Result<
        (),
        PrerequisitesNotMet,
    >)
        requires
            old(self).wf(),
            old(self).contains_name(name@),
        ensures
            final(self).wf(),
            final(self).names_view() == old(self).names_view(),
            final(self).progress_view() == old(self).progress_view(),
            r is Err <==> old(self).progress_view()[old(self).index_of(name@)]
                == (TaskProgress::NotStarted { could_be_learned: false }),
            r is Err ==> final(self).memory_view() == old(self).memory_view(),
            r is Ok ==> final(self).memory_view() == old(self).memory_view().update(
                old(self).index_of(name@),
                old(self).memory_view()[old(self).index_of(name@)].push(
                    Repetition { quality, time_unix: now },
                ),
            ),
    {
        match self.find_index(name) {
            Some(i) => {
                match self.progress[i] {
                    TaskProgress::NotStarted { could_be_learned: false } => Err(
                        PrerequisitesNotMet,
                    ),
                    _ => {
                        let appended = pushed_history(
                            &self.memory[i],
                            Repetition { quality, time_unix: now },
                        );
                        self.memory.set(i, appended);
                        proof {
                            assert(self.memory_view() =~= old(self).memory_view().update(
                                i as int,
                                old(self).memory_view()[i as int].push(
                                    Repetition { quality, time_unix: now },
                                ),
                            ));
                        }
                        Ok(())
                    },
                }
            },
            None => {
                proof {
                    assert(false);
                }
                Err(PrerequisitesNotMet)
            },
        }
    }
}

/// The mutation primitives the propagation pass's host programs against: a
/// name-keyed store of card lifecycle states. [`ProgressStore`] is the
/// crate's implementation; the update methods apply the fail-propagation
/// and recovery rules of the reconciliation pass to a single named card.
pub trait TaskProgressStore {
    /// The tracked card names, in table order.
    spec fn store_names(&self) -> Seq<Seq<char>>;

    /// The lifecycle states, in table order.
    spec fn store_progress(&self) -> Seq<TaskProgress>;

    /// Columns parallel, names unique.
    spec fn store_wf(&self) -> bool;

    /// Begin tracking `id` as not started and learnable; a name already
    /// tracked is left unchanged.
    fn init(&mut self, id: &String)
        requires
            old(self).store_wf(),
        ensures
            final(self).store_wf(),
            old(self).store_names().contains(id@) ==> final(self).store_names() == old(
                self,
            ).store_names() && final(self).store_progress() == old(self).store_progress(),
            !old(self).store_names().contains(id@) ==> final(self).store_names() == old(
                self,
            ).store_names().push(id@) && final(self).store_progress() == old(
                self,
            ).store_progress().push(TaskProgress::NotStarted { could_be_learned: true }),
    ;

    /// Whether `id` is tracked.
    fn contains(&self, id: &String) -> (r: bool)
        requires
            self.store_wf(),
        ensures
            r == self.store_names().contains(id@),
    ;

    /// Apply the fail-propagation update to the card named `id`: an
    /// unattempted card loses its `could_be_learned` flag and a mastered
    /// card becomes `RecursiveFailed`.
    fn update_recursive_failed(&mut self, id: &String)
        requires
            old(self).store_wf(),
            old(self).store_names().contains(id@),
        ensures
            final(self).store_wf(),
            final(self).store_names() == old(self).store_names(),
            exists|i: int|
                0 <= i < old(self).store_names().len() && old(self).store_names()[i] == id@
                    && final(self).store_progress() == old(self).store_progress().update(
                    i,
                    crate::propagate::demote(old(self).store_progress()[i]),
                ),
    ;

    /// Apply the recovery update to the card named `id`: an unattempted
    /// card regains its `could_be_learned` flag and a `RecursiveFailed`
    /// card returns to `Good`.
    fn update_no_recursive_failed(&mut self, id: &String)
        requires
            old(self).store_wf(),
            old(self).store_names().contains(id@),
        ensures
            final(self).store_wf(),
            final(self).store_names() == old(self).store_names(),
            exists|i: int|
                0 <= i < old(self).store_names().len() && old(self).store_names()[i] == id@
                    && final(self).store_progress() == old(self).store_progress().update(
                    i,
                    crate::propagate::promote(old(self).store_progress()[i]),
                ),
    ;
}

impl TaskProgressStore for ProgressStore {
    open spec fn store_names(&self) -> Seq<Seq<char>> {
        self.names_view()
    }

    open spec fn store_progress(&self) -> Seq<TaskProgress> {
        self.progress_view()
    }

    open spec fn store_wf(&self) -> bool {
        self.wf()
    }

    fn init(&mut self, id: &String) {
        match self.find_index(id) {
            Some(_) => {
                proof {
                    assert(self.names_view().contains(id@));
                }
            },
            None => {
                proof {
                    if self.names_view().contains(id@) {
                        let i = choose|i: int|
                            0 <= i < self.names_view().len() && self.names_view()[i] == id@;
                        assert(self.contains_name(id@));
                    }
                }
                self.push_entry(
                    id.clone(),
                    TaskProgress::NotStarted { could_be_learned: true },
                );
            },
        }
    }

    fn contains(&self, id: &String) -> (r: bool) {
        let r = ProgressStore::contains(self, id);
        proof {
            if self.contains_name(id@) {
                let i = choose|i: int|
                    0 <= i < self.spec_len() && self.names_view()[i] == id@;
                assert(self.names_view().contains(id@));
            }
            if self.names_view().contains(id@) {
                let i = choose|i: int|
                    0 <= i < self.names_view().len() && self.names_view()[i] == id@;
                assert(self.contains_name(id@));
            }
        }
        r
    }

    fn update_recursive_failed(&mut self, id: &String) {
        proof {
            let i = choose|i: int|
                0 <= i < old(self).names_view().len() && old(self).names_view()[i] == id@;
            assert(old(self).contains_name(id@));
        }
        match self.find_index(id) {
            Some(i) => {
                let p = self.progress[i];
                let next = match p {
                    TaskProgress::NotStarted { .. } => TaskProgress::NotStarted {
                        could_be_learned: false,
                    },
                    TaskProgress::Good => TaskProgress::RecursiveFailed,
                    _ => p,
                };
                self.progress.set(i, next);
                proof {
                    assert(self.progress_view() == old(self).progress_view().update(
                        i as int,
                        crate::propagate::demote(old(self).progress_view()[i as int]),
                    ));
                }
            },
            None => {
                proof {
                    assert(false);
                }
            },
        }
    }

    fn update_no_recursive_failed(&mut self, id: &String) {
        proof {
            let i = choose|i: int|
                0 <= i < old(self).names_view().len() && old(self).names_view()[i] == id@;
            assert(old(self).contains_name(id@));
        }
        match self.find_index(id) {
            Some(i) => {
                let p = self.progress[i];
                let next = match p {
                    TaskProgress::NotStarted { .. } => TaskProgress::NotStarted {
                        could_be_learned: true,
                    },
                    TaskProgress::RecursiveFailed => TaskProgress::Good,
                    _ => p,
                };
                self.progress.set(i, next);
                proof {
                    assert(self.progress_view() == old(self).progress_view().update(
                        i as int,
                        crate::propagate::promote(old(self).progress_view()[i as int]),
                    ));
                }
            },
            None => {
                proof {
                    assert(false);
                }
            },
        }
    }
}

/// A copy of `history` with `rep` appended.
fn pushed_history(history: &Vec<Repetition>, rep: Repetition) -> (r: Vec<Repetition>)
    ensures
        r@ == history@.push(rep),
{
    let n = history.len();
    let mut r: Vec<Repetition> = Vec::new();
    let mut k: usize = 0;
    while k < n
        invariant
            n == history@.len(),
            k <= n,
            r@ == history@.subrange(0, k as int),
        decreases n - k,
    {
        r.push(history[k]);
        proof {
            assert(r@ =~= history@.subrange(0, k as int + 1));
        }
        k = k + 1;
    }
    r.push(rep);
    proof {
        assert(r@ =~= history@.push(rep));
    }
    r
}

} // verus!
