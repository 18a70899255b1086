//! The validated course dependency graph.
//!
//! A `CourseGraph` is an immutable DAG of named cards, stored as one table:
//! card `i` has a name, a list of dependency positions (cards that must be
//! mastered first) and the derived inverse list of dependent positions. A
//! topological rank per card witnesses acyclicity. Construction validates a
//! plain `(name, dependency names)` list and rejects duplicate names,
//! unresolved references, duplicate dependencies and cycles.

use vstd::prelude::*;

use crate::progress_store::{ProgressStore, TaskProgress};

verus! {

/// One card of the input: a name and the names of the cards that must be
/// mastered first.
pub struct Card {
    pub name: String,
    pub dependencies: Vec<String>,
}

/// Adjacency of one card, by card table position.
pub struct CardNode {
    /// Positions of the cards that must be mastered before this one.
    pub dependencies: Vec<usize>,
    /// Positions of the cards that list this one as a dependency.
    pub dependents: Vec<usize>,
}

/// Rejection of an input graph, or of a query for a name the graph lacks.
#[derive(Clone, Copy, Debug, PartialEq, Eq, Structural)]
pub enum GraphError {
    /// A queried card name is not in the graph.
    UnknownCard,
    /// Two input cards carry the same name.
    DuplicateCardName,
    /// An input card names a dependency that no card defines.
    UnknownDependency,
    /// An input card names the same dependency twice.
    DuplicateDependency,
    /// The input dependency relation has a cycle.
    Cycle,
}

/// The card names of an input, in input order.
pub open spec fn input_names(cards: Seq<Card>) -> Seq<Seq<char>> {
    Seq::new(cards.len(), |i: int| cards[i].name@)
}

/// No two input cards carry the same name.
pub open spec fn input_names_distinct(cards: Seq<Card>) -> bool {
    forall|i: int, j: int|
        0 <= i < cards.len() && 0 <= j < cards.len() && i != j
            ==> input_names(cards)[i] != input_names(cards)[j]
}

/// Every dependency name of every input card is the name of some input card.
pub open spec fn input_deps_known(cards: Seq<Card>) -> bool {
    forall|i: int, k: int|
        0 <= i < cards.len() && 0 <= k < cards[i].dependencies@.len()
            ==> input_names(cards).contains(#[trigger] cards[i].dependencies@[k]@)
}

/// No input card names the same dependency twice.
pub open spec fn input_deps_distinct(cards: Seq<Card>) -> bool {
    forall|i: int, k1: int, k2: int|
        0 <= i < cards.len() && 0 <= k1 < cards[i].dependencies@.len() && 0 <= k2
            < cards[i].dependencies@.len() && k1 != k2
            ==> (#[trigger] cards[i].dependencies@[k1]@) != (#[trigger] cards[i].dependencies@[k2]@)
}

/// Card `b` of the input lists the name of card `a` as a dependency.
pub open spec fn input_edge(cards: Seq<Card>, a: int, b: int) -> bool {
    &&& 0 <= a < cards.len()
    &&& 0 <= b < cards.len()
    &&& exists|k: int|
        0 <= k < cards[b].dependencies@.len() && (#[trigger] cards[b].dependencies@[k]@)
            == cards[a].name@
}

/// The input dependency relation admits a topological rank: dependencies
/// always rank strictly below their dependents.
pub open spec fn input_acyclic(cards: Seq<Card>) -> bool {
    exists|r: Seq<nat>|
        (#[trigger] r.len()) == cards.len() && (forall|a: int, b: int|
            #[trigger] input_edge(cards, a, b) ==> r[a] < r[b])
}

/// Static, immutable DAG of named cards with forward (dependency) and
/// backward (dependent) adjacency, shared by reference across learners.
pub struct CourseGraph {
    pub(crate) text: String,
    pub(crate) names: Vec<String>,
    pub(crate) deps: Vec<Vec<usize>>,
    pub(crate) dnts: Vec<Vec<usize>>,
    pub(crate) rank: Vec<usize>,
}

impl CourseGraph {
    /// Number of cards.
    pub open(crate) spec fn n(self) -> int {
        self.names@.len() as int
    }

    /// The DSL source text, as a sequence of characters.
    pub open(crate) spec fn source_view(self) -> Seq<char> {
        self.text@
    }

    /// The card names, as sequences of characters, in table order.
    pub open(crate) spec fn names_view(self) -> Seq<Seq<char>> {
        Seq::new(self.names@.len(), |i: int| self.names@[i]@)
    }

    /// Dependency positions of card `c`.
    pub open(crate) spec fn deps_of(self, c: int) -> Seq<usize> {
        self.deps@[c]@
    }

    /// Dependent positions of card `c`.
    pub open(crate) spec fn dnts_of(self, c: int) -> Seq<usize> {
        self.dnts@[c]@
    }

    /// Card `b` depends on card `a`.
    pub open(crate) spec fn edge(self, a: int, b: int) -> bool {
        &&& 0 <= a < self.n()
        &&& 0 <= b < self.n()
        &&& self.has_dep(b, a)
    }

    /// Card `b`'s dependency list holds position `a`.
    pub open(crate) spec fn has_dep(self, b: int, a: int) -> bool {
        exists|k: int| 0 <= k < self.deps_of(b).len() && (#[trigger] self.deps_of(b)[k]) == a
    }

    /// Card `a`'s dependent list holds position `b`.
    pub open(crate) spec fn has_dnt(self, a: int, b: int) -> bool {
        exists|k: int| 0 <= k < self.dnts_of(a).len() && (#[trigger] self.dnts_of(a)[k]) == b
    }

    /// Topological rank of card `c`.
    pub open(crate) spec fn rank_of(self, c: int) -> int {
        self.rank@[c] as int
    }

    /// The table is coherent: columns are parallel, positions are in range,
    /// the dependent lists are exactly the inverse of the dependency lists,
    /// the rank strictly increases along every edge, and names are unique.
    pub open(crate) spec fn wf(self) -> bool {
        &&& self.deps@.len() == self.names@.len()
        &&& self.dnts@.len() == self.names@.len()
        &&& self.rank@.len() == self.names@.len()
        &&& forall|c: int, k: int|
            0 <= c < self.n() && 0 <= k < self.deps_of(c).len()
                ==> (#[trigger] self.deps_of(c)[k]) < self.n()
        &&& forall|c: int, k: int|
            0 <= c < self.n() && 0 <= k < self.dnts_of(c).len()
                ==> (#[trigger] self.dnts_of(c)[k]) < self.n()
        &&& forall|a: int, b: int|
            0 <= a < self.n() && 0 <= b < self.n()
                ==> ((#[trigger] self.has_dep(b, a)) <==> (#[trigger] self.has_dnt(a, b)))
        &&& forall|c: int| 0 <= c < self.n() ==> 0 <= #[trigger] self.rank_of(c) < self.n()
        &&& forall|c: int, k: int|
            0 <= c < self.n() && 0 <= k < self.deps_of(c).len()
                ==> self.rank_of((#[trigger] self.deps_of(c)[k]) as int) < self.rank_of(c)
        &&& forall|i: int, j: int|
            0 <= i < self.n() && 0 <= j < self.n() && i != j
                ==> self.names_view()[i] != self.names_view()[j]
    }

    /// Whether some card is named `n`.
    pub open(crate) spec fn contains_name(self, n: Seq<char>) -> bool {
        exists|i: int| 0 <= i < self.n() && self.names_view()[i] == n
    }

    /// The position of the card named `n` (meaningful when `contains_name`).
    pub open(crate) spec fn index_of(self, n: Seq<char>) -> int {
        choose|i: int| 0 <= i < self.n() && self.names_view()[i] == n
    }

    /// An edge raises the rank: the witness behind every recursion into
    /// dependents.
    pub(crate) proof fn lemma_edge_rank(self, a: int, b: int)
        requires
            self.wf(),
            self.edge(a, b),
        ensures
            self.rank_of(a) < self.rank_of(b),
    {
        let k = choose|k: int|
            0 <= k < self.deps_of(b).len() && (#[trigger] self.deps_of(b)[k]) == a;
        assert(self.rank_of(self.deps_of(b)[k] as int) < self.rank_of(b));
    }

    /// Number of cards.
    pub fn len(&self) -> (r: usize)
        ensures
            r == self.n(),
    {
        self.names.len()
    }

    /// The DSL source text the graph was built from.
    pub fn get_source(&self) -> (r: &str)
        ensures
            r@ == self.source_view(),
    {
        self.text.as_str()
    }

    /// The card names, in table order.
    pub fn card_names(&self) -> (r: &Vec<String>)
        ensures
            r@.len() == self.n(),
            forall|i: int| 0 <= i < self.n() ==> (#[trigger] r@[i])@ == self.names_view()[i],
    {
        &self.names
    }

    /// The position of the card named `name`, if the graph has it.
    pub fn find_index(&self, name: &String) -> (r: Option<usize>)
        requires
            self.wf(),
        ensures
            match r {
                Some(i) => i < self.n() && self.names_view()[i as int] == name@
                    && self.contains_name(name@) && self.index_of(name@) == i,
                None => !self.contains_name(name@),
            },
    {
        let n = self.names.len();
        let mut k: usize = 0;
        while k < n
            invariant
                self.wf(),
                n == self.n(),
                k <= n,
                forall|j: int| 0 <= j < k ==> self.names_view()[j] != name@,
            decreases n - k,
        {
            if self.names[k] == *name {
                proof {
                    assert(self.names_view()[k as int] == name@);
                }
                return Some(k);
            }
            k = k + 1;
        }
        None
    }

    /// The adjacency of every card, by table position.
    pub fn cards(&self) -> (r: Vec<CardNode>)
        requires
            self.wf(),
        ensures
            r@.len() == self.n(),
            forall|i: int|
                0 <= i < self.n() ==> (#[trigger] r@[i]).dependencies@ == self.deps_of(i)
                    && r@[i].dependents@ == self.dnts_of(i),
    {
        let n = self.names.len();
        let mut r: Vec<CardNode> = Vec::new();
        let mut k: usize = 0;
        while k < n
            invariant
                self.wf(),
                n == self.n(),
                k <= n,
                r@.len() == k,
                forall|i: int|
                    0 <= i < k ==> (#[trigger] r@[i]).dependencies@ == self.deps_of(i)
                        && r@[i].dependents@ == self.dnts_of(i),
            decreases n - k,
        {
            let node = CardNode {
                dependencies: copied_positions(&self.deps[k]),
                dependents: copied_positions(&self.dnts[k]),
            };
            r.push(node);
            k = k + 1;
        }
        r
    }

    /// The names of the cards that must be mastered before `name`, or
    /// `UnknownCard` if the graph has no card of that name.
    pub fn dependencies_of(&self, name: &String) -> (r: Result<Vec<String>, GraphError>)
        requires
            self.wf(),
        ensures
            r is Ok <==> self.contains_name(name@),
            r matches Err(e) ==> e == GraphError::UnknownCard,
            r matches Ok(v) ==> {
                let c = self.index_of(name@);
                v@.len() == self.deps_of(c).len() && (forall|k: int|
                    0 <= k < v@.len()
                        ==> (#[trigger] v@[k])@ == self.names_view()[self.deps_of(c)[k] as int])
            },
    {
        match self.find_index(name) {
            Some(i) => {
                proof {
                    assert(forall|k: int|
                        0 <= k < self.deps_of(i as int).len()
                            ==> (#[trigger] self.deps_of(i as int)[k]) < self.n());
                }
                Ok(self.position_names(&self.deps[i]))
            },
            None => Err(GraphError::UnknownCard),
        }
    }

    /// The names of the cards that list `name` as a dependency, or
    /// `UnknownCard` if the graph has no card of that name.
    pub fn dependents_of(&self, name: &String) -> (r: Result<Vec<String>, GraphError>)
        requires
            self.wf(),
        ensures
            r is Ok <==> self.contains_name(name@),
            r matches Err(e) ==> e == GraphError::UnknownCard,
            r matches Ok(v) ==> {
                let c = self.index_of(name@);
                v@.len() == self.dnts_of(c).len() && (forall|k: int|
                    0 <= k < v@.len()
                        ==> (#[trigger] v@[k])@ == self.names_view()[self.dnts_of(c)[k] as int])
            },
    {
        match self.find_index(name) {
            Some(i) => {
                proof {
                    assert(forall|k: int|
                        0 <= k < self.dnts_of(i as int).len()
                            ==> (#[trigger] self.dnts_of(i as int)[k]) < self.n());
                }
                Ok(self.position_names(&self.dnts[i]))
            },
            None => Err(GraphError::UnknownCard),
        }
    }

    /// The names at the given table positions.
    fn position_names(&self, positions: &Vec<usize>) -> (r: Vec<String>)
        requires
            self.wf(),
            forall|k: int| 0 <= k < positions@.len() ==> (#[trigger] positions@[k]) < self.n(),
        ensures
            r@.len() == positions@.len(),
            forall|k: int|
                0 <= k < r@.len()
                    ==> (#[trigger] r@[k])@ == self.names_view()[positions@[k] as int],
    {
        let m = positions.len();
        let mut r: Vec<String> = Vec::new();
        let mut k: usize = 0;
        while k < m
            invariant
                self.wf(),
                m == positions@.len(),
                k <= m,
                forall|j: int| 0 <= j < m ==> (#[trigger] positions@[j]) < self.n(),
                r@.len() == k,
                forall|j: int|
                    0 <= j < k ==> (#[trigger] r@[j])@ == self.names_view()[positions@[j] as int],
            decreases m - k,
        {
            let p = positions[k];
            r.push(self.names[p].clone());
            k = k + 1;
        }
        r
    }

    /// Fill an empty store with one `NotStarted { could_be_learned: true }`
    /// entry per card, in table order; learner enrollment starts here.
    pub fn init_store(&self, store: &mut ProgressStore)
        requires
            self.wf(),
            old(store).wf(),
            old(store).spec_len() == 0,
        ensures
            final(store).wf(),
            final(store).names_view() == self.names_view(),
            final(store).progress_view() == Seq::new(
                self.n() as nat,
                |i: int| TaskProgress::NotStarted { could_be_learned: true },
            ),
            final(store).memory_view() == Seq::new(
                self.n() as nat,
                |i: int| Seq::<crate::progress_store::Repetition>::empty(),
            ),
    {
        let n = self.names.len();
        let mut k: usize = 0;
        while k < n
            invariant
                self.wf(),
                n == self.n(),
                k <= n,
                store.wf(),
                store.names_view() =~= self.names_view().subrange(0, k as int),
                store.progress_view() =~= Seq::new(
                    k as nat,
                    |i: int| TaskProgress::NotStarted { could_be_learned: true },
                ),
                store.memory_view() =~= Seq::new(
                    k as nat,
                    |i: int| Seq::<crate::progress_store::Repetition>::empty(),
                ),
            decreases n - k,
        {
            proof {
                if store.contains_name(self.names_view()[k as int]) {
                    let j = choose|j: int|
                        0 <= j < store.spec_len() && store.names_view()[j]
                            == self.names_view()[k as int];
                    assert(self.names_view()[j] == self.names_view()[k as int]);
                    assert(false);
                }
            }
            store.push_entry(
                self.names[k].clone(),
                TaskProgress::NotStarted { could_be_learned: true },
            );
            k = k + 1;
        }
        proof {
            assert(store.names_view() =~= self.names_view());
            assert(store.progress_view() =~= Seq::new(
                self.n() as nat,
                |i: int| TaskProgress::NotStarted { could_be_learned: true },
            ));
            assert(store.memory_view() =~= Seq::new(
                self.n() as nat,
                |i: int| Seq::<crate::progress_store::Repetition>::empty(),
            ));
        }
    }
}

/// The name column matches the input cards, position by position.
spec fn names_match(cards: Seq<Card>, names: Seq<String>) -> bool {
    &&& names.len() == cards.len()
    &&& forall|j: int| 0 <= j < names.len() ==> (#[trigger] names[j])@ == cards[j].name@
}

/// The name column is pairwise distinct.
spec fn names_distinct(names: Seq<String>) -> bool {
    forall|i: int, j: int|
        0 <= i < names.len() && 0 <= j < names.len() && i != j
            ==> (#[trigger] names[i])@ != (#[trigger] names[j])@
}

/// The dependency rows are resolved against the name column: each entry is
/// the table position of the card whose name the input names at the same
/// place.
spec fn resolved_deps(cards: Seq<Card>, names: Seq<String>, ds: Seq<Vec<usize>>) -> bool {
    &&& ds.len() == cards.len()
    &&& forall|i: int| 0 <= i < ds.len() ==> (#[trigger] ds[i])@.len() == cards[i].dependencies@.len()
    &&& forall|i: int, k: int|
        0 <= i < ds.len() && 0 <= k < ds[i]@.len() ==> (#[trigger] ds[i]@[k]) < names.len()
    &&& forall|i: int, k: int|
        0 <= i < ds.len() && 0 <= k < ds[i]@.len()
            ==> names[(#[trigger] ds[i]@[k]) as int]@ == cards[i].dependencies@[k]@
}

/// Every entry of every row lies below `n`.
spec fn rows_in_range(ds: Seq<Vec<usize>>, n: int) -> bool {
    forall|i: int, k: int|
        0 <= i < ds.len() && 0 <= k < ds[i]@.len() ==> (#[trigger] ds[i]@[k]) < n
}

/// Row `b` holds position `a`.
spec fn idx_edge(ds: Seq<Vec<usize>>, a: int, b: int) -> bool {
    &&& 0 <= b < ds.len()
    &&& exists|k: int| 0 <= k < ds[b]@.len() && (#[trigger] ds[b]@[k]) == a
}

/// The position-level dependency relation admits a topological rank.
spec fn idx_acyclic(ds: Seq<Vec<usize>>) -> bool {
    exists|r: Seq<nat>|
        (#[trigger] r.len()) == ds.len() && (forall|a: int, b: int|
            #[trigger] idx_edge(ds, a, b) ==> r[a] < r[b])
}

/// The set of positions marked true.
spec fn assigned_set(s: Seq<bool>) -> Set<int> {
    Set::new(|j: int| 0 <= j < s.len() && s[j])
}

/// Under a topological rank, a blocked set — one where every member has a
/// dependency inside the set — has no members at all: following such
/// dependencies would descend ranks forever.
proof fn lemma_blocked_set_empty(ds: Seq<Vec<usize>>, r: Seq<nat>, blocked: Set<int>, u: int)
    requires
        forall|v: int|
            #[trigger] blocked.contains(v) ==> 0 <= v < ds.len() && exists|w: int|
                #[trigger] blocked.contains(w) && idx_edge(ds, w, v),
        r.len() == ds.len(),
        forall|a: int, b: int| #[trigger] idx_edge(ds, a, b) ==> r[a] < r[b],
    ensures
        !blocked.contains(u),
    decreases r[u],
{
    if blocked.contains(u) {
        let w = choose|w: int| #[trigger] blocked.contains(w) && idx_edge(ds, w, u);
        assert(r[w] < r[u]);
        lemma_blocked_set_empty(ds, r, blocked, w);
    }
}

/// Whether every position of `row` is marked in `marked`.
fn all_marked(row: &Vec<usize>, marked: &Vec<bool>) -> (r: bool)
    requires
        forall|k: int| 0 <= k < row@.len() ==> (#[trigger] row@[k]) < marked@.len(),
    ensures
        r == (forall|k: int| 0 <= k < row@.len() ==> marked@[(#[trigger] row@[k]) as int]),
{
    let m = row.len();
    let mut k: usize = 0;
    while k < m
        invariant
            m == row@.len(),
            k <= m,
            forall|j: int| 0 <= j < row@.len() ==> (#[trigger] row@[j]) < marked@.len(),
            forall|j: int| 0 <= j < k ==> marked@[(#[trigger] row@[j]) as int],
        decreases m - k,
    {
        if !marked[row[k]] {
            return false;
        }
        k = k + 1;
    }
    true
}

/// The position in `names` holding `target`, if any.
fn find_name(names: &Vec<String>, target: &String) -> (r: Option<usize>)
    ensures
        match r {
            Some(i) => i < names@.len() && names@[i as int]@ == target@,
            None => forall|j: int| 0 <= j < names@.len() ==> (#[trigger] names@[j])@ != target@,
        },
{
    let n = names.len();
    let mut k: usize = 0;
    while k < n
        invariant
            n == names@.len(),
            k <= n,
            forall|j: int| 0 <= j < k ==> (#[trigger] names@[j])@ != target@,
        decreases n - k,
    {
        if names[k] == *target {
            return Some(k);
        }
        k = k + 1;
    }
    None
}

/// The name column of the input.
fn build_names(cards: &Vec<Card>) -> (names: Vec<String>)
    ensures
        names_match(cards@, names@),
{
    let n = cards.len();
    let mut names: Vec<String> = Vec::new();
    let mut q: usize = 0;
    while q < n
        invariant
            n == cards@.len(),
            q <= n,
            names@.len() == q,
            forall|j: int| 0 <= j < q ==> (#[trigger] names@[j])@ == cards@[j].name@,
        decreases n - q,
    {
        names.push(cards[q].name.clone());
        q = q + 1;
    }
    names
}

/// Whether the name column is pairwise distinct.
fn check_names_distinct(names: &Vec<String>) -> (r: bool)
    ensures
        r == names_distinct(names@),
{
    let n = names.len();
    let mut i: usize = 0;
    while i < n
        invariant
            n == names@.len(),
            i <= n,
            forall|p: int, j: int|
                0 <= j < p < i ==> (#[trigger] names@[p])@ != (#[trigger] names@[j])@,
        decreases n - i,
    {
        let mut j: usize = 0;
        while j < i
            invariant
                n == names@.len(),
                i < n,
                j <= i,
                forall|p: int, j1: int|
                    0 <= j1 < p < i ==> (#[trigger] names@[p])@ != (#[trigger] names@[j1])@,
                forall|j1: int| 0 <= j1 < j ==> (#[trigger] names@[j1])@ != names@[i as int]@,
            decreases i - j,
        {
            if names[i] == names[j] {
                return false;
            }
            j = j + 1;
        }
        i = i + 1;
    }
    proof {
        assert forall|p: int, j: int|
            0 <= p < names@.len() && 0 <= j < names@.len() && p != j implies (#[trigger] names@[p])@ != (#[trigger] names@[j])@ by {
            if j < p {
                assert(names@[p]@ != names@[j]@);
            } else {
                assert(names@[j]@ != names@[p]@);
            }
        }
    }
    true
}

/// Resolve every dependency name to its table position; `None` marks a name
/// no card defines.
fn resolve_deps(cards: &Vec<Card>, names: &Vec<String>) -> (r: Option<Vec<Vec<usize>>>)
    requires
        names_match(cards@, names@),
    ensures
        match r {
            Some(ds) => resolved_deps(cards@, names@, ds@),
            None => !input_deps_known(cards@),
        },
{
    let n = cards.len();
    let mut ds: Vec<Vec<usize>> = Vec::new();
    let mut b: usize = 0;
    while b < n
        invariant
            n == cards@.len(),
            names_match(cards@, names@),
            b <= n,
            ds@.len() == b,
            forall|i: int|
                0 <= i < b ==> (#[trigger] ds@[i])@.len() == cards@[i].dependencies@.len(),
            forall|i: int, k: int|
                0 <= i < b && 0 <= k < ds@[i]@.len() ==> (#[trigger] ds@[i]@[k]) < names@.len(),
            forall|i: int, k: int|
                0 <= i < b && 0 <= k < ds@[i]@.len()
                    ==> names@[(#[trigger] ds@[i]@[k]) as int]@ == cards@[i].dependencies@[k]@,
        decreases n - b,
    {
        let m = cards[b].dependencies.len();
        let mut row: Vec<usize> = Vec::new();
        let mut k: usize = 0;
        while k < m
            invariant
                n == cards@.len(),
                names_match(cards@, names@),
                b < n,
                m == cards@[b as int].dependencies@.len(),
                k <= m,
                row@.len() == k,
                forall|k1: int| 0 <= k1 < k ==> (#[trigger] row@[k1]) < names@.len(),
                forall|k1: int|
                    0 <= k1 < k ==> names@[(#[trigger] row@[k1]) as int]@ == cards@[b as int]
                        .dependencies@[k1]@,
            decreases m - k,
        {
            match find_name(names, &cards[b].dependencies[k]) {
                Some(d) => {
                    row.push(d);
                },
                None => {
                    proof {
                        let miss = cards@[b as int].dependencies@[k as int]@;
                        assert forall|j: int|
                            0 <= j < input_names(cards@).len() implies input_names(cards@)[j]
                            != miss by {
                            assert(names@[j]@ != miss);
                        }
                        assert(!input_names(cards@).contains(miss));
                    }
                    return None;
                },
            }
            k = k + 1;
        }
        ds.push(row);
        b = b + 1;
    }
    Some(ds)
}

/// Every dependency of the input is defined: read off the resolved rows.
proof fn lemma_resolved_implies_known(cards: Seq<Card>, names: Seq<String>, ds: Seq<Vec<usize>>)
    requires
        names_match(cards, names),
        resolved_deps(cards, names, ds),
    ensures
        input_deps_known(cards),
{
    assert forall|i: int, k: int|
        0 <= i < cards.len() && 0 <= k < cards[i].dependencies@.len() implies input_names(
        cards,
    ).contains(#[trigger] cards[i].dependencies@[k]@) by {
        let d = ds[i]@[k] as int;
        assert(names[d]@ == cards[i].dependencies@[k]@);
        assert(input_names(cards)[d] == cards[i].dependencies@[k]@);
    }
}

/// Whether some row repeats a position.
fn check_rows_distinct(ds: &Vec<Vec<usize>>) -> (r: bool)
    ensures
        r == (forall|i: int, k1: int, k2: int|
            0 <= i < ds@.len() && 0 <= k1 < ds@[i]@.len() && 0 <= k2 < ds@[i]@.len() && k1 != k2
                ==> (#[trigger] ds@[i]@[k1]) != (#[trigger] ds@[i]@[k2])),
{
    let n = ds.len();
    let mut i: usize = 0;
    while i < n
        invariant
            n == ds@.len(),
            i <= n,
            forall|i1: int, k1: int, k2: int|
                0 <= i1 < i && 0 <= k1 < ds@[i1]@.len() && 0 <= k2 < ds@[i1]@.len() && k1 != k2
                    ==> (#[trigger] ds@[i1]@[k1]) != (#[trigger] ds@[i1]@[k2]),
        decreases n - i,
    {
        let m = ds[i].len();
        let mut k: usize = 0;
        while k < m
            invariant
                n == ds@.len(),
                i < n,
                m == ds@[i as int]@.len(),
                k <= m,
                forall|i1: int, k1: int, k2: int|
                    0 <= i1 < i && 0 <= k1 < ds@[i1]@.len() && 0 <= k2 < ds@[i1]@.len() && k1 != k2
                        ==> (#[trigger] ds@[i1]@[k1]) != (#[trigger] ds@[i1]@[k2]),
                forall|k1: int, k2: int|
                    0 <= k1 < k && 0 <= k2 < k && k1 != k2 ==> (#[trigger] ds@[i as int]@[k1]) != (
                    #[trigger] ds@[i as int]@[k2]),
            decreases m - k,
        {
            let mut k2: usize = 0;
            while k2 < k
                invariant
                    n == ds@.len(),
                    i < n,
                    m == ds@[i as int]@.len(),
                    k < m,
                    k2 <= k,
                    forall|k3: int|
                        0 <= k3 < k2 ==> (#[trigger] ds@[i as int]@[k3]) != ds@[i as int]@[k as int],
                decreases k - k2,
            {
                if ds[i][k] == ds[i][k2] {
                    return false;
                }
                k2 = k2 + 1;
            }
            proof {
                assert forall|k1: int, k3: int|
                    0 <= k1 < k + 1 && 0 <= k3 < k + 1 && k1 != k3 implies (#[trigger] ds@[i as int]@[k1]) != (#[trigger] ds@[i as int]@[k3]) by {
                    if k1 < k && k3 < k {
                    } else if k1 == k {
                        assert(ds@[i as int]@[k3] != ds@[i as int]@[k as int]);
                    } else {
                        assert(ds@[i as int]@[k1] != ds@[i as int]@[k as int]);
                    }
                }
            }
            k = k + 1;
        }
        i = i + 1;
    }
    true
}

/// With distinct names, repeating a dependency name is the same as repeating
/// a resolved position.
proof fn lemma_rows_distinct_iff(cards: Seq<Card>, names: Seq<String>, ds: Seq<Vec<usize>>)
    requires
        names_match(cards, names),
        names_distinct(names),
        resolved_deps(cards, names, ds),
    ensures
        input_deps_distinct(cards) <==> (forall|i: int, k1: int, k2: int|
            0 <= i < ds.len() && 0 <= k1 < ds[i]@.len() && 0 <= k2 < ds[i]@.len() && k1 != k2
                ==> (#[trigger] ds[i]@[k1]) != (#[trigger] ds[i]@[k2])),
{
    if input_deps_distinct(cards) {
        assert forall|i: int, k1: int, k2: int|
            0 <= i < ds.len() && 0 <= k1 < ds[i]@.len() && 0 <= k2 < ds[i]@.len() && k1 != k2
            implies (#[trigger] ds[i]@[k1]) != (#[trigger] ds[i]@[k2]) by {
            assert(cards[i].dependencies@[k1]@ != cards[i].dependencies@[k2]@);
            assert(names[ds[i]@[k1] as int]@ == cards[i].dependencies@[k1]@);
            assert(names[ds[i]@[k2] as int]@ == cards[i].dependencies@[k2]@);
        }
    }
    if forall|i: int, k1: int, k2: int|
        0 <= i < ds.len() && 0 <= k1 < ds[i]@.len() && 0 <= k2 < ds[i]@.len() && k1 != k2
            ==> (#[trigger] ds[i]@[k1]) != (#[trigger] ds[i]@[k2]) {
        assert forall|i: int, k1: int, k2: int|
            0 <= i < cards.len() && 0 <= k1 < cards[i].dependencies@.len() && 0 <= k2 < cards[i].dependencies@.len() && k1 != k2 implies (#[trigger] cards[i].dependencies@[k1]@) != (
        #[trigger] cards[i].dependencies@[k2]@) by {
            let d1 = ds[i]@[k1] as int;
            let d2 = ds[i]@[k2] as int;
            assert(ds[i]@[k1] != ds[i]@[k2]);
            assert(names[d1]@ != names[d2]@);
            assert(names[d1]@ == cards[i].dependencies@[k1]@);
            assert(names[d2]@ == cards[i].dependencies@[k2]@);
        }
    }
}

/// Position-level edges are input edges and conversely, once rows are
/// resolved against distinct names.
proof fn lemma_edge_correspondence(cards: Seq<Card>, names: Seq<String>, ds: Seq<Vec<usize>>)
    requires
        names_match(cards, names),
        names_distinct(names),
        resolved_deps(cards, names, ds),
    ensures
        forall|a: int, b: int|
            #![trigger idx_edge(ds, a, b)]
            #![trigger input_edge(cards, a, b)]
            (0 <= a < cards.len() && idx_edge(ds, a, b)) <==> input_edge(cards, a, b),
{
    assert forall|a: int, b: int|
        0 <= a < cards.len() && #[trigger] idx_edge(ds, a, b) implies input_edge(cards, a, b) by {
        let k = choose|k: int| 0 <= k < ds[b]@.len() && (#[trigger] ds[b]@[k]) == a;
        assert(names[a]@ == cards[b].dependencies@[k]@);
        assert(cards[b].dependencies@[k]@ == cards[a].name@);
    }
    assert forall|a: int, b: int| #[trigger]
        input_edge(cards, a, b) implies 0 <= a < cards.len() && idx_edge(ds, a, b) by {
        let k = choose|k: int|
            0 <= k < cards[b].dependencies@.len() && (#[trigger] cards[b].dependencies@[k]@)
                == cards[a].name@;
        let d = ds[b]@[k] as int;
        assert(names[d]@ == cards[a].name@);
        assert(names[a]@ == cards[a].name@);
        if d != a {
            assert(names[d]@ != names[a]@);
        }
        assert(ds[b]@[k] == a);
    }
}

/// A stuck state — some card is unranked, and every unranked card has an
/// unranked dependency — refutes acyclicity.
#[verifier::rlimit(60)]
proof fn lemma_stuck_not_acyclic(ds: Seq<Vec<usize>>, assigned: Seq<bool>, done: int)
    requires
        rows_in_range(ds, ds.len() as int),
        assigned.len() == ds.len(),
        assigned_set(assigned).finite(),
        assigned_set(assigned).len() == done,
        done < ds.len(),
        forall|i: int|
            0 <= i < ds.len() && !(#[trigger] assigned[i]) ==> exists|k: int|
                0 <= k < ds[i]@.len() && !assigned[(#[trigger] ds[i]@[k]) as int],
    ensures
        !idx_acyclic(ds),
{
    let n = ds.len() as int;
    if idx_acyclic(ds) {
        let rr = choose|r: Seq<nat>|
            (#[trigger] r.len()) == ds.len() && (forall|a: int, b1: int|
                #[trigger] idx_edge(ds, a, b1) ==> r[a] < r[b1]);
        let blocked = Set::<int>::new(|j: int| 0 <= j < n && !assigned[j]);
        assert forall|v: int| #[trigger]
            blocked.contains(v) implies 0 <= v < ds.len() && exists|w: int|
            #[trigger] blocked.contains(w) && idx_edge(ds, w, v) by {
            let k = choose|k: int|
                0 <= k < ds[v]@.len() && !assigned[(#[trigger] ds[v]@[k]) as int];
            let w = ds[v]@[k] as int;
            assert(blocked.contains(w));
            assert(idx_edge(ds, w, v));
        }
        // The stuck set is nonempty: fewer cards are ranked than exist.
        vstd::set_lib::lemma_int_range(0, n);
        let range = vstd::set_lib::set_int_range(0, n);
        assert(assigned_set(assigned).subset_of(range));
        if forall|j: int| 0 <= j < n ==> #[trigger] assigned[j] {
            vstd::set_lib::lemma_len_subset(range, assigned_set(assigned));
            assert(false);
        }
        let u = choose|j: int| 0 <= j < n && !(#[trigger] assigned[j]);
        assert(blocked.contains(u));
        lemma_blocked_set_empty(ds, rr, blocked, u);
        assert(false);
    }
}

/// A set of positions below `n` holding `n` members holds them all.
proof fn lemma_all_assigned(assigned: Seq<bool>, n: int)
    requires
        assigned.len() == n,
        assigned_set(assigned).finite(),
        assigned_set(assigned).len() == n,
    ensures
        forall|j: int| 0 <= j < n ==> #[trigger] assigned[j],
{
    vstd::set_lib::lemma_int_range(0, n);
    let range = vstd::set_lib::set_int_range(0, n);
    assert forall|j: int| 0 <= j < n implies #[trigger] assigned[j] by {
        if !assigned[j] {
            assert(!assigned_set(assigned).contains(j));
            assigned_set(assigned).lemma_subset_not_in_lt(range, j);
        }
    }
}

/// A card not yet ranked whose dependencies are all ranked, if any;
/// `None` means every unranked card waits on an unranked dependency.
fn find_candidate(ds: &Vec<Vec<usize>>, assigned: &Vec<bool>) -> (r: Option<usize>)
    requires
        assigned@.len() == ds@.len(),
        rows_in_range(ds@, ds@.len() as int),
    ensures
        match r {
            Some(c) => c < ds@.len() && !assigned@[c as int] && forall|k: int|
                0 <= k < ds@[c as int]@.len() ==> assigned@[(#[trigger] ds@[c as int]@[k]) as int],
            None => forall|i: int|
                0 <= i < ds@.len() && !(#[trigger] assigned@[i]) ==> exists|k: int|
                    0 <= k < ds@[i]@.len() && !assigned@[(#[trigger] ds@[i]@[k]) as int],
        },
{
    let n = ds.len();
    let mut s: usize = 0;
    while s < n
        invariant
            n == ds@.len(),
            assigned@.len() == n,
            rows_in_range(ds@, n as int),
            s <= n,
            forall|i: int|
                0 <= i < s && !(#[trigger] assigned@[i]) ==> exists|k: int|
                    0 <= k < ds@[i]@.len() && !assigned@[(#[trigger] ds@[i]@[k]) as int],
        decreases n - s,
    {
        if !assigned[s] {
            proof {
                assert(forall|k: int|
                    0 <= k < ds@[s as int]@.len() ==> (#[trigger] ds@[s as int]@[k])
                        < assigned@.len());
            }
            if all_marked(&ds[s], &assigned) {
                return Some(s);
            }
        }
        s = s + 1;
    }
    None
}

/// Assign a topological rank by repeatedly ranking a card whose
/// dependencies are all ranked; `None` marks a cycle.
#[verifier::loop_isolation(false)]
#[verifier::rlimit(60)]
fn toposort(ds: &Vec<Vec<usize>>) -> (r: Option<Vec<usize>>)
    requires
        rows_in_range(ds@, ds@.len() as int),
    ensures
        match r {
            Some(rank) => {
                &&& rank@.len() == ds@.len()
                &&& forall|j: int| 0 <= j < ds@.len() ==> (#[trigger] rank@[j]) < ds@.len()
                &&& forall|j: int, k: int|
                    0 <= j < ds@.len() && 0 <= k < ds@[j]@.len()
                        ==> rank@[(#[trigger] ds@[j]@[k]) as int] < rank@[j]
            },
            None => !idx_acyclic(ds@),
        },
{
    let n = ds.len();
    let mut rank: Vec<usize> = Vec::new();
    let mut assigned: Vec<bool> = Vec::new();
    let mut q: usize = 0;
    while q < n
        invariant
            q <= n,
            rank@.len() == q,
            assigned@.len() == q,
            forall|j: int| 0 <= j < q ==> !(#[trigger] assigned@[j]),
        decreases n - q,
    {
        rank.push(0);
        assigned.push(false);
        q = q + 1;
    }
    proof {
        assert(assigned_set(assigned@) =~= Set::<int>::empty());
    }
    let mut done: usize = 0;
    while done < n
        invariant
            rank@.len() == n,
            assigned@.len() == n,
            done <= n,
            assigned_set(assigned@).finite(),
            assigned_set(assigned@).len() == done,
            forall|j: int| 0 <= j < n && (#[trigger] assigned@[j]) ==> rank@[j] < done,
            forall|j: int, k: int|
                0 <= j < n && assigned@[j] && 0 <= k < ds@[j]@.len()
                    ==> assigned@[(#[trigger] ds@[j]@[k]) as int] && rank@[ds@[j]@[k] as int]
                        < rank@[j],
        decreases n - done,
    {
        match find_candidate(ds, &assigned) {
            Some(c) => {
                let ghost before = assigned_set(assigned@);
                rank.set(c, done);
                assigned.set(c, true);
                proof {
                    assert(assigned_set(assigned@) =~= before.insert(c as int));
                    assert(assigned_set(assigned@).len() == done + 1);
                }
                done = done + 1;
            },
            None => {
                proof {
                    lemma_stuck_not_acyclic(ds@, assigned@, done as int);
                }
                return None;
            },
        }
    }
    proof {
        lemma_all_assigned(assigned@, n as int);
        assert forall|j: int| 0 <= j < n implies (#[trigger] rank@[j]) < n by {
            assert(assigned@[j]);
        }
    }
    Some(rank)
}

/// The inverse adjacency: row `a` of the result lists every `b` whose
/// dependency row holds `a`.
#[verifier::loop_isolation(false)]
#[verifier::rlimit(60)]
fn build_dependents(ds: &Vec<Vec<usize>>) -> (r: Vec<Vec<usize>>)
    requires
        rows_in_range(ds@, ds@.len() as int),
    ensures
        r@.len() == ds@.len(),
        rows_in_range(r@, ds@.len() as int),
        forall|a: int, b0: int|
            #![trigger r@[a]@.contains(b0 as usize)]
            0 <= a < ds@.len() && 0 <= b0 < ds@.len() ==> (r@[a]@.contains(b0 as usize)
                <==> idx_edge(ds@, a, b0)),
{
    let n = ds.len();
    let mut dnts: Vec<Vec<usize>> = Vec::new();
    let mut q: usize = 0;
    while q < n
        invariant
            q <= n,
            dnts@.len() == q,
            forall|a: int| 0 <= a < q ==> (#[trigger] dnts@[a])@.len() == 0,
        decreases n - q,
    {
        dnts.push(Vec::new());
        q = q + 1;
    }
    let mut b: usize = 0;
    while b < n
        invariant
            dnts@.len() == n,
            b <= n,
            rows_in_range(dnts@, n as int),
            forall|a: int, b0: int|
                #![trigger dnts@[a]@.contains(b0 as usize)]
                0 <= a < n && 0 <= b0 < n ==> (dnts@[a]@.contains(b0 as usize) <==> (b0 < b
                    && exists|k0: int|
                    0 <= k0 < ds@[b0]@.len() && (#[trigger] ds@[b0]@[k0]) == a)),
        decreases n - b,
    {
        let m = ds[b].len();
        let mut k: usize = 0;
        while k < m
            invariant
                dnts@.len() == n,
                b < n,
                m == ds@[b as int]@.len(),
                k <= m,
                rows_in_range(dnts@, n as int),
                forall|a: int, b0: int|
                    #![trigger dnts@[a]@.contains(b0 as usize)]
                    0 <= a < n && 0 <= b0 < n ==> (dnts@[a]@.contains(b0 as usize) <==> ((b0 < b
                        && exists|k0: int|
                        0 <= k0 < ds@[b0]@.len() && (#[trigger] ds@[b0]@[k0]) == a) || (b0 == b
                        && exists|k0: int| 0 <= k0 < k && (#[trigger] ds@[b0]@[k0]) == a))),
            decreases m - k,
        {
            let a = ds[b][k];
            let mut grown = copied_positions(&dnts[a]);
            grown.push(b);
            let ghost old_dnts = dnts@;
            dnts.set(a, grown);
            proof {
                assert(dnts@[a as int]@ =~= old_dnts[a as int]@.push(b));
                assert forall|a1: int, b0: int|
                    #![trigger dnts@[a1]@.contains(b0 as usize)]
                    0 <= a1 < n && 0 <= b0 < n implies (dnts@[a1]@.contains(b0 as usize) <==> ((b0
                    < b && exists|k0: int|
                    0 <= k0 < ds@[b0]@.len() && (#[trigger] ds@[b0]@[k0]) == a1) || (b0 == b
                    && exists|k0: int| 0 <= k0 < k + 1 && (#[trigger] ds@[b0]@[k0]) == a1))) by {
                    if a1 == a as int {
                        if dnts@[a1]@.contains(b0 as usize) {
                            let pos = choose|p: int|
                                0 <= p < dnts@[a1]@.len() && dnts@[a1]@[p] == b0 as usize;
                            if pos < old_dnts[a1]@.len() {
                                assert(old_dnts[a1]@[pos] == b0 as usize);
                                assert(old_dnts[a1]@.contains(b0 as usize));
                            } else {
                                assert(dnts@[a1]@[pos] == b);
                                assert(b0 == b);
                                assert(ds@[b as int]@[k as int] == a1);
                            }
                        }
                        if b0 == b && ds@[b0]@[k as int] == a1 {
                            assert(dnts@[a1]@[old_dnts[a1]@.len() as int] == b);
                            assert(dnts@[a1]@.contains(b0 as usize));
                        }
                        if b0 < b && exists|k0: int|
                            0 <= k0 < ds@[b0]@.len() && (#[trigger] ds@[b0]@[k0]) == a1 {
                            assert(old_dnts[a1]@.contains(b0 as usize));
                            let p2 = choose|p: int|
                                0 <= p < old_dnts[a1]@.len() && old_dnts[a1]@[p] == b0 as usize;
                            assert(dnts@[a1]@[p2] == b0 as usize);
                            assert(dnts@[a1]@.contains(b0 as usize));
                        }
                        if b0 == b && exists|k0: int|
                            0 <= k0 < k && (#[trigger] ds@[b0]@[k0]) == a1 {
                            assert(old_dnts[a1]@.contains(b0 as usize));
                            let p3 = choose|p: int|
                                0 <= p < old_dnts[a1]@.len() && old_dnts[a1]@[p] == b0 as usize;
                            assert(dnts@[a1]@[p3] == b0 as usize);
                            assert(dnts@[a1]@.contains(b0 as usize));
                        }
                    } else {
                        assert(dnts@[a1]@ == old_dnts[a1]@);
                        if b0 == b && exists|k0: int|
                            0 <= k0 < k + 1 && (#[trigger] ds@[b0]@[k0]) == a1 {
                            let k0 = choose|k0: int|
                                0 <= k0 < k + 1 && (#[trigger] ds@[b0]@[k0]) == a1;
                            assert(k0 < k);
                        }
                    }
                }
            }
            k = k + 1;
        }
        b = b + 1;
    }
    dnts
}

impl CourseGraph {
    /// Validate a plain `(name, dependency names)` list and build the graph.
    ///
    /// Construction succeeds exactly when the card names are unique, every
    /// referenced dependency is defined, no card repeats a dependency, and
    /// the dependency relation is acyclic; each defect is reported as the
    /// matching error, checked in that order. `text` is kept verbatim as the
    /// source the graph was built from.
    #[verifier::rlimit(60)]
    pub fn new(text: String, cards: Vec<Card>) -> (r: Result<CourseGraph, GraphError>)
        ensures
            match r {
                Ok(g) => {
                    &&& g.wf()
                    &&& g.n() == cards@.len()
                    &&& g.names_view() == input_names(cards@)
                    &&& g.source_view() == text@
                    &&& forall|b: int|
                        0 <= b < g.n() ==> (#[trigger] g.deps_of(b)).len()
                            == cards@[b].dependencies@.len()
                    &&& forall|b: int, k: int|
                        0 <= b < g.n() && 0 <= k < g.deps_of(b).len()
                            ==> g.names_view()[(#[trigger] g.deps_of(b)[k]) as int]
                                == cards@[b].dependencies@[k]@
                    &&& forall|a: int, b: int|
                        #![trigger g.edge(a, b)]
                        #![trigger input_edge(cards@, a, b)]
                        g.edge(a, b) <==> input_edge(cards@, a, b)
                    &&& input_names_distinct(cards@)
                    &&& input_deps_known(cards@)
                    &&& input_deps_distinct(cards@)
                    &&& input_acyclic(cards@)
                },
                Err(e) => match e {
                    GraphError::DuplicateCardName => !input_names_distinct(cards@),
                    GraphError::UnknownDependency => input_names_distinct(cards@)
                        && !input_deps_known(cards@),
                    GraphError::DuplicateDependency => input_names_distinct(cards@)
                        && input_deps_known(cards@) && !input_deps_distinct(cards@),
                    GraphError::Cycle => input_names_distinct(cards@) && input_deps_known(cards@)
                        && input_deps_distinct(cards@) && !input_acyclic(cards@),
                    GraphError::UnknownCard => false,
                },
            },
    {
        let names = build_names(&cards);
        if !check_names_distinct(&names) {
            proof {
                let (i, j) = choose|i: int, j: int|
                    0 <= i < names@.len() && 0 <= j < names@.len() && i != j && (names@[i])@
                        == (names@[j])@;
                assert(input_names(cards@)[i] == input_names(cards@)[j]);
            }
            return Err(GraphError::DuplicateCardName);
        }
        proof {
            assert forall|i: int, j: int|
                0 <= i < cards@.len() && 0 <= j < cards@.len() && i != j implies input_names(
                cards@,
            )[i] != input_names(cards@)[j] by {
                assert(names@[i]@ != names@[j]@);
            }
        }
        let ds = match resolve_deps(&cards, &names) {
            Some(ds) => ds,
            None => {
                return Err(GraphError::UnknownDependency);
            },
        };
        proof {
            lemma_resolved_implies_known(cards@, names@, ds@);
        }
        if !check_rows_distinct(&ds) {
            proof {
                lemma_rows_distinct_iff(cards@, names@, ds@);
            }
            return Err(GraphError::DuplicateDependency);
        }
        proof {
            lemma_rows_distinct_iff(cards@, names@, ds@);
            assert(rows_in_range(ds@, ds@.len() as int));
        }
        let rank = match toposort(&ds) {
            Some(rank) => rank,
            None => {
                proof {
                    lemma_edge_correspondence(cards@, names@, ds@);
                    if input_acyclic(cards@) {
                        let rr = choose|r: Seq<nat>|
                            (#[trigger] r.len()) == cards@.len() && (forall|a: int, b: int|
                                #[trigger] input_edge(cards@, a, b) ==> r[a] < r[b]);
                        assert forall|a: int, b: int| #[trigger]
                            idx_edge(ds@, a, b) implies rr[a] < rr[b] by {
                            let k = choose|k: int|
                                0 <= k < ds@[b]@.len() && (#[trigger] ds@[b]@[k]) == a;
                            assert(0 <= a < cards@.len());
                            assert(input_edge(cards@, a, b));
                        }
                        assert(idx_acyclic(ds@));
                        assert(false);
                    }
                }
                return Err(GraphError::Cycle);
            },
        };
        let dnts = build_dependents(&ds);
        let ghost dsv = ds@;
        let ghost dntsv = dnts@;
        let ghost namesv = names@;
        let ghost rankv = rank@;
        let g = CourseGraph { text, names, deps: ds, dnts, rank };
        proof {
            assert(g.deps@ == dsv);
            assert(g.dnts@ == dntsv);
            assert(g.names@ == namesv);
            assert(g.rank@ == rankv);
            let n = g.n();
            assert forall|c: int, k: int|
                0 <= c < n && 0 <= k < g.deps_of(c).len() implies (#[trigger] g.deps_of(c)[k])
                < n by {
                assert(dsv[c]@[k] < namesv.len());
            }
            assert forall|c: int, k: int|
                0 <= c < n && 0 <= k < g.dnts_of(c).len() implies (#[trigger] g.dnts_of(c)[k])
                < n by {
                assert(dntsv[c]@[k] < dsv.len());
            }
            assert forall|a: int, b0: int|
                0 <= a < n && 0 <= b0 < n implies ((#[trigger] g.has_dep(b0, a)) <==> (
            #[trigger] g.has_dnt(a, b0))) by {
                if g.has_dep(b0, a) {
                    let kk = choose|kk: int|
                        0 <= kk < g.deps_of(b0).len() && (#[trigger] g.deps_of(b0)[kk]) == a;
                    assert(dsv[b0]@[kk] == a);
                    assert(idx_edge(dsv, a, b0));
                    assert(dntsv[a]@.contains(b0 as usize));
                    let p = choose|p: int|
                        0 <= p < dntsv[a]@.len() && dntsv[a]@[p] == b0 as usize;
                    assert(dntsv[a]@[p] == b0 as usize);
                    assert(g.dnts_of(a) == dntsv[a]@);
                    assert(g.dnts_of(a)[p] == b0 as usize);
                    assert((b0 as usize) as int == b0);
                    assert(g.has_dnt(a, b0));
                }
                if g.has_dnt(a, b0) {
                    let p = choose|p: int|
                        0 <= p < g.dnts_of(a).len() && (#[trigger] g.dnts_of(a)[p]) == b0;
                    assert(dntsv[a]@[p] == b0 as usize);
                    assert(dntsv[a]@.contains(b0 as usize));
                    assert(idx_edge(dsv, a, b0));
                    let kk = choose|kk: int|
                        0 <= kk < dsv[b0]@.len() && (#[trigger] dsv[b0]@[kk]) == a;
                    assert(g.deps_of(b0)[kk] == a);
                    assert(g.has_dep(b0, a));
                }
            }
            assert forall|c: int| 0 <= c < n implies 0 <= #[trigger] g.rank_of(c) < n by {
                assert(rankv[c] < dsv.len());
            }
            assert forall|c: int, k: int|
                0 <= c < n && 0 <= k < g.deps_of(c).len() implies g.rank_of(
                (#[trigger] g.deps_of(c)[k]) as int,
            ) < g.rank_of(c) by {
                assert(rankv[dsv[c]@[k] as int] < rankv[c]);
            }
            assert forall|i: int, j: int|
                0 <= i < n && 0 <= j < n && i != j implies g.names_view()[i] != g.names_view()[j] by {
                assert(namesv[i]@ != namesv[j]@);
            }
            assert(g.wf());
            assert(g.names_view() =~= input_names(cards@));
            assert forall|b: int|
                0 <= b < n implies (#[trigger] g.deps_of(b)).len() == cards@[b].dependencies@.len() by {
                assert(dsv[b]@.len() == cards@[b].dependencies@.len());
            }
            assert forall|b: int, k: int|
                0 <= b < n && 0 <= k < g.deps_of(b).len() implies g.names_view()[(
            #[trigger] g.deps_of(b)[k]) as int] == cards@[b].dependencies@[k]@ by {
                assert(namesv[dsv[b]@[k] as int]@ == cards@[b].dependencies@[k]@);
            }
            lemma_edge_correspondence(cards@, namesv, dsv);
            assert forall|a: int, b0: int|
                #![trigger g.edge(a, b0)]
                #![trigger input_edge(cards@, a, b0)]
                g.edge(a, b0) <==> input_edge(cards@, a, b0) by {
                if g.edge(a, b0) {
                    let kk = choose|kk: int|
                        0 <= kk < g.deps_of(b0).len() && (#[trigger] g.deps_of(b0)[kk]) == a;
                    assert(dsv[b0]@[kk] == a);
                    assert(idx_edge(dsv, a, b0));
                    assert(input_edge(cards@, a, b0));
                }
                if input_edge(cards@, a, b0) {
                    assert(0 <= a < cards@.len() && idx_edge(dsv, a, b0));
                    let kk = choose|kk: int|
                        0 <= kk < dsv[b0]@.len() && (#[trigger] dsv[b0]@[kk]) == a;
                    assert(g.deps_of(b0)[kk] == a);
                    assert(g.has_dep(b0, a));
                }
            }
            let rr = Seq::<nat>::new(cards@.len() as nat, |j: int| rankv[j] as nat);
            assert(rr.len() == cards@.len());
            assert forall|a: int, b0: int| #[trigger]
                input_edge(cards@, a, b0) implies rr[a] < rr[b0] by {
                assert(g.edge(a, b0));
                g.lemma_edge_rank(a, b0);
                assert(rr[a] == rankv[a] as nat);
                assert(rr[b0] == rankv[b0] as nat);
            }
            assert(input_acyclic(cards@));
        }
        Ok(g)
    }
}

/// A copy of a list of table positions.
fn copied_positions(v: &Vec<usize>) -> (r: Vec<usize>)
    ensures
        r@ == v@,
{
    let m = v.len();
    let mut r: Vec<usize> = Vec::new();
    let mut k: usize = 0;
    while k < m
        invariant
            m == v@.len(),
            k <= m,
            r@ == v@.subrange(0, k as int),
        decreases m - k,
    {
        r.push(v[k]);
        proof {
            assert(r@ =~= v@.subrange(0, k as int + 1));
        }
        k = k + 1;
    }
    proof {
        assert(r@ =~= v@);
    }
    r
}

} // verus!
