//! The depth-first strategy: a frontier stack of pending matches, of which
//! one is admitted per call.
//!
//! Two frontier records count as the same record when they were found in the
//! same equivalence class; substitutions and derivation are not compared.

use vstd::prelude::*;
use vstd::std_specs::cmp::PartialEqSpecImpl;
use crate::matches::{ast_view, duplicate_ast, duplicate_substs, matches_view, reversed, substs_view};
use crate::matches::{Id, MatchView, PatternAst, SearchMatches, Subst};
use crate::scheduler::RewriteScheduler;

verus! {

/// A match record that the scheduler owns and keeps between calls.
#[derive(Debug)]
pub struct DFSSearchMatches {
    /// The class that the matches were found in.
    pub eclass: Id,
    /// One substitution per match.
    pub substs: Vec<Subst>,
    /// The derivation artifact, if any.
    pub ast: Option<PatternAst>,
}

impl View for DFSSearchMatches {
    type V = MatchView;

    open spec fn view(&self) -> MatchView {
        MatchView { eclass: self.eclass, substs: substs_view(self.substs@), ast: ast_view(self.ast) }
    }
}

impl PartialEq for DFSSearchMatches {
    fn eq(&self, other: &Self) -> (same: bool) {
        other.eclass == self.eclass
    }
}

impl PartialEqSpecImpl for DFSSearchMatches {
    open spec fn obeys_eq_spec() -> bool {
        true
    }

    open spec fn eq_spec(&self, other: &Self) -> bool {
        other.eclass == self.eclass
    }
}

/// The views of a sequence of frontier records.
pub open spec fn records_view(rs: Seq<DFSSearchMatches>) -> Seq<MatchView> {
    Seq::new(rs.len(), |i: int| rs[i]@)
}

/// Whether a record of class `c` is among `visited`.
pub open spec fn class_visited(visited: Seq<MatchView>, c: Id) -> bool {
    exists|j: int| 0 <= j < visited.len() && (#[trigger] visited[j]).eclass == c
}

/// How many records at the front of `frontier` are abandoned on
/// backtracking: those before the first one whose class was visited.
pub open spec fn abandoned(frontier: Seq<MatchView>, visited: Seq<MatchView>) -> nat
    decreases frontier.len(),
{
    if frontier.len() == 0 || class_visited(visited, frontier[0].eclass) {
        0
    } else {
        1 + abandoned(frontier.skip(1), visited)
    }
}

/// The state of the depth-first strategy, as mathematical values.
pub struct DfsState {
    /// The number of discovery rounds after which backtracking is forced.
    pub max_depth: nat,
    /// The number of discovery rounds that are open.
    pub curr_depth: nat,
    /// The pending records; the first is explored next.
    pub frontier: Seq<MatchView>,
    /// The records that were admitted, in the order of their admission.
    pub visited: Seq<MatchView>,
    /// Whether `search_rewrite` has been called.
    pub initialized: bool,
}

impl DfsState {
    /// The state of a new scheduler with depth limit `max_depth`.
    pub open spec fn initial(max_depth: nat) -> DfsState {
        DfsState {
            max_depth,
            curr_depth: 0,
            frontier: Seq::empty(),
            visited: Seq::empty(),
            initialized: false,
        }
    }

    /// Whether the strategy reads what the matcher finds: only below the
    /// depth limit.
    pub open spec fn searches(self) -> bool {
        self.curr_depth < self.max_depth
    }

    /// Whether a call that is handed `found` puts it on the frontier. If it
    /// does not, the call backtracks.
    pub open spec fn discovers(self, found: Seq<MatchView>) -> bool {
        self.searches() && found.len() > 0
    }

    /// The state after discovery or backtracking, before a record is
    /// admitted. Discovery puts `found` in front of the frontier as a block;
    /// backtracking abandons the records in front of the first visited one,
    /// and closes one discovery round for each as long as any is open.
    pub open spec fn explored(self, found: Seq<MatchView>) -> DfsState {
        if self.discovers(found) {
            DfsState {
                max_depth: self.max_depth,
                curr_depth: self.curr_depth + 1,
                frontier: found + self.frontier,
                visited: self.visited,
                initialized: true,
            }
        } else {
            let k = abandoned(self.frontier, self.visited);
            DfsState {
                max_depth: self.max_depth,
                curr_depth: if self.curr_depth >= k { (self.curr_depth - k) as nat } else { 0 },
                frontier: self.frontier.skip(k as int),
                visited: self.visited,
                initialized: true,
            }
        }
    }

    /// What a call that is handed `found` admits: the first record of the
    /// explored frontier, or nothing where that frontier is empty.
    pub open spec fn admitted(self, found: Seq<MatchView>) -> Seq<MatchView> {
        let e = self.explored(found);
        if e.frontier.len() == 0 {
            Seq::empty()
        } else {
            seq![e.frontier[0]]
        }
    }

    /// The state after a call that is handed `found`: the admitted record
    /// has left the frontier and is the last of the visited records.
    pub open spec fn step(self, found: Seq<MatchView>) -> DfsState {
        let e = self.explored(found);
        if e.frontier.len() == 0 {
            e
        } else {
            DfsState {
                max_depth: e.max_depth,
                curr_depth: e.curr_depth,
                frontier: e.frontier.skip(1),
                visited: e.visited.push(e.frontier[0]),
                initialized: true,
            }
        }
    }

    /// Whether the explored tree is exhausted.
    pub open spec fn exhausted(self) -> bool {
        self.initialized && self.frontier.len() == 0
    }
}

/// Backtracking abandons records of classes that were not visited and
/// stops in front of the first record of a visited class.
pub proof fn lemma_abandoned(frontier: Seq<MatchView>, visited: Seq<MatchView>)
    ensures
        abandoned(frontier, visited) <= frontier.len(),
        forall|j: int| 0 <= j < abandoned(frontier, visited) ==> !class_visited(visited, (#[trigger] frontier[j]).eclass),
        abandoned(frontier, visited) < frontier.len() ==> class_visited(
            visited,
            frontier[abandoned(frontier, visited) as int].eclass,
        ),
    decreases frontier.len(),
{
    if !(frontier.len() == 0 || class_visited(visited, frontier[0].eclass)) {
        let rest = frontier.skip(1);
        lemma_abandoned(rest, visited);
        assert forall|j: int| 0 <= j < abandoned(frontier, visited) implies !class_visited(
            visited,
            (#[trigger] frontier[j]).eclass,
        ) by {
            if j > 0 {
                assert(rest[j - 1] == frontier[j]);
            }
        }
        if abandoned(frontier, visited) < frontier.len() {
            assert(rest[abandoned(rest, visited) as int] == frontier[abandoned(frontier, visited) as int]);
        }
    }
}

/// What one call does to the records. It admits at most one record, and
/// that record becomes the last of the visited ones. After discovery the
/// admitted record and the new frontier are the found records followed by
/// the old frontier; after backtracking they are the old frontier without
/// the abandoned records, and the admitted record is of a visited class.
pub proof fn lemma_step_accounts(s: DfsState, found: Seq<MatchView>)
    ensures
        s.admitted(found).len() <= 1,
        s.step(found).visited == s.visited + s.admitted(found),
        s.step(found).initialized,
        s.step(found).max_depth == s.max_depth,
        s.discovers(found) ==> s.admitted(found) + s.step(found).frontier == found + s.frontier,
        !s.discovers(found) ==> s.admitted(found) + s.step(found).frontier == s.frontier.skip(
            abandoned(s.frontier, s.visited) as int,
        ),
        !s.discovers(found) && s.admitted(found).len() == 1 ==> class_visited(
            s.visited,
            s.admitted(found)[0].eclass,
        ),
{
    lemma_abandoned(s.frontier, s.visited);
    let e = s.explored(found);
    assert(s.step(found).visited =~= s.visited + s.admitted(found));
    assert(s.admitted(found) + s.step(found).frontier =~= e.frontier);
}

/// A call that does not discover shortens a frontier that is not empty:
/// once the matcher finds nothing more, the scheduler is exhausted after at
/// most as many calls as the frontier has records.
pub proof fn lemma_backtracking_shrinks_frontier(s: DfsState, found: Seq<MatchView>)
    requires
        !s.discovers(found),
    ensures
        s.step(found).frontier.len() <= s.frontier.len(),
        s.frontier.len() > 0 ==> s.step(found).frontier.len() < s.frontier.len(),
{
    lemma_abandoned(s.frontier, s.visited);
}

/// The state after `n` calls in which the matcher found nothing.
pub open spec fn after_idle_calls(s: DfsState, n: nat) -> DfsState
    decreases n,
{
    if n == 0 {
        s
    } else {
        after_idle_calls(s, (n - 1) as nat).step(Seq::empty())
    }
}

/// A frontier that holds only records of visited classes is explored
/// completely once the matcher finds nothing more: every call admits the
/// next record, in the order of the frontier, none is abandoned, and after
/// as many calls as there are records the scheduler is exhausted.
pub proof fn lemma_idle_calls_drain(s: DfsState, n: nat)
    requires
        n <= s.frontier.len(),
        forall|j: int| 0 <= j < s.frontier.len() ==> class_visited(s.visited, (#[trigger] s.frontier[j]).eclass),
    ensures
        after_idle_calls(s, n).frontier == s.frontier.skip(n as int),
        after_idle_calls(s, n).visited == s.visited + s.frontier.take(n as int),
        n > 0 ==> after_idle_calls(s, n).initialized,
        n > 0 && n == s.frontier.len() ==> after_idle_calls(s, n).exhausted(),
    decreases n,
{
    if n == 0 {
        assert(s.frontier.skip(0) =~= s.frontier);
        assert(s.visited + s.frontier.take(0) =~= s.visited);
    } else {
        let t = after_idle_calls(s, (n - 1) as nat);
        lemma_idle_calls_drain(s, (n - 1) as nat);
        let front = s.frontier[n - 1];
        assert(t.frontier[0] == front);
        let w = choose|j: int| 0 <= j < s.visited.len() && (#[trigger] s.visited[j]).eclass == front.eclass;
        assert(t.visited[w] == s.visited[w]);
        assert(class_visited(t.visited, front.eclass));
        assert(abandoned(t.frontier, t.visited) == 0);
        let e = t.explored(Seq::empty());
        assert(e.frontier =~= t.frontier);
        assert(t.step(Seq::empty()).frontier =~= s.frontier.skip(n as int));
        assert(t.step(Seq::empty()).visited =~= s.visited + s.frontier.take(n as int));
    }
}

/// A call on an empty frontier that is handed no matches admits nothing,
/// and the scheduler is exhausted after it.
pub proof fn lemma_immediate_exhaustion(s: DfsState)
    requires
        s.frontier.len() == 0,
    ensures
        s.admitted(Seq::empty()).len() == 0,
        s.step(Seq::empty()).frontier.len() == 0,
        s.step(Seq::empty()).visited == s.visited,
        s.step(Seq::empty()).exhausted(),
{
    lemma_abandoned(s.frontier, s.visited);
}

/// A rule with at most one match is explored completely by the first call
/// of a new scheduler whose depth limit is not zero: the call admits what
/// was found, exactly that is visited, and the scheduler is exhausted.
pub proof fn lemma_single_match_complete(max_depth: nat, found: Seq<MatchView>)
    requires
        max_depth > 0,
        found.len() <= 1,
    ensures
        DfsState::initial(max_depth).admitted(found) == found,
        DfsState::initial(max_depth).step(found).visited == found,
        DfsState::initial(max_depth).step(found).exhausted(),
{
    let s = DfsState::initial(max_depth);
    lemma_abandoned(s.frontier, s.visited);
    let e = s.explored(found);
    if found.len() == 1 {
        assert(e.frontier =~= found);
    }
    assert(s.admitted(found) =~= found);
    assert(s.step(found).visited =~= found);
}

/// The depth-first scheduler.
#[derive(Debug)]
pub struct DFSScheduler {
    max_depth: usize,
    dfs_stack: Vec<DFSSearchMatches>,
    visited: Vec<DFSSearchMatches>,
    curr_depth: usize,
    has_been_initialized: bool,
}

impl View for DFSScheduler {
    type V = DfsState;

    closed spec fn view(&self) -> DfsState {
        DfsState {
            max_depth: self.max_depth as nat,
            curr_depth: self.curr_depth as nat,
            frontier: records_view(self.dfs_stack@),
            visited: records_view(self.visited@),
            initialized: self.has_been_initialized,
        }
    }
}

/// Whether a record equal to `m` is in `visited`.
fn contains(visited: &Vec<DFSSearchMatches>, m: &DFSSearchMatches) -> (found: bool)
    ensures
        found == class_visited(records_view(visited@), m.eclass),
{
    let mut i: usize = 0;
    while i < visited.len()
        invariant
            i <= visited.len(),
            forall|j: int| 0 <= j < i ==> visited[j].eclass != m.eclass,
        decreases visited.len() - i,
    {
        if visited[i] == *m {
            assert(records_view(visited@)[i as int].eclass == m.eclass);
            return true;
        }
        i += 1;
    }
    assert forall|j: int| 0 <= j < records_view(visited@).len() implies (#[trigger] records_view(
        visited@,
    )[j]).eclass != m.eclass by {
        assert(visited[j].eclass != m.eclass);
    }
    false
}

impl DFSScheduler {
    /// Sets the number of discovery rounds after which backtracking is
    /// forced. A new scheduler has 1,000.
    pub fn with_max_depth(self, max_depth: usize) -> (s: Self)
        ensures
            s@ == (DfsState {
                max_depth: max_depth as nat,
                curr_depth: self@.curr_depth,
                frontier: self@.frontier,
                visited: self@.visited,
                initialized: self@.initialized,
            }),
    {
        let mut s = self;
        s.max_depth = max_depth;
        s
    }

    /// Turns the matcher's records into records that the scheduler keeps,
    /// one for one and in the same order.
    pub fn get_dfssearchmatches(&mut self, sm: Vec<SearchMatches>) -> (dfs_sm: Vec<DFSSearchMatches>)
        ensures
            records_view(dfs_sm@) == matches_view(sm@),
            final(self)@ == old(self)@,
    {
        let mut rest = reversed(sm);
        let mut dfs_sm: Vec<DFSSearchMatches> = Vec::new();
        while rest.len() > 0
            invariant
                rest.len() + dfs_sm.len() == sm.len(),
                forall|j: int| 0 <= j < rest.len() ==> rest[j] == sm[sm.len() - 1 - j],
                forall|j: int| 0 <= j < dfs_sm.len() ==> (#[trigger] dfs_sm[j])@ == sm[j]@,
            decreases rest.len(),
        {
            let item = rest.pop();
            match item {
                Some(m) => {
                    dfs_sm.push(DFSSearchMatches { eclass: m.eclass, substs: m.substs, ast: m.ast });
                },
                None => {},
            }
        }
        assert(records_view(dfs_sm@) =~= matches_view(sm@));
        dfs_sm
    }

    /// A record for the driver with the content of a frontier record.
    pub fn dfssearchmatch_to_searchmatch(dfs_m: &DFSSearchMatches) -> (m: SearchMatches)
        ensures
            m@ == dfs_m@,
    {
        let eclass = dfs_m.eclass;
        let substs = duplicate_substs(&dfs_m.substs);
        let ast = duplicate_ast(&dfs_m.ast);
        SearchMatches { eclass, substs, ast }
    }

    /// Abandons the records in front of the first visited one.
    fn backtrack(&mut self)
        ensures
            final(self)@ == (DfsState { initialized: old(self)@.initialized, ..old(self)@.explored(Seq::empty()) }),
    {
        let ghost start = self@;
        let ghost mut dropped: nat = 0;
        while self.dfs_stack.len() > 0 && !contains(&self.visited, &self.dfs_stack[0])
            invariant
                self@.max_depth == start.max_depth,
                self@.visited == start.visited,
                self@.initialized == start.initialized,
                dropped <= start.frontier.len(),
                self@.frontier == start.frontier.skip(dropped as int),
                abandoned(start.frontier, start.visited) == dropped + abandoned(
                    self@.frontier,
                    start.visited,
                ),
                self@.curr_depth == if start.curr_depth >= dropped {
                    (start.curr_depth - dropped) as nat
                } else {
                    0
                },
            decreases self.dfs_stack.len(),
        {
            let ghost before = self@.frontier;
            self.dfs_stack.remove(0);
            if self.curr_depth > 0 {
                self.curr_depth -= 1;
            }
            proof {
                assert(self@.frontier =~= before.skip(1));
                assert(before.skip(1) =~= start.frontier.skip((dropped + 1) as int));
                dropped = dropped + 1;
            }
        }
    }
}

impl Default for DFSScheduler {
    fn default() -> (s: Self)
        ensures
            s@ == DfsState::initial(1000),
    {
        let s = DFSScheduler {
            max_depth: 1_000,
            dfs_stack: Vec::new(),
            visited: Vec::new(),
            curr_depth: 0,
            has_been_initialized: false,
        };
        assert(s@.frontier =~= Seq::empty());
        assert(s@.visited =~= Seq::empty());
        s
    }
}

impl RewriteScheduler for DFSScheduler {
    open spec fn may_stop(&self, iteration: usize) -> bool {
        self@.exhausted()
    }

    open spec fn wants_search(&self, iteration: usize, rule: Seq<char>) -> bool {
        self@.searches()
    }

    open spec fn admits(&self, iteration: usize, rule: Seq<char>, found: Seq<MatchView>) -> Seq<
        MatchView,
    > {
        self@.admitted(found)
    }

    /// True once the scheduler was called and its frontier is empty.
    fn can_stop(&mut self, iteration: usize) -> (stop: bool)
        ensures
            stop == old(self)@.exhausted(),
            final(self)@ == old(self)@,
    {
        self.has_been_initialized && self.dfs_stack.len() == 0
    }

    /// True below the depth limit.
    fn needs_search(&self, iteration: usize, rule: &str) -> (needed: bool)
        ensures
            needed == self@.searches(),
    {
        self.curr_depth < self.max_depth
    }

    /// Discovers or backtracks, then admits the first record of the
    /// frontier, if there is one.
    fn search_rewrite(&mut self, iteration: usize, rule: &str, matches: Vec<SearchMatches>) -> (admitted:
        Vec<SearchMatches>)
        ensures
            final(self)@ == old(self)@.step(matches_view(matches@)),
            matches_view(admitted@) == old(self)@.admitted(matches_view(matches@)),
    {
        let ghost found = matches_view(matches@);
        self.has_been_initialized = true;
        if self.curr_depth < self.max_depth && matches.len() > 0 {
            let mut dfs_matches = self.get_dfssearchmatches(matches);
            dfs_matches.append(&mut self.dfs_stack);
            self.dfs_stack = dfs_matches;
            self.curr_depth += 1;
            assert(self@.frontier =~= found + old(self)@.frontier);
        } else {
            self.backtrack();
        }
        assert(self@ == old(self)@.explored(found));
        let mut admitted: Vec<SearchMatches> = Vec::new();
        if self.dfs_stack.len() > 0 {
            let ghost e = self@;
            let top_of_stack = self.dfs_stack.remove(0);
            admitted.push(DFSScheduler::dfssearchmatch_to_searchmatch(&top_of_stack));
            self.visited.push(top_of_stack);
            assert(self@.frontier =~= e.frontier.skip(1));
            assert(self@.visited =~= e.visited.push(e.frontier[0]));
        }
        assert(matches_view(admitted@) =~= old(self)@.admitted(found));
        admitted
    }
}

} // verus!
