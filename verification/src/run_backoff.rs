//! The frequency-backoff strategy: a rule whose matches exceed a threshold
//! is banned for a number of iterations, and both the threshold and the
//! length of the ban double with every ban.

use vstd::prelude::*;
use crate::matches::{matches_view, MatchView, SearchMatches};
use crate::rule_stats::{capped, count_substitutions, total_substitutions, RuleStats};
use crate::scheduler::RewriteScheduler;

verus! {

/// A rule's name with its statistics, as mathematical values.
pub struct RuleView {
    pub name: Seq<char>,
    pub stats: RuleStats,
}

/// The position of the first rule called `name`, or the number of rules if
/// there is none.
pub open spec fn index_in(rules: Seq<RuleView>, name: Seq<char>) -> int
    decreases rules.len(),
{
    if rules.len() == 0 || rules[0].name == name {
        0
    } else {
        1 + index_in(rules.skip(1), name)
    }
}

/// The state of the backoff strategy, as mathematical values.
pub struct BackoffState {
    /// The match limit that a rule starts with.
    pub default_match_limit: usize,
    /// The ban length that a rule starts with.
    pub default_ban_length: usize,
    /// The rules that were referred to, in the order of their first mention.
    pub rules: Seq<RuleView>,
}

impl BackoffState {
    /// The state of a new scheduler: no rule was referred to yet, and a
    /// rule starts with a match limit of 1,000 and a ban length of 5.
    pub open spec fn initial() -> BackoffState {
        BackoffState { default_match_limit: 1000, default_ban_length: 5, rules: Seq::empty() }
    }

    /// The position of the rule `name`, or the number of rules if it was
    /// never referred to.
    pub open spec fn rule_at(self, name: Seq<char>) -> int {
        index_in(self.rules, name)
    }

    /// Whether the rule `name` was referred to.
    pub open spec fn has_rule(self, name: Seq<char>) -> bool {
        self.rule_at(name) < self.rules.len()
    }

    /// The statistics of the rule `name`; those of a new rule if it was
    /// never referred to.
    pub open spec fn stats_of(self, name: Seq<char>) -> RuleStats {
        if self.has_rule(name) {
            self.rules[self.rule_at(name)].stats
        } else {
            RuleStats::fresh(self.default_match_limit, self.default_ban_length)
        }
    }

    /// The state in which the rule `name` has the statistics `stats`. A rule
    /// that was never referred to becomes the last one.
    pub open spec fn with_stats(self, name: Seq<char>, stats: RuleStats) -> BackoffState {
        let entry = RuleView { name, stats };
        BackoffState {
            default_match_limit: self.default_match_limit,
            default_ban_length: self.default_ban_length,
            rules: if self.has_rule(name) {
                self.rules.update(self.rule_at(name), entry)
            } else {
                self.rules.push(entry)
            },
        }
    }

    /// The state in which the rule `name` has the match limit `limit`.
    pub open spec fn with_match_limit(self, name: Seq<char>, limit: usize) -> BackoffState {
        self.with_stats(name, RuleStats { match_limit: limit, ..self.stats_of(name) })
    }

    /// The state in which the rule `name` has the ban length `length`.
    pub open spec fn with_rule_ban_length(self, name: Seq<char>, length: usize) -> BackoffState {
        self.with_stats(name, RuleStats { ban_length: length, ..self.stats_of(name) })
    }

    /// The state in which a rule starts with `match_limit` and
    /// `ban_length`.
    pub open spec fn with_defaults(self, match_limit: usize, ban_length: usize) -> BackoffState {
        BackoffState {
            default_match_limit: match_limit,
            default_ban_length: ban_length,
            rules: self.rules,
        }
    }

    /// The state after the rule `name` came up in `iteration` and, unless
    /// it was banned, the matcher found `total` substitutions.
    pub open spec fn searched(self, iteration: usize, name: Seq<char>, total: usize) -> BackoffState {
        self.with_stats(name, self.stats_of(name).searched(iteration, total))
    }

    /// What is admitted of `found`, the matches of the rule `name` in
    /// `iteration`: all of it, or nothing where the rule is banned or the
    /// substitutions in `found` exceed its threshold.
    pub open spec fn admitted(self, iteration: usize, name: Seq<char>, found: Seq<MatchView>) -> Seq<
        MatchView,
    > {
        if self.stats_of(name).admits(iteration, capped(total_substitutions(found) as int)) {
            found
        } else {
            Seq::empty()
        }
    }

    /// Whether some rule may not fire in `iteration`.
    pub open spec fn any_banned(self, iteration: usize) -> bool {
        exists|i: int| 0 <= i < self.rules.len() && (#[trigger] self.rules[i]).stats.is_banned(iteration)
    }

    /// Whether `m` is the iteration in which the first of the running bans
    /// ends.
    pub open spec fn is_next_expiry(self, iteration: usize, m: usize) -> bool {
        &&& m > iteration
        &&& exists|i: int| 0 <= i < self.rules.len() && (#[trigger] self.rules[i]).stats.banned_until == m
        &&& forall|i: int| 0 <= i < self.rules.len() && (#[trigger] self.rules[i]).stats.is_banned(iteration)
                ==> self.rules[i].stats.banned_until >= m
    }

    /// The iteration in which the first of the running bans ends.
    pub open spec fn next_expiry(self, iteration: usize) -> usize {
        choose|m: usize| self.is_next_expiry(iteration, m)
    }

    /// The state after every running ban was shortened by the time that is
    /// left of the shortest one.
    pub open spec fn fast_forwarded(self, iteration: usize) -> BackoffState {
        let delta = self.next_expiry(iteration) - iteration;
        BackoffState {
            default_match_limit: self.default_match_limit,
            default_ban_length: self.default_ban_length,
            rules: Seq::new(
                self.rules.len(),
                |i: int|
                    RuleView {
                        name: self.rules[i].name,
                        stats: self.rules[i].stats.fast_forwarded(iteration, delta),
                    },
            ),
        }
    }

    /// Whether the ban of some rule ends in `iteration`.
    pub open spec fn expires_at(self, iteration: usize) -> bool {
        exists|i: int| 0 <= i < self.rules.len() && (#[trigger] self.rules[i]).stats.banned_until == iteration
    }
}

/// What `index_in` returns: a position of `rules` or their number, and the
/// rule at the position has the name.
pub proof fn lemma_index_in(rules: Seq<RuleView>, name: Seq<char>)
    ensures
        0 <= index_in(rules, name) <= rules.len(),
        index_in(rules, name) < rules.len() ==> rules[index_in(rules, name)].name == name,
        forall|j: int| 0 <= j < index_in(rules, name) ==> (#[trigger] rules[j]).name != name,
    decreases rules.len(),
{
    if rules.len() != 0 && rules[0].name != name {
        let rest = rules.skip(1);
        lemma_index_in(rest, name);
        assert forall|j: int| 0 <= j < index_in(rules, name) implies (#[trigger] rules[j]).name
            != name by {
            if j > 0 {
                assert(rest[j - 1] == rules[j]);
            }
        }
    }
}

proof fn lemma_expiry_among(state: BackoffState, iteration: usize, n: int) -> (m: Option<usize>)
    requires
        0 <= n <= state.rules.len(),
    ensures
        match m {
            None => forall|j: int| 0 <= j < n ==> !(#[trigger] state.rules[j]).stats.is_banned(iteration),
            Some(m) => {
                &&& m > iteration
                &&& exists|j: int| 0 <= j < n && (#[trigger] state.rules[j]).stats.banned_until == m
                &&& forall|j: int| 0 <= j < n && (#[trigger] state.rules[j]).stats.is_banned(iteration)
                        ==> state.rules[j].stats.banned_until >= m
            },
        },
    decreases n,
{
    if n == 0 {
        None
    } else {
        let before = lemma_expiry_among(state, iteration, n - 1);
        let until = state.rules[n - 1].stats.banned_until;
        if until > iteration {
            match before {
                None => Some(until),
                Some(m) => if until < m {
                    Some(until)
                } else {
                    Some(m)
                },
            }
        } else {
            before
        }
    }
}

/// While a rule is banned there is a first iteration in which a
/// ban ends, and after the bans were shortened by the time until then, the
/// ban of some rule ends in the current iteration. No ban is shortened
/// past the current iteration, and a rule that was free stays as it was.
pub proof fn lemma_fast_forward_frees_a_rule(state: BackoffState, iteration: usize)
    requires
        state.any_banned(iteration),
    ensures
        state.is_next_expiry(iteration, state.next_expiry(iteration)),
        state.fast_forwarded(iteration).expires_at(iteration),
        forall|i: int| 0 <= i < state.rules.len() ==> (#[trigger] state.fast_forwarded(iteration).rules[i]).stats.banned_until
            >= iteration || !state.rules[i].stats.is_banned(iteration),
        forall|i: int| 0 <= i < state.rules.len() && !(#[trigger] state.rules[i]).stats.is_banned(iteration)
            ==> state.fast_forwarded(iteration).rules[i] == state.rules[i],
{
    let found = lemma_expiry_among(state, iteration, state.rules.len() as int);
    let m = found->Some_0;
    assert(state.is_next_expiry(iteration, m));
    let c = state.next_expiry(iteration);
    let w = choose|j: int| 0 <= j < state.rules.len() && (#[trigger] state.rules[j]).stats.banned_until == c;
    assert(state.fast_forwarded(iteration).rules[w].stats.banned_until == iteration);
}

/// The position that `index_in` returns is the only one in front of which
/// no rule has the name and at which, if it is a position of `rules`, the
/// rule has it.
pub proof fn lemma_index_in_unique(rules: Seq<RuleView>, name: Seq<char>, i: int)
    requires
        0 <= i <= rules.len(),
        forall|j: int| 0 <= j < i ==> (#[trigger] rules[j]).name != name,
        i < rules.len() ==> rules[i].name == name,
    ensures
        index_in(rules, name) == i,
{
    lemma_index_in(rules, name);
    let k = index_in(rules, name);
    if k < i {
        assert(rules[k].name == name);
    }
}

/// Statistics are kept per rule: after the statistics of one rule were
/// set, they are what was set, and those of every other rule are what
/// they were.
pub proof fn lemma_stats_are_per_rule(
    state: BackoffState,
    name: Seq<char>,
    stats: RuleStats,
    other: Seq<char>,
)
    ensures
        state.with_stats(name, stats).has_rule(name),
        state.with_stats(name, stats).stats_of(name) == stats,
        other != name ==> state.with_stats(name, stats).has_rule(other) == state.has_rule(other),
        other != name ==> state.with_stats(name, stats).stats_of(other) == state.stats_of(other),
{
    let after = state.with_stats(name, stats);
    lemma_index_in(state.rules, name);
    lemma_index_in(state.rules, other);
    let i = index_in(state.rules, name);
    assert forall|j: int| 0 <= j < i implies (#[trigger] after.rules[j]).name != name by {
        assert(after.rules[j] == state.rules[j]);
    }
    lemma_index_in_unique(after.rules, name, i);
    if other != name {
        let k = index_in(state.rules, other);
        if k < state.rules.len() {
            assert forall|j: int| 0 <= j < k implies (#[trigger] after.rules[j]).name != other by {
                if j != i {
                    assert(after.rules[j] == state.rules[j]);
                }
            }
            assert(after.rules[k] == state.rules[k]);
            lemma_index_in_unique(after.rules, other, k);
        } else {
            assert forall|j: int| 0 <= j < after.rules.len() implies (#[trigger] after.rules[j]).name
                != other by {
                if j != i {
                    assert(after.rules[j] == state.rules[j]);
                }
            }
            lemma_index_in_unique(after.rules, other, after.rules.len() as int);
        }
    }
}

#[derive(Debug)]
struct RuleEntry {
    name: String,
    stats: RuleStats,
}

/// The backoff scheduler.
#[derive(Debug)]
pub struct BackoffScheduler {
    default_match_limit: usize,
    default_ban_length: usize,
    rules: Vec<RuleEntry>,
}

impl View for BackoffScheduler {
    type V = BackoffState;

    closed spec fn view(&self) -> BackoffState {
        BackoffState {
            default_match_limit: self.default_match_limit,
            default_ban_length: self.default_ban_length,
            rules: Seq::new(
                self.rules@.len(),
                |i: int| RuleView { name: self.rules@[i].name@, stats: self.rules@[i].stats },
            ),
        }
    }
}

impl Default for BackoffScheduler {
    fn default() -> (s: Self)
        ensures
            s@ == BackoffState::initial(),
    {
        let s = BackoffScheduler {
            default_match_limit: 1_000,
            default_ban_length: 5,
            rules: Vec::new(),
        };
        assert(s@.rules =~= Seq::empty());
        s
    }
}

impl BackoffScheduler {
    /// The position of the rule `name`, or the number of rules.
    fn find(&self, name: &str) -> (i: usize)
        ensures
            i == self@.rule_at(name@),
            i <= self.rules.len(),
            i < self.rules.len() ==> self@.rules[i as int].name == name@,
    {
        let owned = name.to_owned();
        let ghost all = self@.rules;
        let mut i: usize = 0;
        proof {
            assert(all.skip(0) =~= all);
        }
        while i < self.rules.len()
            invariant
                i <= self.rules.len(),
                all == self@.rules,
                all.len() == self.rules.len(),
                owned@ == name@,
                index_in(all, name@) == i + index_in(all.skip(i as int), name@),
            decreases self.rules.len() - i,
        {
            assert(all.skip(i as int)[0] == all[i as int]);
            if self.rules[i].name == owned {
                return i;
            }
            proof {
                assert(all.skip(i as int).skip(1) =~= all.skip(i + 1));
            }
            i += 1;
        }
        i
    }

    /// The position of the rule `name`, which becomes the last rule if it
    /// was never referred to.
    fn rule_stats(&mut self, name: &str) -> (i: usize)
        ensures
            i == old(self)@.rule_at(name@),
            i < final(self).rules.len(),
            final(self)@ == old(self)@.with_stats(name@, old(self)@.stats_of(name@)),
            final(self)@.rules[i as int] == (RuleView { name: name@, stats: old(self)@.stats_of(name@) }),
    {
        let i = self.find(name);
        if i == self.rules.len() {
            let stats = RuleStats::new(self.default_match_limit, self.default_ban_length);
            self.rules.push(RuleEntry { name: name.to_owned(), stats });
        }
        assert(self@.rules =~= old(self)@.with_stats(name@, old(self)@.stats_of(name@)).rules);
        i
    }

    /// Sets the match limit that a rule starts with. A new scheduler has
    /// 1,000.
    pub fn with_initial_match_limit(self, limit: usize) -> (s: Self)
        ensures
            s@ == self@.with_defaults(limit, self@.default_ban_length),
    {
        let mut s = self;
        s.default_match_limit = limit;
        s
    }

    /// Sets the ban length that a rule starts with. A new scheduler has 5.
    pub fn with_ban_length(self, ban_length: usize) -> (s: Self)
        ensures
            s@ == self@.with_defaults(self@.default_match_limit, ban_length),
    {
        let mut s = self;
        s.default_ban_length = ban_length;
        s
    }

    /// Sets the match limit of the rule `name`.
    pub fn rule_match_limit(self, name: &str, limit: usize) -> (s: Self)
        ensures
            s@ == self@.with_match_limit(name@, limit),
    {
        let mut s = self;
        let i = s.rule_stats(name);
        let ghost mid = s@;
        s.rules[i].stats.match_limit = limit;
        proof {
            let stats = s.rules[i as int].stats;
            assert(s@.rules =~= mid.rules.update(i as int, RuleView { name: name@, stats }));
            assert(s@.rules =~= self@.with_stats(name@, stats).rules);
        }
        s
    }

    /// Sets the ban length of the rule `name`.
    pub fn rule_ban_length(self, name: &str, length: usize) -> (s: Self)
        ensures
            s@ == self@.with_rule_ban_length(name@, length),
    {
        let mut s = self;
        let i = s.rule_stats(name);
        let ghost mid = s@;
        s.rules[i].stats.ban_length = length;
        proof {
            let stats = s.rules[i as int].stats;
            assert(s@.rules =~= mid.rules.update(i as int, RuleView { name: name@, stats }));
            assert(s@.rules =~= self@.with_stats(name@, stats).rules);
        }
        s
    }

    /// Gives the rule `name` the largest match limit there is, so that it is
    /// never banned.
    pub fn do_not_ban(self, name: &str) -> (s: Self)
        ensures
            s@ == self@.with_match_limit(name@, usize::MAX),
    {
        self.rule_match_limit(name, usize::MAX)
    }

    /// The statistics of the rule `name`; those of a new rule if it was
    /// never referred to.
    pub fn stats(&self, name: &str) -> (stats: RuleStats)
        ensures
            stats == self@.stats_of(name@),
    {
        let i = self.find(name);
        if i < self.rules.len() {
            self.rules[i].stats
        } else {
            RuleStats::new(self.default_match_limit, self.default_ban_length)
        }
    }
}

impl RewriteScheduler for BackoffScheduler {
    open spec fn may_stop(&self, iteration: usize) -> bool {
        !self@.any_banned(iteration)
    }

    open spec fn wants_search(&self, iteration: usize, rule: Seq<char>) -> bool {
        !self@.stats_of(rule).is_banned(iteration)
    }

    open spec fn admits(&self, iteration: usize, rule: Seq<char>, found: Seq<MatchView>) -> Seq<
        MatchView,
    > {
        self@.admitted(iteration, rule, found)
    }

    /// True if no rule is banned in `iteration`. Otherwise every running
    /// ban is shortened by what is left of the shortest one, so that a rule
    /// is free again in `iteration`, and the answer is no.
    fn can_stop(&mut self, iteration: usize) -> (stop: bool)
        ensures
            stop == !old(self)@.any_banned(iteration),
            stop ==> final(self)@ == old(self)@,
            !stop ==> old(self)@.is_next_expiry(iteration, old(self)@.next_expiry(iteration)),
            !stop ==> final(self)@ == old(self)@.fast_forwarded(iteration),
            !stop ==> final(self)@.expires_at(iteration),
    {
        let ghost start = self@;
        let mut min_ban: Option<usize> = None;
        let mut i: usize = 0;
        while i < self.rules.len()
            invariant
                i <= self.rules.len(),
                self@ == start,
                start.rules.len() == self.rules.len(),
                match min_ban {
                    None => forall|j: int| 0 <= j < i ==> !(#[trigger] start.rules[j]).stats.is_banned(iteration),
                    Some(m) => {
                        &&& m > iteration
                        &&& exists|j: int| 0 <= j < i && (#[trigger] start.rules[j]).stats.banned_until == m
                        &&& forall|j: int| 0 <= j < i && (#[trigger] start.rules[j]).stats.is_banned(iteration)
                                ==> start.rules[j].stats.banned_until >= m
                    },
                },
            decreases self.rules.len() - i,
        {
            let until = self.rules[i].stats.banned_until;
            assert(start.rules[i as int].stats.banned_until == until);
            if until > iteration {
                min_ban = match min_ban {
                    None => Some(until),
                    Some(m) => if until < m {
                        Some(until)
                    } else {
                        Some(m)
                    },
                };
            }
            i += 1;
        }
        match min_ban {
            None => true,
            Some(m) => {
                let delta = m - iteration;
                proof {
                    assert(start.is_next_expiry(iteration, m));
                    let c = start.next_expiry(iteration);
                    assert(start.is_next_expiry(iteration, c));
                    assert(c == m);
                }
                let mut k: usize = 0;
                while k < self.rules.len()
                    invariant
                        k <= self.rules.len(),
                        start.rules.len() == self.rules.len(),
                        self@.default_match_limit == start.default_match_limit,
                        self@.default_ban_length == start.default_ban_length,
                        delta == m - iteration,
                        m > iteration,
                        forall|j: int| 0 <= j < start.rules.len() && (#[trigger] start.rules[j]).stats.is_banned(iteration)
                                ==> start.rules[j].stats.banned_until >= m,
                        forall|j: int| 0 <= j < k ==> (#[trigger] self@.rules[j]) == (RuleView {
                            name: start.rules[j].name,
                            stats: start.rules[j].stats.fast_forwarded(iteration, delta as int),
                        }),
                        forall|j: int| k <= j < self.rules.len() ==> (#[trigger] self@.rules[j]) == start.rules[j],
                    decreases self.rules.len() - k,
                {
                    let ghost before = self@;
                    assert(before.rules[k as int] == start.rules[k as int]);
                    if self.rules[k].stats.banned_until > iteration {
                        let until = self.rules[k].stats.banned_until;
                        self.rules[k].stats.banned_until = until - delta;
                    }
                    proof {
                        assert forall|j: int| 0 <= j < self.rules.len() && j != k implies (#[trigger] self@.rules[j]) == before.rules[j] by {}
                    }
                    k += 1;
                }
                proof {
                    assert(self@.rules =~= start.fast_forwarded(iteration).rules);
                    let w = choose|j: int| 0 <= j < start.rules.len() && (#[trigger] start.rules[j]).stats.banned_until == m;
                    assert(self@.rules[w].stats.banned_until == iteration);
                }
                false
            },
        }
    }

    /// True unless the rule is banned in `iteration`.
    fn needs_search(&self, iteration: usize, rule: &str) -> (needed: bool)
        ensures
            needed == !self@.stats_of(rule@).is_banned(iteration),
    {
        let stats = self.stats(rule);
        !(iteration < stats.banned_until)
    }

    /// Returns nothing for a banned rule, whatever `matches` holds. For
    /// another rule it counts the substitutions: above the threshold the
    /// rule is banned and nothing is admitted, else everything is.
    fn search_rewrite(&mut self, iteration: usize, rule: &str, matches: Vec<SearchMatches>) -> (admitted:
        Vec<SearchMatches>)
        ensures
            final(self)@ == old(self)@.searched(
                iteration,
                rule@,
                capped(total_substitutions(matches_view(matches@)) as int),
            ),
            matches_view(admitted@) == old(self)@.admitted(iteration, rule@, matches_view(matches@)),
    {
        let i = self.rule_stats(rule);
        let ghost mid = self@;
        let ghost stats = old(self)@.stats_of(rule@);
        let admitted = if iteration < self.rules[i].stats.banned_until {
            Vec::new()
        } else {
            let total = count_substitutions(&matches);
            let mut st = self.rules[i].stats;
            let admits = st.record(iteration, total);
            self.rules[i].stats = st;
            if admits {
                matches
            } else {
                Vec::new()
            }
        };
        proof {
            let total = capped(total_substitutions(matches_view(matches@)) as int);
            assert(self@.rules =~= mid.rules.update(
                i as int,
                RuleView { name: rule@, stats: stats.searched(iteration, total) },
            ));
            assert(self@.rules =~= old(self)@.searched(iteration, rule@, total).rules);
            if !stats.admits(iteration, total) {
                assert(matches_view(admitted@) =~= Seq::empty());
            }
        }
        admitted
    }
}

} // verus!
