//! The depth-first strategy with backoff. For now it bans rules as the
//! backoff strategy does and adds nothing of its own.

use vstd::prelude::*;
use crate::matches::{matches_view, MatchView, SearchMatches};
use crate::rule_stats::{capped, total_substitutions, RuleStats};
use crate::run_backoff::{BackoffScheduler, BackoffState};
use crate::scheduler::RewriteScheduler;

verus! {

/// A scheduler that hands every call on to a backoff scheduler.
#[derive(Debug)]
pub struct DFSBackoffScheduler {
    backoff: BackoffScheduler,
}

impl View for DFSBackoffScheduler {
    type V = BackoffState;

    closed spec fn view(&self) -> BackoffState {
        self.backoff@
    }
}

impl Default for DFSBackoffScheduler {
    fn default() -> (s: Self)
        ensures
            s@ == BackoffState::initial(),
    {
        DFSBackoffScheduler { backoff: BackoffScheduler::default() }
    }
}

impl DFSBackoffScheduler {
    /// A scheduler that hands every call on to `backoff`.
    pub fn new(backoff: BackoffScheduler) -> (s: Self)
        ensures
            s@ == backoff@,
    {
        DFSBackoffScheduler { backoff }
    }

    /// The backoff scheduler that does the work.
    pub fn into_inner(self) -> (backoff: BackoffScheduler)
        ensures
            backoff@ == self@,
    {
        self.backoff
    }

    /// Sets the match limit that a rule starts with.
    pub fn with_initial_match_limit(self, limit: usize) -> (s: Self)
        ensures
            s@ == self@.with_defaults(limit, self@.default_ban_length),
    {
        DFSBackoffScheduler { backoff: self.backoff.with_initial_match_limit(limit) }
    }

    /// Sets the ban length that a rule starts with.
    pub fn with_ban_length(self, ban_length: usize) -> (s: Self)
        ensures
            s@ == self@.with_defaults(self@.default_match_limit, ban_length),
    {
        DFSBackoffScheduler { backoff: self.backoff.with_ban_length(ban_length) }
    }

    /// Sets the match limit of the rule `name`.
    pub fn rule_match_limit(self, name: &str, limit: usize) -> (s: Self)
        ensures
            s@ == self@.with_match_limit(name@, limit),
    {
        DFSBackoffScheduler { backoff: self.backoff.rule_match_limit(name, limit) }
    }

    /// Sets the ban length of the rule `name`.
    pub fn rule_ban_length(self, name: &str, length: usize) -> (s: Self)
        ensures
            s@ == self@.with_rule_ban_length(name@, length),
    {
        DFSBackoffScheduler { backoff: self.backoff.rule_ban_length(name, length) }
    }

    /// Gives the rule `name` the largest match limit there is, so that it is
    /// never banned.
    pub fn do_not_ban(self, name: &str) -> (s: Self)
        ensures
            s@ == self@.with_match_limit(name@, usize::MAX),
    {
        DFSBackoffScheduler { backoff: self.backoff.do_not_ban(name) }
    }

    /// The statistics of the rule `name`; those of a new rule if it was
    /// never referred to.
    pub fn stats(&self, name: &str) -> (stats: RuleStats)
        ensures
            stats == self@.stats_of(name@),
    {
        self.backoff.stats(name)
    }
}

impl RewriteScheduler for DFSBackoffScheduler {
    open spec fn may_stop(&self, iteration: usize) -> bool {
        !self@.any_banned(iteration)
    }

    open spec fn wants_search(&self, iteration: usize, rule: Seq<char>) -> bool {
        !self@.stats_of(rule).is_banned(iteration)
    }

    open spec fn admits(&self, iteration: usize, rule: Seq<char>, found: Seq<MatchView>) -> Seq<
        MatchView,
    > {
        self@.admitted(iteration, rule, found)
    }

    fn can_stop(&mut self, iteration: usize) -> (stop: bool)
        ensures
            stop == !old(self)@.any_banned(iteration),
            stop ==> final(self)@ == old(self)@,
            !stop ==> final(self)@ == old(self)@.fast_forwarded(iteration),
            !stop ==> final(self)@.expires_at(iteration),
    {
        self.backoff.can_stop(iteration)
    }

    fn needs_search(&self, iteration: usize, rule: &str) -> (needed: bool)
        ensures
            needed == !self@.stats_of(rule@).is_banned(iteration),
    {
        self.backoff.needs_search(iteration, rule)
    }

    fn search_rewrite(&mut self, iteration: usize, rule: &str, matches: Vec<SearchMatches>) -> (admitted:
        Vec<SearchMatches>)
        ensures
            final(self)@ == old(self)@.searched(
                iteration,
                rule@,
                capped(total_substitutions(matches_view(matches@)) as int),
            ),
            matches_view(admitted@) == old(self)@.admitted(iteration, rule@, matches_view(matches@)),
    {
        self.backoff.search_rewrite(iteration, rule, matches)
    }
}

} // verus!
