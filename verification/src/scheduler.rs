//! The interface that every admission strategy implements.

use vstd::prelude::*;
use crate::matches::{matches_view, MatchView, SearchMatches};

verus! {

/// A strategy that decides which matches of a rule are applied.
///
/// In every iteration the driver goes through the rules in registration
/// order: it asks `needs_search`, runs the matcher where the answer is yes,
/// hands what the matcher found to `search_rewrite`, and applies what comes
/// back. Once per iteration it asks `can_stop` whether the loop may end.
///
/// What the three operations answer is laid down by three specification
/// functions. A strategy that defines none of them admits everything,
/// always searches and leaves termination to the driver.
pub trait RewriteScheduler {
    /// Whether the strategy lets the loop end in `iteration`.
    open spec fn may_stop(&self, iteration: usize) -> bool {
        true
    }

    /// Whether the strategy reads what the matcher finds for `rule` in
    /// `iteration`.
    open spec fn wants_search(&self, iteration: usize, rule: Seq<char>) -> bool {
        true
    }

    /// What the strategy admits of `found`, the matches of `rule` in
    /// `iteration`.
    open spec fn admits(&self, iteration: usize, rule: Seq<char>, found: Seq<MatchView>) -> Seq<
        MatchView,
    > {
        found
    }

    /// Whether the driver may end the saturation loop.
    fn can_stop(&mut self, iteration: usize) -> (stop: bool)
        ensures
            stop == old(self).may_stop(iteration),
    ;

    /// Whether the matcher has to be run for `rule` in this iteration. Where
    /// the answer is no, `search_rewrite` does not read the matches it is
    /// given.
    fn needs_search(&self, iteration: usize, rule: &str) -> (needed: bool)
        ensures
            needed == self.wants_search(iteration, rule@),
    ;

    /// Takes the matches that the matcher found for `rule` and returns those
    /// that are admitted.
    fn search_rewrite(&mut self, iteration: usize, rule: &str, matches: Vec<SearchMatches>) -> (admitted:
        Vec<SearchMatches>)
        ensures
            matches_view(admitted@) == old(self).admits(iteration, rule@, matches_view(matches@)),
    ;
}

} // verus!
