//! The unrestricted strategy: every match is admitted.

use vstd::prelude::*;
use crate::matches::SearchMatches;
use crate::scheduler::RewriteScheduler;

verus! {

/// Admits whatever the matcher found and leaves termination to the driver.
/// It has no state and keeps to what the interface lays down for a strategy
/// that decides nothing itself.
#[derive(Debug)]
pub struct BFSScheduler {}

impl Default for BFSScheduler {
    fn default() -> (s: Self)
        ensures
            s == (BFSScheduler {}),
    {
        BFSScheduler {}
    }
}

impl RewriteScheduler for BFSScheduler {
    fn can_stop(&mut self, iteration: usize) -> (stop: bool)
        ensures
            stop,
            *final(self) == *old(self),
    {
        true
    }

    fn needs_search(&self, iteration: usize, rule: &str) -> (needed: bool)
        ensures
            needed,
    {
        true
    }

    fn search_rewrite(&mut self, iteration: usize, rule: &str, matches: Vec<SearchMatches>) -> (admitted:
        Vec<SearchMatches>)
        ensures
            admitted == matches,
            *final(self) == *old(self),
    {
        matches
    }
}

} // verus!
