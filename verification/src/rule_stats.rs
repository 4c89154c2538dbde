//! The statistics that the backoff strategy keeps of one rule, and the
//! arithmetic of thresholds and bans.
//!
//! All counters are machine integers. A product or a sum that does not fit
//! stays at `usize::MAX`.

use vstd::prelude::*;
use crate::matches::{matches_view, MatchView, SearchMatches};

verus! {

/// Two to the power of `k`.
pub open spec fn pow2(k: nat) -> nat
    decreases k,
{
    if k == 0 {
        1
    } else {
        2 * pow2((k - 1) as nat)
    }
}

/// The number `n`, or `usize::MAX` where `n` does not fit.
pub open spec fn capped(n: int) -> usize {
    if n <= usize::MAX {
        n as usize
    } else {
        usize::MAX
    }
}

/// The number of substitutions in all of `found`.
pub open spec fn total_substitutions(found: Seq<MatchView>) -> nat
    decreases found.len(),
{
    if found.len() == 0 {
        0
    } else {
        total_substitutions(found.drop_last()) + found.last().substs.len()
    }
}

/// What the scheduler knows of one rule.
#[derive(Clone, Copy, PartialEq, Eq, Structural, Debug)]
pub struct RuleStats {
    /// How often the rule's matches were admitted.
    pub times_applied: usize,
    /// The first iteration in which the rule may fire again.
    pub banned_until: usize,
    /// How often the rule was banned.
    pub times_banned: usize,
    /// The threshold before the first ban.
    pub match_limit: usize,
    /// The length of the first ban, in iterations.
    pub ban_length: usize,
}

impl RuleStats {
    /// The statistics of a rule that was never searched.
    pub open spec fn fresh(match_limit: usize, ban_length: usize) -> RuleStats {
        RuleStats { times_applied: 0, banned_until: 0, times_banned: 0, match_limit, ban_length }
    }

    /// The number of substitutions above which the rule is banned: the
    /// match limit, doubled once for every ban so far.
    pub open spec fn threshold(self) -> usize {
        capped(self.match_limit * pow2(self.times_banned as nat))
    }

    /// The length of the next ban: the ban length, doubled once for every
    /// ban so far.
    pub open spec fn ban_span(self) -> usize {
        capped(self.ban_length * pow2(self.times_banned as nat))
    }

    /// Whether the rule may not fire in `iteration`.
    pub open spec fn is_banned(self, iteration: usize) -> bool {
        iteration < self.banned_until
    }

    /// Whether a search in `iteration` that found `total` substitutions is
    /// admitted.
    pub open spec fn admits(self, iteration: usize, total: usize) -> bool {
        !self.is_banned(iteration) && total <= self.threshold()
    }

    /// The statistics after a ban that starts in `iteration`.
    pub open spec fn banned_from(self, iteration: usize) -> RuleStats {
        RuleStats {
            times_applied: self.times_applied,
            banned_until: capped(iteration + self.ban_span()),
            times_banned: capped(self.times_banned + 1),
            match_limit: self.match_limit,
            ban_length: self.ban_length,
        }
    }

    /// The statistics after the rule's matches were admitted.
    pub open spec fn applied(self) -> RuleStats {
        RuleStats {
            times_applied: capped(self.times_applied + 1),
            banned_until: self.banned_until,
            times_banned: self.times_banned,
            match_limit: self.match_limit,
            ban_length: self.ban_length,
        }
    }

    /// The statistics after the rule came up in `iteration` and, unless it
    /// was banned, the matcher found `total` substitutions.
    pub open spec fn searched(self, iteration: usize, total: usize) -> RuleStats {
        if self.is_banned(iteration) {
            self
        } else if total > self.threshold() {
            self.banned_from(iteration)
        } else {
            self.applied()
        }
    }

    /// The statistics after a ban that is running in `iteration` was
    /// shortened by `delta` iterations.
    pub open spec fn fast_forwarded(self, iteration: usize, delta: int) -> RuleStats {
        if self.is_banned(iteration) {
            RuleStats {
                times_applied: self.times_applied,
                banned_until: (self.banned_until - delta) as usize,
                times_banned: self.times_banned,
                match_limit: self.match_limit,
                ban_length: self.ban_length,
            }
        } else {
            self
        }
    }

    /// The statistics of a rule that was never searched.
    pub fn new(match_limit: usize, ban_length: usize) -> (s: RuleStats)
        ensures
            s == RuleStats::fresh(match_limit, ban_length),
    {
        RuleStats { times_applied: 0, banned_until: 0, times_banned: 0, match_limit, ban_length }
    }

    /// Computes the threshold.
    pub fn match_threshold(&self) -> (t: usize)
        ensures
            t == self.threshold(),
    {
        doubled(self.match_limit, self.times_banned)
    }

    /// Computes the length of the next ban.
    pub fn ban_duration(&self) -> (d: usize)
        ensures
            d == self.ban_span(),
    {
        doubled(self.ban_length, self.times_banned)
    }

    /// Records that the rule came up in `iteration` and that the matcher
    /// found `total` substitutions, and says whether the matches are
    /// admitted. A banned rule stays as it is.
    pub fn record(&mut self, iteration: usize, total: usize) -> (admits: bool)
        ensures
            *final(self) == old(self).searched(iteration, total),
            admits == old(self).admits(iteration, total),
    {
        if iteration < self.banned_until {
            return false;
        }
        let threshold = self.match_threshold();
        if total > threshold {
            let span = self.ban_duration();
            self.banned_until = if span > usize::MAX - iteration {
                usize::MAX
            } else {
                iteration + span
            };
            if self.times_banned < usize::MAX {
                self.times_banned += 1;
            }
            false
        } else {
            if self.times_applied < usize::MAX {
                self.times_applied += 1;
            }
            true
        }
    }
}

/// Every further doubling at least doubles.
pub proof fn lemma_pow2_grows(j: nat, k: nat)
    requires
        j < k,
    ensures
        pow2(k) >= 2 * pow2(j),
        pow2(j) >= 1,
    decreases k,
{
    if j > 0 {
        lemma_pow2_grows((j - 1) as nat, (k - 1) as nat);
    } else if k > 1 {
        lemma_pow2_grows(0, (k - 1) as nat);
    }
}

/// `base` doubled `times` times, capped.
fn doubled(base: usize, times: usize) -> (r: usize)
    ensures
        r == capped(base * pow2(times as nat)),
{
    if base == 0 {
        assert(0 * pow2(times as nat) == 0);
        return 0;
    }
    let mut r: usize = base;
    let mut j: usize = 0;
    assert(pow2(0) == 1);
    assert(base * pow2(0) == base);
    while j < times
        invariant
            j <= times,
            base >= 1,
            r == base * pow2(j as nat),
        decreases times - j,
    {
        if r > usize::MAX / 2 {
            proof {
                lemma_pow2_grows(j as nat, times as nat);
                let a = pow2(j as nat) as int;
                let b = pow2(times as nat) as int;
                assert(base * b >= 2 * (base * a)) by (nonlinear_arith)
                    requires
                        b >= 2 * a,
                        base >= 1,
                ;
            }
            return usize::MAX;
        }
        proof {
            let a = pow2(j as nat) as int;
            assert(pow2((j + 1) as nat) == 2 * a);
            assert(base * (2 * a) == 2 * (base * a)) by (nonlinear_arith);
        }
        r = r * 2;
        j += 1;
    }
    r
}

/// Counts the substitutions in all of `matches`.
pub fn count_substitutions(matches: &Vec<SearchMatches>) -> (total: usize)
    ensures
        total == capped(total_substitutions(matches_view(matches@)) as int),
{
    let ghost found = matches_view(matches@);
    let mut total: usize = 0;
    let mut i: usize = 0;
    assert(found.take(0).len() == 0);
    while i < matches.len()
        invariant
            i <= matches.len(),
            found == matches_view(matches@),
            total == capped(total_substitutions(found.take(i as int)) as int),
        decreases matches.len() - i,
    {
        let n = matches[i].substs.len();
        proof {
            assert(found.take(i + 1).drop_last() =~= found.take(i as int));
            assert(found.take(i + 1).last() == found[i as int]);
            assert(found[i as int].substs.len() == n);
        }
        total = if n > usize::MAX - total {
            usize::MAX
        } else {
            total + n
        };
        i += 1;
    }
    assert(found.take(matches.len() as int) =~= found);
    total
}

/// Two to the power of `k` is more than `k`.
pub proof fn lemma_pow2_exceeds(k: nat)
    ensures
        pow2(k) > k,
    decreases k,
{
    if k > 0 {
        lemma_pow2_exceeds((k - 1) as nat);
    }
}

/// A rule that is banned in `iteration` after `k = times_banned`
/// earlier bans is banned until iteration `iteration + ban_length * 2^k`:
/// it may not fire before that iteration and may fire in it. The threshold
/// that its next search is held to is twice the one that it exceeded. Where
/// a sum or a product does not fit, `usize::MAX` stands for it.
pub proof fn lemma_ban_backoff(stats: RuleStats, iteration: usize, total: usize)
    requires
        !stats.is_banned(iteration),
        total > stats.threshold(),
    ensures
        stats.searched(iteration, total) == stats.banned_from(iteration),
        !stats.admits(iteration, total),
        stats.banned_from(iteration).banned_until == capped(
            iteration + capped(stats.ban_length * pow2(stats.times_banned as nat)),
        ),
        iteration + stats.ban_length * pow2(stats.times_banned as nat) <= usize::MAX
            ==> stats.banned_from(iteration).banned_until == iteration + stats.ban_length * pow2(
            stats.times_banned as nat,
        ),
        forall|j: usize| j < stats.banned_from(iteration).banned_until <==> stats.banned_from(iteration).is_banned(j),
        stats.threshold() == stats.match_limit * pow2(stats.times_banned as nat),
        stats.banned_from(iteration).threshold() == capped(2 * stats.threshold()),
        stats.times_banned < usize::MAX ==> stats.banned_from(iteration).threshold() == capped(
            stats.match_limit * pow2((stats.times_banned + 1) as nat),
        ),
{
    let k = stats.times_banned as nat;
    let p = pow2(k) as int;
    let limit = stats.match_limit as int;
    let span = stats.ban_length as int;
    assert(span * p >= 0) by (nonlinear_arith)
        requires
            span >= 0,
            p >= 0,
    ;
    if stats.times_banned < usize::MAX {
        assert(pow2(k + 1) == 2 * p);
        assert(limit * (2 * p) == 2 * (limit * p)) by (nonlinear_arith);
    } else {
        lemma_pow2_exceeds(k);
        if limit >= 1 {
            assert(limit * p >= p) by (nonlinear_arith)
                requires
                    limit >= 1,
                    p >= 0,
            ;
        } else {
            assert(limit * p == 0) by (nonlinear_arith)
                requires
                    limit == 0,
            ;
        }
    }
}

/// A rule whose match limit is `usize::MAX` is never banned by a search.
pub proof fn lemma_unbannable(stats: RuleStats, iteration: usize, total: usize)
    requires
        stats.match_limit == usize::MAX,
    ensures
        stats.searched(iteration, total).banned_until == stats.banned_until,
        stats.searched(iteration, total).times_banned == stats.times_banned,
        !stats.is_banned(iteration) ==> stats.admits(iteration, total),
{
    let p = pow2(stats.times_banned as nat) as int;
    let limit = stats.match_limit as int;
    if stats.times_banned > 0 {
        lemma_pow2_grows(0, stats.times_banned as nat);
    }
    assert(limit * p >= limit) by (nonlinear_arith)
        requires
            p >= 1,
            limit >= 0,
    ;
}

} // verus!
