use rewrite_schedulers::matches::{Id, SearchMatches, Subst, Var};
use rewrite_schedulers::rule_stats::{count_substitutions, RuleStats};
use rewrite_schedulers::run_backoff::BackoffScheduler;
use rewrite_schedulers::run_dfs_backoff::DFSBackoffScheduler;
use rewrite_schedulers::scheduler::RewriteScheduler;

fn found(total: usize) -> Vec<SearchMatches> {
    let mut substs = Vec::new();
    for i in 0..total {
        substs.push(Subst { vec: vec![(Var(i as u32), Id(0))] });
    }
    let rest = substs.split_off(total / 2);
    vec![
        SearchMatches { eclass: Id(1), substs, ast: None },
        SearchMatches { eclass: Id(2), substs: rest, ast: None },
    ]
}

#[test]
fn backoff_defaults() {
    let s = BackoffScheduler::default();
    let stats = s.stats("any");
    assert_eq!(
        stats,
        RuleStats { times_applied: 0, banned_until: 0, times_banned: 0, match_limit: 1000, ban_length: 5 }
    );
}

#[test]
fn backoff_bans_and_frees_again() {
    let mut s = BackoffScheduler::default().with_initial_match_limit(10).with_ban_length(2);
    assert!(s.needs_search(0, "r"));
    let admitted = s.search_rewrite(0, "r", found(15));
    assert!(admitted.is_empty());
    let stats = s.stats("r");
    assert_eq!(stats.banned_until, 2);
    assert_eq!(stats.times_banned, 1);
    assert_eq!(stats.times_applied, 0);

    assert!(!s.needs_search(1, "r"));
    let admitted = s.search_rewrite(1, "r", found(1));
    assert!(admitted.is_empty());
    assert_eq!(s.stats("r"), stats);

    assert!(s.needs_search(2, "r"));
    assert_eq!(s.stats("r").match_threshold(), 20);
    let admitted = s.search_rewrite(2, "r", found(20));
    assert_eq!(admitted, found(20));
    assert_eq!(s.stats("r").times_applied, 1);
    assert_eq!(s.stats("r").times_banned, 1);
}

#[test]
fn backoff_second_ban_is_twice_as_long() {
    let mut s = BackoffScheduler::default().with_initial_match_limit(10).with_ban_length(2);
    assert!(s.search_rewrite(0, "r", found(11)).is_empty());
    assert!(s.search_rewrite(2, "r", found(21)).is_empty());
    let stats = s.stats("r");
    assert_eq!(stats.times_banned, 2);
    assert_eq!(stats.banned_until, 6);
    assert_eq!(stats.match_threshold(), 40);
    assert_eq!(stats.ban_duration(), 8);
}

#[test]
fn backoff_admits_at_the_limit() {
    let mut s = BackoffScheduler::default().with_initial_match_limit(10);
    assert_eq!(s.search_rewrite(0, "r", found(10)), found(10));
    assert_eq!(s.stats("r").times_applied, 1);
    assert_eq!(s.stats("r").banned_until, 0);
}

#[test]
fn backoff_rules_are_kept_apart() {
    let mut s = BackoffScheduler::default().with_initial_match_limit(3).with_ban_length(4);
    assert!(s.search_rewrite(1, "a", found(4)).is_empty());
    assert_eq!(s.search_rewrite(1, "b", found(3)), found(3));
    assert_eq!(s.stats("a").banned_until, 5);
    assert_eq!(s.stats("b").banned_until, 0);
    assert_eq!(s.stats("b").times_applied, 1);
    assert!(!s.needs_search(2, "a"));
    assert!(s.needs_search(2, "b"));
    assert!(s.needs_search(2, "c"));
}

#[test]
fn backoff_can_stop_when_nothing_is_banned() {
    let mut s = BackoffScheduler::default();
    assert!(s.can_stop(0));
    assert_eq!(s.search_rewrite(0, "r", found(5)), found(5));
    assert!(s.can_stop(1));
}

#[test]
fn backoff_can_stop_fast_forwards_bans() {
    let mut s = BackoffScheduler::default()
        .with_initial_match_limit(1)
        .rule_ban_length("a", 10)
        .rule_ban_length("b", 4);
    assert!(s.search_rewrite(0, "a", found(2)).is_empty());
    assert!(s.search_rewrite(0, "b", found(2)).is_empty());
    assert_eq!(s.search_rewrite(0, "c", found(1)), found(1));
    assert_eq!(s.stats("a").banned_until, 10);
    assert_eq!(s.stats("b").banned_until, 4);
    assert!(!s.can_stop(1));
    assert_eq!(s.stats("a").banned_until, 7);
    assert_eq!(s.stats("b").banned_until, 1);
    assert_eq!(s.stats("c").banned_until, 0);
    assert!(s.needs_search(1, "b"));
    assert!(!s.needs_search(1, "a"));
    assert!(!s.can_stop(1));
    assert_eq!(s.stats("a").banned_until, 1);
    assert_eq!(s.stats("b").banned_until, 1);
    assert!(s.can_stop(1));
}

#[test]
fn backoff_do_not_ban_admits_any_volume() {
    let mut s = BackoffScheduler::default().with_initial_match_limit(0).do_not_ban("free");
    assert_eq!(s.stats("free").match_limit, usize::MAX);
    assert_eq!(s.search_rewrite(0, "free", found(50)), found(50));
    assert!(s.search_rewrite(0, "other", found(1)).is_empty());
    assert_eq!(s.stats("free").times_banned, 0);
    assert_eq!(s.stats("other").times_banned, 1);
}

#[test]
fn backoff_rule_match_limit_overrides_default() {
    let mut s = BackoffScheduler::default().rule_match_limit("r", 2).rule_ban_length("r", 3);
    assert_eq!(
        s.stats("r"),
        RuleStats { times_applied: 0, banned_until: 0, times_banned: 0, match_limit: 2, ban_length: 3 }
    );
    assert!(s.search_rewrite(7, "r", found(3)).is_empty());
    assert_eq!(s.stats("r").banned_until, 10);
    assert_eq!(s.stats("q").match_limit, 1000);
}

#[test]
fn rule_stats_threshold_doubles_per_ban() {
    let mut stats = RuleStats::new(3, 5);
    assert_eq!(stats.match_threshold(), 3);
    assert_eq!(stats.ban_duration(), 5);
    stats.times_banned = 4;
    assert_eq!(stats.match_threshold(), 48);
    assert_eq!(stats.ban_duration(), 80);
}

#[test]
fn rule_stats_threshold_saturates() {
    let mut stats = RuleStats::new(usize::MAX / 2 + 1, 1);
    stats.times_banned = 1;
    assert_eq!(stats.match_threshold(), usize::MAX);
    stats.times_banned = usize::MAX;
    assert_eq!(stats.match_threshold(), usize::MAX);
    assert_eq!(stats.ban_duration(), usize::MAX);
    let mut zero = RuleStats::new(0, 0);
    zero.times_banned = usize::MAX;
    assert_eq!(zero.match_threshold(), 0);
}

#[test]
fn rule_stats_record_saturates_ban_end() {
    let mut stats = RuleStats::new(1, usize::MAX);
    assert!(!stats.record(10, 2));
    assert_eq!(stats.banned_until, usize::MAX);
    assert_eq!(stats.times_banned, 1);
}

#[test]
fn rule_stats_record_leaves_banned_rule_alone() {
    let mut stats = RuleStats { times_applied: 3, banned_until: 9, times_banned: 2, match_limit: 1, ban_length: 1 };
    assert!(!stats.record(8, 0));
    assert_eq!(
        stats,
        RuleStats { times_applied: 3, banned_until: 9, times_banned: 2, match_limit: 1, ban_length: 1 }
    );
    assert!(stats.record(9, 4));
    assert_eq!(stats.times_applied, 4);
    assert!(!stats.record(9, 5));
    assert_eq!(stats.banned_until, 13);
    assert_eq!(stats.times_banned, 3);
}

#[test]
fn count_substitutions_adds_up() {
    assert_eq!(count_substitutions(&found(15)), 15);
    assert_eq!(count_substitutions(&Vec::new()), 0);
    assert_eq!(count_substitutions(&found(0)), 0);
}

#[test]
fn dfs_backoff_behaves_as_backoff() {
    let mut s = DFSBackoffScheduler::default().with_initial_match_limit(10).with_ban_length(2);
    assert!(s.search_rewrite(0, "r", found(15)).is_empty());
    assert_eq!(s.stats("r").banned_until, 2);
    assert!(!s.needs_search(1, "r"));
    assert!(!s.can_stop(1));
    assert_eq!(s.stats("r").banned_until, 1);
    assert!(s.can_stop(1));
    assert_eq!(s.search_rewrite(1, "r", found(20)), found(20));
    let inner = s.into_inner();
    assert_eq!(inner.stats("r").times_applied, 1);
}

#[test]
fn dfs_backoff_forwards_rule_settings() {
    let s = DFSBackoffScheduler::new(BackoffScheduler::default())
        .rule_match_limit("a", 7)
        .rule_ban_length("a", 9)
        .do_not_ban("b");
    assert_eq!(s.stats("a").match_limit, 7);
    assert_eq!(s.stats("a").ban_length, 9);
    assert_eq!(s.stats("b").match_limit, usize::MAX);
    assert_eq!(s.stats("b").ban_length, 5);
}
