use rewrite_schedulers::matches::{reversed, Id, PatternAst, SearchMatches, Subst, Var};
use rewrite_schedulers::run_dfs::{DFSScheduler, DFSSearchMatches};
use rewrite_schedulers::scheduler::RewriteScheduler;

fn dfs_record(class: u32, tag: u32) -> SearchMatches {
    SearchMatches {
        eclass: Id(class),
        substs: vec![Subst { vec: vec![(Var(tag), Id(class))] }],
        ast: Some(PatternAst { nodes: vec![tag] }),
    }
}

#[test]
fn dfs_first_call_without_matches_returns_nothing() {
    let mut s = DFSScheduler::default();
    assert!(!s.can_stop(0));
    let admitted = s.search_rewrite(0, "rule", Vec::new());
    assert!(admitted.is_empty());
    assert!(s.can_stop(1));
}

#[test]
fn dfs_cannot_stop_before_first_call() {
    let mut s = DFSScheduler::default();
    assert!(!s.can_stop(0));
    assert!(!s.can_stop(5));
}

#[test]
fn dfs_single_match_is_admitted_then_exhausted() {
    let mut s = DFSScheduler::default();
    let admitted = s.search_rewrite(0, "rule", vec![dfs_record(4, 9)]);
    assert_eq!(admitted, vec![dfs_record(4, 9)]);
    assert!(s.can_stop(1));
    assert!(s.search_rewrite(1, "rule", Vec::new()).is_empty());
    assert!(s.can_stop(2));
}

#[test]
fn dfs_admits_one_match_per_call_newest_block_first() {
    let mut s = DFSScheduler::default();
    let first = s.search_rewrite(0, "rule", vec![dfs_record(1, 0), dfs_record(2, 0), dfs_record(3, 0)]);
    assert_eq!(first, vec![dfs_record(1, 0)]);
    assert!(!s.can_stop(1));
    let second = s.search_rewrite(1, "rule", vec![dfs_record(4, 0), dfs_record(5, 0)]);
    assert_eq!(second, vec![dfs_record(4, 0)]);
    assert!(!s.can_stop(2));
    let third = s.search_rewrite(2, "rule", vec![dfs_record(6, 0)]);
    assert_eq!(third, vec![dfs_record(6, 0)]);
    assert!(!s.can_stop(3));
}

#[test]
fn dfs_backtracking_abandons_unvisited_classes() {
    let mut s = DFSScheduler::default();
    let first = s.search_rewrite(0, "rule", vec![dfs_record(1, 0), dfs_record(2, 0), dfs_record(3, 0)]);
    assert_eq!(first, vec![dfs_record(1, 0)]);
    let second = s.search_rewrite(1, "rule", Vec::new());
    assert!(second.is_empty());
    assert!(s.can_stop(2));
}

#[test]
fn dfs_backtracking_stops_at_visited_class() {
    let mut s = DFSScheduler::default();
    let first = s.search_rewrite(0, "rule", vec![dfs_record(1, 0), dfs_record(2, 1), dfs_record(1, 2), dfs_record(3, 3)]);
    assert_eq!(first, vec![dfs_record(1, 0)]);
    let second = s.search_rewrite(1, "rule", Vec::new());
    assert_eq!(second, vec![dfs_record(1, 2)]);
    assert!(!s.can_stop(2));
    let third = s.search_rewrite(2, "rule", Vec::new());
    assert!(third.is_empty());
    assert!(s.can_stop(3));
}

#[test]
fn dfs_depth_zero_never_searches() {
    let mut s = DFSScheduler::default().with_max_depth(0);
    assert!(!s.needs_search(0, "rule"));
    let admitted = s.search_rewrite(0, "rule", vec![dfs_record(1, 0)]);
    assert!(admitted.is_empty());
    assert!(s.can_stop(1));
}

#[test]
fn dfs_depth_limit_forces_backtracking() {
    let mut s = DFSScheduler::default().with_max_depth(1);
    assert!(s.needs_search(0, "rule"));
    let first = s.search_rewrite(0, "rule", vec![dfs_record(1, 0), dfs_record(2, 0)]);
    assert_eq!(first, vec![dfs_record(1, 0)]);
    assert!(!s.needs_search(1, "rule"));
    let second = s.search_rewrite(1, "rule", vec![dfs_record(9, 0)]);
    assert!(second.is_empty());
    assert!(s.can_stop(2));
    assert!(s.needs_search(2, "rule"));
    let third = s.search_rewrite(2, "rule", vec![dfs_record(9, 0)]);
    assert_eq!(third, vec![dfs_record(9, 0)]);
}

#[test]
fn dfs_default_depth_allows_search() {
    let s = DFSScheduler::default();
    assert!(s.needs_search(0, "rule"));
}

#[test]
fn get_dfssearchmatches_keeps_order_and_content() {
    let mut s = DFSScheduler::default();
    let raw = vec![dfs_record(3, 1), dfs_record(1, 2), dfs_record(2, 3)];
    let owned = s.get_dfssearchmatches(raw.clone());
    assert_eq!(owned.len(), 3);
    for i in 0..3 {
        assert_eq!(owned[i].eclass, raw[i].eclass);
        assert_eq!(owned[i].substs, raw[i].substs);
        assert_eq!(owned[i].ast, raw[i].ast);
    }
    assert!(!s.can_stop(0));
}

#[test]
fn dfssearchmatch_to_searchmatch_copies_content() {
    let owned = DFSSearchMatches {
        eclass: Id(8),
        substs: vec![Subst { vec: vec![(Var(1), Id(2)), (Var(3), Id(4))] }, Subst { vec: vec![] }],
        ast: Some(PatternAst { nodes: vec![7, 7, 1] }),
    };
    let m = DFSScheduler::dfssearchmatch_to_searchmatch(&owned);
    assert_eq!(m.eclass, Id(8));
    assert_eq!(m.substs, owned.substs);
    assert_eq!(m.ast, owned.ast);
    let bare = DFSSearchMatches { eclass: Id(0), substs: vec![], ast: None };
    let m = DFSScheduler::dfssearchmatch_to_searchmatch(&bare);
    assert_eq!(m, SearchMatches { eclass: Id(0), substs: vec![], ast: None });
}

#[test]
fn dfs_records_are_equal_by_class_alone() {
    let a = DFSSearchMatches { eclass: Id(1), substs: vec![], ast: None };
    let b = DFSSearchMatches {
        eclass: Id(1),
        substs: vec![Subst { vec: vec![(Var(0), Id(0))] }],
        ast: Some(PatternAst { nodes: vec![1] }),
    };
    let c = DFSSearchMatches { eclass: Id(2), substs: vec![], ast: None };
    assert!(a == b);
    assert!(a != c);
}

#[test]
fn reversed_turns_order_around() {
    assert_eq!(reversed(vec![1, 2, 3]), vec![3, 2, 1]);
    assert_eq!(reversed(Vec::<u8>::new()), Vec::<u8>::new());
}

#[test]
fn duplicates_equal_what_they_copy() {
    let s = Subst { vec: vec![(Var(1), Id(2)), (Var(3), Id(4))] };
    assert_eq!(s.duplicate(), s);
    let a = PatternAst { nodes: vec![1, 2, 3] };
    assert_eq!(a.duplicate(), a);
    let m = dfs_record(1, 2);
    assert_eq!(m.substitution_count(), 1);
}

#[test]
fn dfs_drains_frontier_of_one_class_in_order() {
    let mut s = DFSScheduler::default();
    let first = s.search_rewrite(0, "rule", vec![dfs_record(1, 0), dfs_record(1, 1), dfs_record(1, 2)]);
    assert_eq!(first, vec![dfs_record(1, 0)]);
    assert!(!s.can_stop(1));
    assert_eq!(s.search_rewrite(1, "rule", Vec::new()), vec![dfs_record(1, 1)]);
    assert!(!s.can_stop(2));
    assert_eq!(s.search_rewrite(2, "rule", Vec::new()), vec![dfs_record(1, 2)]);
    assert!(s.can_stop(3));
    assert!(s.search_rewrite(3, "rule", Vec::new()).is_empty());
    assert!(s.can_stop(4));
}
