use rewrite_schedulers::matches::{Id, PatternAst, SearchMatches, Subst, Var};
use rewrite_schedulers::run_bfs_default::BFSScheduler;
use rewrite_schedulers::scheduler::RewriteScheduler;

fn record(class: u32, count: usize) -> SearchMatches {
    let mut substs = Vec::new();
    for i in 0..count {
        substs.push(Subst { vec: vec![(Var(i as u32), Id(class))] });
    }
    SearchMatches { eclass: Id(class), substs, ast: None }
}

#[test]
fn bfs_admits_everything_in_order() {
    let mut s = BFSScheduler::default();
    let mut with_ast = record(3, 1);
    with_ast.ast = Some(PatternAst { nodes: vec![4, 5, 6] });
    let raw = vec![record(7, 2), with_ast, record(1, 0)];
    let admitted = s.search_rewrite(0, "rule", raw.clone());
    assert_eq!(admitted, raw);
}

#[test]
fn bfs_admits_nothing_of_nothing() {
    let mut s = BFSScheduler::default();
    assert!(s.search_rewrite(4, "rule", Vec::new()).is_empty());
}

#[test]
fn bfs_can_always_stop() {
    let mut s = BFSScheduler::default();
    assert!(s.can_stop(0));
    let _ = s.search_rewrite(0, "rule", vec![record(1, 5)]);
    assert!(s.can_stop(1));
    assert!(s.can_stop(usize::MAX));
}

#[test]
fn bfs_always_searches() {
    let s = BFSScheduler::default();
    assert!(s.needs_search(0, "a"));
    assert!(s.needs_search(99, "b"));
}
