use rewrite_schedulers::matches::{Id, PatternAst, SearchMatches, Subst, Var};
use rewrite_schedulers::run_beam::{sort_by_substitutions, BeamScheduler};
use rewrite_schedulers::scheduler::RewriteScheduler;

fn beam_record(class: u32, count: usize) -> SearchMatches {
    let mut substs = Vec::new();
    for i in 0..count {
        substs.push(Subst { vec: vec![(Var(i as u32), Id(class + 1000))] });
    }
    SearchMatches { eclass: Id(class), substs, ast: Some(PatternAst { nodes: vec![class] }) }
}

fn classes(ms: &Vec<SearchMatches>) -> Vec<u32> {
    ms.iter().map(|m| m.eclass.0).collect()
}

fn counts(ms: &Vec<SearchMatches>) -> Vec<usize> {
    ms.iter().map(|m| m.substs.len()).collect()
}

#[test]
fn beam_default_width_is_100() {
    assert_eq!(BeamScheduler::default().beam_width(), 100);
}

#[test]
fn beam_with_beam_width_sets_width() {
    assert_eq!(BeamScheduler::default().with_beam_width(200).beam_width(), 200);
}

#[test]
fn beam_width_two_admits_two_smallest() {
    let mut s = BeamScheduler::default().with_beam_width(2);
    let raw = vec![beam_record(0, 3), beam_record(1, 1), beam_record(2, 2), beam_record(3, 1)];
    let admitted = s.search_rewrite(0, "rule", raw.clone());
    assert_eq!(counts(&admitted), vec![1, 1]);
    assert_eq!(classes(&admitted), vec![1, 3]);
    assert_eq!(admitted[0], raw[1]);
    assert_eq!(admitted[1], raw[3]);
}

#[test]
fn beam_wider_than_matches_admits_all_sorted() {
    let mut s = BeamScheduler::default().with_beam_width(10);
    let raw = vec![beam_record(0, 3), beam_record(1, 1), beam_record(2, 2), beam_record(3, 1)];
    let admitted = s.search_rewrite(0, "rule", raw);
    assert_eq!(counts(&admitted), vec![1, 1, 2, 3]);
    assert_eq!(classes(&admitted), vec![1, 3, 2, 0]);
}

#[test]
fn beam_width_zero_admits_nothing() {
    let mut s = BeamScheduler::default().with_beam_width(0);
    let admitted = s.search_rewrite(0, "rule", vec![beam_record(0, 1), beam_record(1, 0)]);
    assert!(admitted.is_empty());
}

#[test]
fn beam_of_nothing_is_empty() {
    let mut s = BeamScheduler::default();
    assert!(s.search_rewrite(0, "rule", Vec::new()).is_empty());
}

#[test]
fn beam_keeps_discovery_order_among_equals() {
    let mut s = BeamScheduler::default().with_beam_width(4);
    let raw = vec![
        beam_record(5, 2),
        beam_record(4, 2),
        beam_record(3, 0),
        beam_record(2, 2),
        beam_record(1, 0),
        beam_record(0, 2),
    ];
    let admitted = s.search_rewrite(3, "rule", raw);
    assert_eq!(classes(&admitted), vec![3, 1, 5, 4]);
}

#[test]
fn beam_default_caps_at_100() {
    let mut s = BeamScheduler::default();
    let mut raw = Vec::new();
    for i in 0..150u32 {
        raw.push(beam_record(i, (150 - i) as usize % 7));
    }
    let admitted = s.search_rewrite(0, "rule", raw.clone());
    assert_eq!(admitted.len(), 100);
    let mut expected = raw;
    expected.sort_by(|a, b| a.substs.len().cmp(&b.substs.len()));
    expected.truncate(100);
    assert_eq!(admitted, expected);
}

#[test]
fn beam_retains_exactly_the_admitted_artifacts() {
    let mut s = BeamScheduler::default().with_beam_width(3);
    let raw = vec![
        beam_record(10, 4),
        beam_record(11, 1),
        beam_record(12, 3),
        beam_record(13, 2),
        beam_record(14, 5),
    ];
    let admitted = s.search_rewrite(0, "rule", raw);
    let live: Vec<&PatternAst> = admitted.iter().filter_map(|m| m.ast.as_ref()).collect();
    assert_eq!(live.len(), 3);
    assert_eq!(live[0].nodes, vec![11]);
    assert_eq!(live[1].nodes, vec![13]);
    assert_eq!(live[2].nodes, vec![12]);
}

#[test]
fn beam_can_always_stop_and_always_searches() {
    let mut s = BeamScheduler::default();
    assert!(s.can_stop(0));
    assert!(s.can_stop(17));
    assert!(s.needs_search(17, "rule"));
    assert_eq!(s.beam_width(), 100);
}

#[test]
fn sort_by_substitutions_is_stable() {
    let raw = vec![beam_record(0, 1), beam_record(1, 0), beam_record(2, 1), beam_record(3, 0)];
    let sorted = sort_by_substitutions(raw);
    assert_eq!(classes(&sorted), vec![1, 3, 0, 2]);
    assert_eq!(counts(&sorted), vec![0, 0, 1, 1]);
}
