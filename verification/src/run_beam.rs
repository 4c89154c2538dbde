//! The beam strategy: per rule and iteration, at most a fixed number of
//! matches is admitted, those with the fewest substitutions first.

use vstd::prelude::*;
use crate::matches::{matches_view, reversed, MatchView, SearchMatches};
use crate::scheduler::RewriteScheduler;

verus! {

/// Whether the record at index `a` of `raw` is admitted before the one at
/// index `b`: it has fewer substitutions, or as many and was found earlier.
pub open spec fn precedes(raw: Seq<MatchView>, a: int, b: int) -> bool {
    raw[a].substs.len() < raw[b].substs.len() || (raw[a].substs.len() == raw[b].substs.len() && a
        < b)
}

/// Whether `order` lists every index of `raw` in the order of admission.
pub open spec fn is_beam_order(raw: Seq<MatchView>, order: Seq<int>) -> bool {
    &&& order.len() == raw.len()
    &&& forall|i: int| 0 <= i < order.len() ==> 0 <= #[trigger] order[i] < raw.len()
    &&& forall|x: int| 0 <= x < raw.len() ==> #[trigger] order.contains(x)
    &&& forall|i: int, j: int| 0 <= i < j < order.len() ==> precedes(raw, #[trigger] order[i], #[trigger] order[j])
}

/// The order of admission of `raw`.
pub open spec fn beam_order(raw: Seq<MatchView>) -> Seq<int> {
    choose|order: Seq<int>| is_beam_order(raw, order)
}

/// What a beam of `width` admits of `raw`: the first `width` records in the
/// order of admission, or all of them if there are fewer.
pub open spec fn beam(raw: Seq<MatchView>, width: nat) -> Seq<MatchView> {
    Seq::new(
        if width <= raw.len() {
            width
        } else {
            raw.len()
        },
        |i: int| raw[beam_order(raw)[i]],
    )
}

proof fn lemma_orders_agree_at(raw: Seq<MatchView>, p: Seq<int>, q: Seq<int>, i: int)
    requires
        is_beam_order(raw, p),
        is_beam_order(raw, q),
        0 <= i < raw.len(),
    ensures
        p[i] == q[i],
    decreases i,
{
    assert forall|j: int| 0 <= j < i implies p[j] == q[j] by {
        lemma_orders_agree_at(raw, p, q, j);
    }
    let x = p[i];
    let y = q[i];
    assert(q.contains(x));
    let k = choose|k: int| 0 <= k < q.len() && q[k] == x;
    assert(p.contains(y));
    let m = choose|m: int| 0 <= m < p.len() && p[m] == y;
    if k < i {
        assert(precedes(raw, p[k], p[i]));
    }
    if m < i {
        assert(precedes(raw, q[m], q[i]));
    }
    if k > i {
        assert(precedes(raw, q[i], q[k]));
        if m > i {
            assert(precedes(raw, p[i], p[m]));
        }
    }
}

/// The order of admission is determined: two sequences that both list the
/// indices of `raw` by ascending number of substitutions, earlier index
/// first among equals, are the same sequence.
pub proof fn lemma_beam_order_unique(raw: Seq<MatchView>, p: Seq<int>, q: Seq<int>)
    requires
        is_beam_order(raw, p),
        is_beam_order(raw, q),
    ensures
        p == q,
{
    assert forall|i: int| 0 <= i < p.len() implies p[i] == q[i] by {
        lemma_orders_agree_at(raw, p, q, i);
    }
    assert(p =~= q);
}

/// Whether `order` lists the first `n` indices of `raw` in the order of
/// admission.
spec fn orders_first(raw: Seq<MatchView>, order: Seq<int>, n: int) -> bool {
    &&& order.len() == n
    &&& forall|i: int| 0 <= i < n ==> 0 <= #[trigger] order[i] < n
    &&& forall|x: int| 0 <= x < n ==> #[trigger] order.contains(x)
    &&& forall|i: int, j: int| 0 <= i < j < n ==> precedes(raw, #[trigger] order[i], #[trigger] order[j])
}

proof fn lemma_insertion_point(raw: Seq<MatchView>, order: Seq<int>, n: int, upto: int) -> (pos: int)
    requires
        orders_first(raw, order, n),
        0 <= upto <= n < raw.len(),
    ensures
        0 <= pos <= upto,
        forall|j: int| pos <= j < upto ==> raw[#[trigger] order[j]].substs.len() > raw[n].substs.len(),
        pos > 0 ==> raw[order[pos - 1]].substs.len() <= raw[n].substs.len(),
    decreases upto,
{
    if upto == 0 {
        0
    } else if raw[order[upto - 1]].substs.len() > raw[n].substs.len() {
        lemma_insertion_point(raw, order, n, upto - 1)
    } else {
        upto
    }
}

proof fn lemma_insert_in_order(raw: Seq<MatchView>, before: Seq<int>, n: int, pos: int)
    requires
        orders_first(raw, before, n),
        0 <= pos <= n < raw.len(),
        forall|j: int| pos <= j < n ==> raw[#[trigger] before[j]].substs.len() > raw[n].substs.len(),
        pos > 0 ==> raw[before[pos - 1]].substs.len() <= raw[n].substs.len(),
    ensures
        orders_first(raw, before.insert(pos, n), n + 1),
{
    let order = before.insert(pos, n);
    assert forall|j: int| 0 <= j < pos implies raw[#[trigger] before[j]].substs.len()
        <= raw[n].substs.len() by {
        if j < pos - 1 {
            assert(precedes(raw, before[j], before[pos - 1]));
        }
    }
    assert forall|x: int| 0 <= x < n + 1 implies #[trigger] order.contains(x) by {
        if x == n {
            assert(order[pos] == x);
        } else {
            assert(before.contains(x));
            let j0 = choose|j: int| 0 <= j < before.len() && #[trigger] before[j] == x;
            if j0 < pos {
                assert(order[j0] == x);
            } else {
                assert(order[j0 + 1] == x);
            }
        }
    }
    assert forall|a: int, b: int| 0 <= a < b < n + 1 implies precedes(
        raw,
        #[trigger] order[a],
        #[trigger] order[b],
    ) by {
        let a0 = if a < pos { a } else { a - 1 };
        let b0 = if b < pos { b } else { b - 1 };
        if a != pos && b != pos {
            assert(order[a] == before[a0] && order[b] == before[b0]);
            assert(precedes(raw, before[a0], before[b0]));
        } else if a == pos {
            assert(order[b] == before[b0]);
        } else {
            assert(order[a] == before[a0]);
        }
    }
}

proof fn lemma_order_first(raw: Seq<MatchView>, n: int) -> (order: Seq<int>)
    requires
        0 <= n <= raw.len(),
    ensures
        orders_first(raw, order, n),
    decreases n,
{
    if n == 0 {
        Seq::empty()
    } else {
        let before = lemma_order_first(raw, n - 1);
        let pos = lemma_insertion_point(raw, before, n - 1, n - 1);
        lemma_insert_in_order(raw, before, n - 1, pos);
        before.insert(pos, n - 1)
    }
}

/// Every sequence of records has an order of admission, and `beam_order`
/// is it.
pub proof fn lemma_beam_order_exists(raw: Seq<MatchView>)
    ensures
        is_beam_order(raw, beam_order(raw)),
{
    let order = lemma_order_first(raw, raw.len() as int);
    assert(is_beam_order(raw, order));
}

/// Whoever knows the order of admission knows the beam: it holds the
/// records at the first indices of the order.
pub proof fn lemma_beam_by_order(raw: Seq<MatchView>, order: Seq<int>, width: nat)
    requires
        is_beam_order(raw, order),
    ensures
        beam_order(raw) == order,
        beam(raw, width).len() == if width <= raw.len() { width } else { raw.len() },
        forall|i: int| 0 <= i < beam(raw, width).len() ==> #[trigger] beam(raw, width)[i] == raw[order[i]],
{
    lemma_beam_order_unique(raw, order, beam_order(raw));
}

/// A beam admits `width` records or all that were found, whichever is
/// less. What it admits is the beginning of the records sorted by ascending
/// number of substitutions, in which records with as many substitutions
/// keep the order of their discovery; every record that is left out comes
/// after every admitted one in that order.
pub proof fn lemma_beam_bound(raw: Seq<MatchView>, width: nat)
    ensures
        beam(raw, width).len() <= width,
        beam(raw, width).len() <= raw.len(),
        beam(raw, width).len() == width || beam(raw, width).len() == raw.len(),
        beam(raw, width) == beam(raw, raw.len()).take(beam(raw, width).len() as int),
        forall|i: int, j: int|
            0 <= i < j < raw.len() ==> precedes(raw, #[trigger] beam_order(raw)[i], #[trigger] beam_order(raw)[j]),
        forall|i: int, j: int|
            0 <= i < j < beam(raw, width).len() ==> (#[trigger] beam(raw, width)[i]).substs.len() <= (#[trigger] beam(
                raw,
                width,
            )[j]).substs.len(),
{
    lemma_beam_order_exists(raw);
    assert(beam(raw, width) =~= beam(raw, raw.len()).take(beam(raw, width).len() as int));
    assert forall|i: int, j: int| 0 <= i < j < beam(raw, width).len() implies (#[trigger] beam(
        raw,
        width,
    )[i]).substs.len() <= (#[trigger] beam(raw, width)[j]).substs.len() by {
        assert(precedes(raw, beam_order(raw)[i], beam_order(raw)[j]));
    }
}

/// The beam scheduler.
#[derive(Debug)]
pub struct BeamScheduler {
    beam_width: usize,
}

impl BeamScheduler {
    /// The number of matches that are admitted at most.
    pub closed spec fn width(&self) -> nat {
        self.beam_width as nat
    }

    /// Sets the beam width. A new scheduler has 100.
    pub fn with_beam_width(self, beam_width: usize) -> (s: Self)
        ensures
            s.width() == beam_width,
    {
        BeamScheduler { beam_width }
    }

    /// The beam width.
    pub fn beam_width(&self) -> (w: usize)
        ensures
            w == self.width(),
    {
        self.beam_width
    }
}

impl Default for BeamScheduler {
    fn default() -> (s: Self)
        ensures
            s.width() == 100,
    {
        BeamScheduler { beam_width: 100 }
    }
}

/// Sorts the records by their number of substitutions, fewest first; records
/// with as many substitutions stay in the order in which they came.
pub fn sort_by_substitutions(matches: Vec<SearchMatches>) -> (sorted: Vec<SearchMatches>)
    ensures
        matches_view(sorted@) == beam(matches_view(matches@), matches.len() as nat),
{
    let ghost raw = matches_view(matches@);
    let n = matches.len();
    let mut rest = reversed(matches);
    let mut sorted: Vec<SearchMatches> = Vec::new();
    let ghost mut order: Seq<int> = Seq::empty();
    while rest.len() > 0
        invariant
            raw == matches_view(matches@),
            n == matches.len(),
            rest.len() + sorted.len() == n,
            forall|j: int| 0 <= j < rest.len() ==> rest[j] == matches[n - 1 - j],
            orders_first(raw, order, sorted.len() as int),
            forall|j: int| 0 <= j < sorted.len() ==> (#[trigger] sorted[j])@ == raw[order[j]],
        decreases rest.len(),
    {
        let ghost i = sorted.len() as int;
        let item = rest.pop();
        match item {
            Some(m) => {
                assert(m == matches[i]);
                assert(m@ == raw[i]);
                let mut pos: usize = sorted.len();
                while pos > 0 && sorted[pos - 1].substs.len() > m.substs.len()
                    invariant
                        pos <= sorted.len(),
                        forall|j: int|
                            pos <= j < sorted.len() ==> (#[trigger] sorted[j])@.substs.len() > m@.substs.len(),
                    decreases pos,
                {
                    pos -= 1;
                }
                let ghost before = order;
                let ghost sorted_before = sorted@;
                sorted.insert(pos, m);
                proof {
                    assert forall|j: int| pos <= j < i implies raw[#[trigger] before[j]].substs.len()
                        > raw[i].substs.len() by {
                        assert(sorted_before[j]@ == raw[before[j]]);
                    }
                    if pos > 0 {
                        assert(sorted_before[pos - 1]@ == raw[before[pos - 1]]);
                    }
                    lemma_insert_in_order(raw, before, i, pos as int);
                    order = before.insert(pos as int, i);
                    assert forall|j: int| 0 <= j < sorted.len() implies (#[trigger] sorted[j])@
                        == raw[order[j]] by {
                        if j < pos {
                            assert(sorted[j] == sorted_before[j]);
                        } else if j > pos {
                            assert(sorted[j] == sorted_before[j - 1]);
                        }
                    }
                }
            },
            None => {},
        }
    }
    proof {
        assert(is_beam_order(raw, order));
        lemma_beam_order_exists(raw);
        lemma_beam_order_unique(raw, order, beam_order(raw));
        assert(matches_view(sorted@) =~= beam(raw, n as nat));
    }
    sorted
}

impl RewriteScheduler for BeamScheduler {
    open spec fn admits(&self, iteration: usize, rule: Seq<char>, found: Seq<MatchView>) -> Seq<
        MatchView,
    > {
        beam(found, self.width())
    }

    fn can_stop(&mut self, iteration: usize) -> (stop: bool)
        ensures
            stop,
            final(self).width() == old(self).width(),
    {
        true
    }

    fn needs_search(&self, iteration: usize, rule: &str) -> (needed: bool)
        ensures
            needed,
    {
        true
    }

    /// Admits the first `width` of the records in the order of admission.
    fn search_rewrite(&mut self, iteration: usize, rule: &str, matches: Vec<SearchMatches>) -> (admitted:
        Vec<SearchMatches>)
        ensures
                matches_view(admitted@) == beam(matches_view(matches@), old(self).width()),
            final(self).width() == old(self).width(),
    {
        let ghost raw = matches_view(matches@);
        let mut admitted = sort_by_substitutions(matches);
        let ghost all = matches_view(admitted@);
        let vec_len = if self.beam_width < admitted.len() {
            self.beam_width
        } else {
            admitted.len()
        };
        admitted.truncate(vec_len);
        proof {
            let v = matches_view(admitted@);
            assert(all == beam(raw, raw.len()));
            assert forall|i: int| 0 <= i < v.len() implies v[i] == raw[beam_order(raw)[i]] by {
                assert(v[i] == admitted[i]@);
                assert(all[i] == raw[beam_order(raw)[i]]);
            }
            assert(v =~= beam(raw, self.width()));
        }
        admitted
    }
}

} // verus!
