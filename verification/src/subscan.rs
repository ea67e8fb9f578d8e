//! The sliding-window engine: the points within reach along `x` are kept in
//! an ordered set keyed by `y`, and each new point is tested only against
//! the members whose `y` lies within the threshold of its own.

use crate::pairs::{
    distinct_ids, hits, interval_pairs, lemma_append_interval, lemma_candidate_is_hit,
    lemma_hit_has_candidate, lemma_hits_no_duplicates, lemma_interval_pairs_empty,
    lemma_interval_pairs_normalized, lemma_same_id_same_position, is_swept, sorted_by_x,
};
use crate::point::{
    axis_values, close, exceeds_threshold, is_close, lemma_close_symmetric, lemma_far_on_axis,
    ordered_pair, Pair, Point, THRESHOLD,
};
use crate::solver::{lemma_left_of_window, window_start_of_points, IntervalSolver};
use std::collections::BTreeSet;
use vstd::prelude::*;

verus! {

/// A member of the window: `(y, id, x, z)`. The set orders its members by
/// `y`, and by identity where two share a `y`.
pub type WindowEntry = (i64, u16, i64, i64);

/// The window entry that stands for a point.
pub open spec fn entry_of(p: Point) -> WindowEntry {
    (p.1, p.3, p.0, p.2)
}

/// The point that a window entry stands for.
pub open spec fn point_of(e: WindowEntry) -> Point {
    (e.2, e.0, e.3, e.1)
}

/// The order in which the window holds its entries: field by field, the
/// first difference decides.
pub open spec fn entry_before(a: WindowEntry, b: WindowEntry) -> bool {
    a.0 < b.0 || (a.0 == b.0 && (a.1 < b.1 || (a.1 == b.1 && (a.2 < b.2 || (a.2 == b.2 && a.3
        < b.3)))))
}

/// The least entry a query around `y` admits: the first with `y - T`, or
/// the first of all where that is out of range.
pub open spec fn query_low(y: i64) -> WindowEntry {
    (
        if y - THRESHOLD < i64::MIN {
            i64::MIN
        } else {
            (y - THRESHOLD) as i64
        },
        0u16,
        i64::MIN,
        i64::MIN,
    )
}

/// The greatest entry a query around `y` admits: the last below `y + T`, or
/// the last of all where that is out of range.
pub open spec fn query_high(y: i64) -> WindowEntry {
    (
        if y + THRESHOLD - 1 > i64::MAX {
            i64::MAX
        } else {
            (y + THRESHOLD - 1) as i64
        },
        u16::MAX,
        i64::MAX,
        i64::MAX,
    )
}

/// The entries of the positions `from..to`.
pub open spec fn window_of(s: Seq<Point>, from: int, to: int) -> Set<WindowEntry> {
    Set::new(
        |e: WindowEntry|
            exists|j: int| from <= j < to && 0 <= j < s.len() && e == entry_of(#[trigger] s[j]),
    )
}

/// The points that a list of entries stands for.
pub open spec fn points_of(entries: Seq<WindowEntry>) -> Seq<Point> {
    Seq::new(entries.len(), |k: int| point_of(entries[k]))
}

/// The sliding-window engine. It reads the points alone: the columns
/// handed to it may hold anything.
pub struct SubscanSolver;

/// The sliding-window engine reads no columns, so that a call of
/// [`SubscanSolver::solve_interval`] asks nothing of the columns it is
/// given.
pub proof fn lemma_subscan_reads_no_columns()
    ensures
        !SubscanSolver::USE_SOA,
        !SubscanSolver::reads_columns(),
{
}

/// Hands out, in ascending order, the members of the window from `lo` to
/// `hi`, both included.
///
/// Calls `BTreeSet::range` with the inclusive range `lo..=hi`. The standard
/// library yields the elements of the set that lie in the range, each once,
/// smallest first, and panics only where `lo` is greater than `hi`.
#[verifier::external_body]
fn window_range(
    window: &BTreeSet<WindowEntry>,
    lo: WindowEntry,
    hi: WindowEntry,
) -> (out: Vec<WindowEntry>)
    requires
        !entry_before(hi, lo),
    ensures
        forall|a: int, b: int| 0 <= a < b < out@.len() ==> entry_before(out@[a], out@[b]),
        forall|e: WindowEntry|
            #[trigger] out@.contains(e) <==> (window@.contains(e) && !entry_before(e, lo)
                && !entry_before(hi, e)),
{
    window.range(lo..=hi).copied().collect()
}

fn make_entry(p: &Point) -> (e: WindowEntry)
    ensures
        e == entry_of(*p),
{
    (p.1, p.3, p.0, p.2)
}

fn low_bound(y: i64) -> (e: WindowEntry)
    ensures
        e == query_low(y),
{
    let first: i64 = if y < i64::MIN + THRESHOLD {
        i64::MIN
    } else {
        y - THRESHOLD
    };
    (first, 0, i64::MIN, i64::MIN)
}

fn high_bound(y: i64) -> (e: WindowEntry)
    ensures
        e == query_high(y),
{
    let last: i64 = if y > i64::MAX - (THRESHOLD - 1) {
        i64::MAX
    } else {
        y + (THRESHOLD - 1)
    };
    (last, u16::MAX, i64::MAX, i64::MAX)
}

/// A query around the `y` of a point admits every point closer than the
/// threshold to it.
pub proof fn lemma_query_admits_close(cur: Point, q: Point)
    requires
        close(cur, q),
    ensures
        !entry_before(entry_of(q), query_low(cur.1)),
        !entry_before(query_high(cur.1), entry_of(q)),
{
    lemma_far_on_axis(cur, q);
}

/// Entering the next position into the window.
proof fn lemma_window_grows(s: Seq<Point>, from: int, to: int)
    requires
        0 <= from <= to < s.len(),
    ensures
        window_of(s, from, to).insert(entry_of(s[to])) == window_of(s, from, to + 1),
{
    let grown = window_of(s, from, to).insert(entry_of(s[to]));
    assert forall|e: WindowEntry| grown.contains(e) implies
        window_of(s, from, to + 1).contains(e) by {
        if e == entry_of(s[to]) {
            assert(window_of(s, from, to + 1).contains(entry_of(s[to])));
        } else {
            let j = choose|j: int|
                from <= j < to && 0 <= j < s.len() && e == entry_of(#[trigger] s[j]);
            assert(window_of(s, from, to + 1).contains(entry_of(s[j])));
        }
    }
    assert forall|e: WindowEntry| window_of(s, from, to + 1).contains(e) implies
        grown.contains(e) by {
        let j = choose|j: int|
            from <= j < to + 1 && 0 <= j < s.len() && e == entry_of(#[trigger] s[j]);
        if j < to {
            assert(window_of(s, from, to).contains(entry_of(s[j])));
        }
    }
    assert(grown =~= window_of(s, from, to + 1));
}

/// Evicting the oldest position from the window.
proof fn lemma_window_shrinks(s: Seq<Point>, from: int, to: int)
    requires
        distinct_ids(s),
        0 <= from < to <= s.len(),
    ensures
        window_of(s, from, to).remove(entry_of(s[from])) == window_of(s, from + 1, to),
{
    let shrunk = window_of(s, from, to).remove(entry_of(s[from]));
    assert forall|e: WindowEntry| shrunk.contains(e) implies
        window_of(s, from + 1, to).contains(e) by {
        let j = choose|j: int| from <= j < to && 0 <= j < s.len() && e == entry_of(#[trigger] s[j]);
        assert(window_of(s, from + 1, to).contains(entry_of(s[j])));
    }
    assert forall|e: WindowEntry| window_of(s, from + 1, to).contains(e) implies
        shrunk.contains(e) by {
        let j = choose|j: int|
            from + 1 <= j < to && 0 <= j < s.len() && e == entry_of(#[trigger] s[j]);
        lemma_same_id_same_position(s, j, from);
        assert(window_of(s, from, to).contains(entry_of(s[j])));
    }
    assert(shrunk =~= window_of(s, from + 1, to));
}

/// One step of the engine: testing the point at position `i` against the
/// answer of the range query contributes exactly the pairs of position `i`,
/// each once.
proof fn lemma_window_row(s: Seq<Point>, i: int, from: int, cands: Seq<WindowEntry>)
    requires
        distinct_ids(s),
        sorted_by_x(s),
        0 <= from <= i < s.len(),
        forall|j: int| 0 <= j < from ==> (#[trigger] s[j]).0 + THRESHOLD < s[i].0,
        forall|a: int, b: int| 0 <= a < b < cands.len() ==> entry_before(cands[a], cands[b]),
        forall|e: WindowEntry|
            #[trigger] cands.contains(e) <==> (window_of(s, from, i).contains(e) && !entry_before(
                e,
                query_low(s[i].1),
            ) && !entry_before(query_high(s[i].1), e)),
    ensures
        hits(points_of(cands), s[i], 0, cands.len() as int).no_duplicates(),
        hits(points_of(cands), s[i], 0, cands.len() as int).to_set() == interval_pairs(s, i, i + 1),
{
    let cp = points_of(cands);
    let m = cands.len() as int;
    let row = hits(cp, s[i], 0, m);
    assert forall|a: int, b: int| 0 <= a < b < m implies cp[a].3 != cp[b].3 by {
        assert(cands.contains(cands[a]));
        assert(cands.contains(cands[b]));
        let ja = choose|j: int|
            from <= j < i && 0 <= j < s.len() && cands[a] == entry_of(#[trigger] s[j]);
        let jb = choose|j: int|
            from <= j < i && 0 <= j < s.len() && cands[b] == entry_of(#[trigger] s[j]);
        assert(entry_before(cands[a], cands[b]));
        lemma_same_id_same_position(s, ja, jb);
    }
    lemma_hits_no_duplicates(cp, s[i], 0, m);
    assert forall|p: Pair| row.contains(p) implies interval_pairs(s, i, i + 1).contains(p) by {
        let k = lemma_hit_has_candidate(cp, s[i], 0, m, p);
        assert(cands.contains(cands[k]));
        let j = choose|j: int|
            from <= j < i && 0 <= j < s.len() && cands[k] == entry_of(#[trigger] s[j]);
        assert(cp[k] == s[j]);
        lemma_close_symmetric(s[i], s[j]);
        assert(is_swept(s, i, i + 1, j, i, p));
    }
    assert forall|p: Pair| interval_pairs(s, i, i + 1).contains(p) implies row.contains(p) by {
        let next = i + 1;
        let (j, i2) = choose|j: int, i2: int| is_swept(s, i, next, j, i2, p);
        lemma_close_symmetric(s[i], s[j]);
        if j < from {
            lemma_far_on_axis(s[j], s[i]);
            assert(false);
        }
        lemma_query_admits_close(s[i], s[j]);
        assert(window_of(s, from, i).contains(entry_of(s[j])));
        assert(cands.contains(entry_of(s[j])));
        let k = choose|k: int| 0 <= k < cands.len() && cands[k] == entry_of(s[j]);
        assert(cp[k] == s[j]);
        lemma_candidate_is_hit(cp, s[i], 0, m, k);
    }
    assert(row.to_set() =~= interval_pairs(s, i, i + 1));
}

/// Tests `cur` against each candidate in turn and appends the pair of each
/// candidate that is close to it.
fn report_candidates(cur: &Point, cands: &Vec<WindowEntry>, ret: &mut Vec<Pair>)
    ensures
        final(ret)@ == old(ret)@ + hits(points_of(cands@), *cur, 0, cands@.len() as int),
{
    let ghost before = ret@;
    let ghost cp = points_of(cands@);
    let mut t: usize = 0;
    assert(ret@ =~= before + hits(cp, *cur, 0, 0));
    while t < cands.len()
        invariant
            t <= cands@.len(),
            cp == points_of(cands@),
            ret@ == before + hits(cp, *cur, 0, t as int),
        decreases cands@.len() - t,
    {
        let e: WindowEntry = cands[t];
        let q: Point = (e.2, e.0, e.3, e.1);
        if is_close(cur, &q) {
            ret.push(ordered_pair(cur.3, q.3));
        }
        t += 1;
        assert(ret@ =~= before + hits(cp, *cur, 0, t as int));
    }
}

impl IntervalSolver for SubscanSolver {
    const USE_SOA: bool = false;

    open spec fn reads_columns() -> bool {
        false
    }

    proof fn lemma_use_soa() {
    }

    fn solve_interval(
        xyzi: &[Point],
        xyzi_soa: (&[i64], &[i64], &[i64], &[u16]),
        start: usize,
        end: usize,
        ret: &mut Vec<Pair>,
    ) {
        ret.truncate(0);
        proof {
            lemma_interval_pairs_empty(xyzi@, start as int, start as int);
            assert(ret@.to_set() =~= Set::<Pair>::empty());
        }
        if start < end {
            let pre_start: usize = window_start_of_points(xyzi, start);
            let mut first_index: usize = pre_start;
            let mut slice_set: BTreeSet<WindowEntry> = BTreeSet::new();
            let mut k: usize = pre_start;
            assert(slice_set@ =~= window_of(xyzi@, pre_start as int, pre_start as int));
            while k < start
                invariant
                    pre_start <= k <= start < xyzi@.len(),
                    slice_set@ == window_of(xyzi@, pre_start as int, k as int),
                decreases start - k,
            {
                proof {
                    lemma_window_grows(xyzi@, pre_start as int, k as int);
                }
                slice_set.insert(make_entry(&xyzi[k]));
                k += 1;
            }
            let mut i: usize = start;
            proof {
                assert forall|j: int| 0 <= j < first_index implies (#[trigger] xyzi@[j]).0
                    + THRESHOLD < xyzi@[start as int].0 by {
                    let xs = axis_values(xyzi@, 0);
                    assert(xs[start as int] - xs[j] > THRESHOLD);
                }
            }
            while i < end
                invariant
                    start <= i <= end <= xyzi@.len(),
                    first_index <= i,
                    sorted_by_x(xyzi@),
                    distinct_ids(xyzi@),
                    slice_set@ == window_of(xyzi@, first_index as int, i as int),
                    i < end ==> forall|j: int|
                        0 <= j < first_index ==>
                            (#[trigger] xyzi@[j]).0 + THRESHOLD < xyzi@[i as int].0,
                    ret@.no_duplicates(),
                    ret@.to_set() == interval_pairs(xyzi@, start as int, i as int),
                decreases end - i,
            {
                let cur: Point = xyzi[i];
                while first_index < i && exceeds_threshold(cur.0, xyzi[first_index].0)
                    invariant
                        first_index <= i < xyzi@.len(),
                        cur == xyzi@[i as int],
                        distinct_ids(xyzi@),
                        slice_set@ == window_of(xyzi@, first_index as int, i as int),
                        forall|j: int|
                            0 <= j < first_index ==> (#[trigger] xyzi@[j]).0 + THRESHOLD
                                < xyzi@[i as int].0,
                    decreases i - first_index,
                {
                    proof {
                        lemma_window_shrinks(xyzi@, first_index as int, i as int);
                    }
                    slice_set.remove(&make_entry(&xyzi[first_index]));
                    first_index += 1;
                }
                let cands: Vec<WindowEntry> = window_range(
                    &slice_set,
                    low_bound(cur.1),
                    high_bound(cur.1),
                );
                let ghost before = ret@;
                let ghost cp = points_of(cands@);
                report_candidates(&cur, &cands, ret);
                proof {
                    lemma_window_row(xyzi@, i as int, first_index as int, cands@);
                    lemma_append_interval(
                        xyzi@,
                        before,
                        hits(cp, cur, 0, cands@.len() as int),
                        start as int,
                        i as int,
                        i + 1,
                    );
                    lemma_window_grows(xyzi@, first_index as int, i as int);
                    if i + 1 < end {
                        assert forall|j: int| 0 <= j < first_index implies (#[trigger] xyzi@[j]).0
                            + THRESHOLD < xyzi@[i + 1].0 by {
                            lemma_left_of_window(xyzi@, j, i as int, i + 1);
                        }
                    }
                }
                slice_set.insert(make_entry(&cur));
                i += 1;
            }
        }
        proof {
            assert forall|k: int| 0 <= k < ret@.len() implies ret@[k].0 < ret@[k].1 by {
                assert(ret@.to_set().contains(ret@[k]));
                lemma_interval_pairs_normalized(xyzi@, start as int, end as int, ret@[k]);
            }
        }
    }
}

} // verus!
