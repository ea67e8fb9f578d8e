//! The interface shared by the sweep engines, and the search for the
//! lead-in of a chunk: the first position still within reach of its start.

use crate::columns::columns_match;
use crate::pairs::{distinct_ids, interval_pairs, sorted_by_x};
use crate::point::{
    ascending, axis_values, close, exceeds_threshold, lemma_far_on_axis, Pair, Point, MAX_POINTS,
    THRESHOLD,
};
use vstd::prelude::*;

verus! {

/// The position at which the window of position `i` begins: the first
/// position whose `x` lies no more than the threshold below that of `i`.
pub open spec fn is_window_start(xs: Seq<i64>, from: int, i: int) -> bool {
    &&& 0 <= from <= i
    &&& xs[i] - xs[from] <= THRESHOLD
    &&& forall|j: int| 0 <= j < from ==> xs[i] - #[trigger] xs[j] > THRESHOLD
}

/// A sweep engine: joins the positions `start..end` of a cloud sorted by
/// `x` against everything before them.
pub trait IntervalSolver {
    /// Whether the engine reads the columns rather than the points.
    const USE_SOA: bool;

    /// Whether the engine reads the columns: what [`Self::USE_SOA`] holds,
    /// in the form that contracts speak of. An engine states it openly, so
    /// that it is known wherever the engine is named.
    spec fn reads_columns() -> bool;

    /// The constant holds what the contracts speak of.
    proof fn lemma_use_soa()
        ensures
            Self::USE_SOA == Self::reads_columns(),
    ;

    /// Writes into `ret` each pair that a position in `start..end` forms
    /// with a close point at an earlier position, exactly once and smaller
    /// identity first. What `ret` held before is discarded.
    ///
    /// The columns must match the points only where the engine reads them.
    /// An engine that does not, such as the sliding-window engine, may be
    /// handed any columns, empty ones too. Which of the engines reads them
    /// is stated by
    /// [`lemma_scan_reads_columns`](crate::scan::lemma_scan_reads_columns)
    /// and
    /// [`lemma_subscan_reads_no_columns`](crate::subscan::lemma_subscan_reads_no_columns).
    fn solve_interval(
        xyzi: &[Point],
        xyzi_soa: (&[i64], &[i64], &[i64], &[u16]),
        start: usize,
        end: usize,
        ret: &mut Vec<Pair>,
    )
        requires
            xyzi@.len() <= MAX_POINTS,
            start <= end <= xyzi@.len(),
            sorted_by_x(xyzi@),
            distinct_ids(xyzi@),
            Self::reads_columns() ==> columns_match(
                xyzi@,
                xyzi_soa.0@,
                xyzi_soa.1@,
                xyzi_soa.2@,
                xyzi_soa.3@,
            ),
        ensures
            final(ret)@.no_duplicates(),
            final(ret)@.to_set() == interval_pairs(xyzi@, start as int, end as int),
            forall|k: int| 0 <= k < final(ret)@.len() ==> final(ret)@[k].0 < final(ret)@[k].1,
    ;
}

/// In a sorted cloud, a position more than the threshold behind `i` along
/// `x` is also that far behind every later position, and close to none of
/// them.
pub proof fn lemma_left_of_window(s: Seq<Point>, j: int, i: int, later: int)
    requires
        sorted_by_x(s),
        0 <= j < s.len(),
        0 <= i <= later < s.len(),
        s[i].0 - s[j].0 > THRESHOLD,
    ensures
        s[later].0 - s[j].0 > THRESHOLD,
        !close(s[j], s[later]),
{
    lemma_far_on_axis(s[j], s[later]);
}

/// Finds where the window of position `i` begins, by bisection over the
/// sorted `x` column.
pub fn window_start(xs: &[i64], i: usize) -> (from: usize)
    requires
        i < xs@.len(),
        ascending(xs@),
    ensures
        is_window_start(xs@, from as int, i as int),
{
    let xi: i64 = xs[i];
    let mut lo: usize = 0;
    let mut hi: usize = i;
    while lo < hi
        invariant
            0 <= lo <= hi <= i < xs@.len(),
            xi == xs@[i as int],
            ascending(xs@),
            forall|j: int| 0 <= j < lo ==> xs@[i as int] - #[trigger] xs@[j] > THRESHOLD,
            xs@[i as int] - xs@[hi as int] <= THRESHOLD,
        decreases hi - lo,
    {
        let mid: usize = lo + (hi - lo) / 2;
        if exceeds_threshold(xi, xs[mid]) {
            lo = mid + 1;
        } else {
            hi = mid;
        }
    }
    lo
}

/// Finds where the window of position `i` begins, by bisection over the
/// sorted points.
pub fn window_start_of_points(xyzi: &[Point], i: usize) -> (from: usize)
    requires
        i < xyzi@.len(),
        sorted_by_x(xyzi@),
    ensures
        is_window_start(axis_values(xyzi@, 0), from as int, i as int),
{
    let xi: i64 = xyzi[i].0;
    let mut lo: usize = 0;
    let mut hi: usize = i;
    while lo < hi
        invariant
            0 <= lo <= hi <= i < xyzi@.len(),
            xi == xyzi@[i as int].0,
            sorted_by_x(xyzi@),
            forall|j: int| 0 <= j < lo ==> xyzi@[i as int].0 - (#[trigger] xyzi@[j]).0 > THRESHOLD,
            xyzi@[i as int].0 - xyzi@[hi as int].0 <= THRESHOLD,
        decreases hi - lo,
    {
        let mid: usize = lo + (hi - lo) / 2;
        if exceeds_threshold(xi, xyzi[mid].0) {
            lo = mid + 1;
        } else {
            hi = mid;
        }
    }
    lo
}

} // verus!
