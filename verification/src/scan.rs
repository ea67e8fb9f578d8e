//! The sorted-scan engine: each point is tested against the points before
//! it whose `x` lies within the threshold of its own. The candidates are
//! read from the columns, eight at a time, with a one-by-one remainder.

use crate::pairs::{
    distinct_ids, hits, interval_pairs, lemma_append_interval, lemma_hits_concat,
    lemma_interval_pairs_empty, lemma_interval_pairs_normalized, lemma_row_is_interval,
    sorted_by_x,
};
use crate::point::{close, exceeds_threshold, is_close, ordered_pair, Pair, Point, THRESHOLD};
use crate::columns::{columns_match, rows};
use crate::solver::{lemma_left_of_window, window_start, IntervalSolver};
use vstd::prelude::*;

verus! {

/// The number of candidates the batch kernel tests at once.
pub const LANES: usize = 8;

/// Where no candidate of the range is close, nothing is reported.
pub proof fn lemma_no_hits(c: Seq<Point>, cur: Point, lo: int, hi: int)
    requires
        forall|k: int| lo <= k < hi ==> !close(cur, #[trigger] c[k]),
    ensures
        hits(c, cur, lo, hi) == Seq::<Pair>::empty(),
    decreases hi - lo,
{
    if lo < hi {
        lemma_no_hits(c, cur, lo, hi - 1);
    }
}

/// The batch kernel: tests `cur` against the eight candidates at positions
/// `j..j + 8` of the columns and appends the pair of each close one, in the
/// order of the candidates. A batch without a close candidate leaves `ret`
/// untouched.
///
/// The result is the one that eight single tests give.
pub fn scan_batch(
    xyzi_soa: (&[i64], &[i64], &[i64], &[u16]),
    cur: Point,
    j: usize,
    ret: &mut Vec<Pair>,
)
    requires
        j + LANES <= xyzi_soa.0@.len(),
        xyzi_soa.1@.len() == xyzi_soa.0@.len(),
        xyzi_soa.2@.len() == xyzi_soa.0@.len(),
        xyzi_soa.3@.len() == xyzi_soa.0@.len(),
    ensures
        final(ret)@ == old(ret)@ + hits(
            rows(xyzi_soa.0@, xyzi_soa.1@, xyzi_soa.2@, xyzi_soa.3@),
            cur,
            j as int,
            j + LANES,
        ),
{
    let (vx, vy, vz, vi) = xyzi_soa;
    let ghost c = rows(vx@, vy@, vz@, vi@);
    let ghost before = ret@;
    let n: usize = vx.len();
    let mut mask: [bool; 8] = [false; 8];
    let mut any: bool = false;
    let mut t: usize = 0;
    while t < LANES
        invariant
            t <= LANES,
            j + LANES <= n == vx@.len(),
            vy@.len() == vx@.len(),
            vz@.len() == vx@.len(),
            vi@.len() == vx@.len(),
            c == rows(vx@, vy@, vz@, vi@),
            forall|u: int| 0 <= u < t ==> mask@[u] == close(cur, #[trigger] c[j + u]),
            !any ==> forall|u: int| 0 <= u < t ==> !close(cur, #[trigger] c[j + u]),
        decreases LANES - t,
    {
        let q: Point = (vx[j + t], vy[j + t], vz[j + t], vi[j + t]);
        let hit: bool = is_close(&cur, &q);
        mask[t] = hit;
        if hit {
            any = true;
        }
        t += 1;
    }
    if !any {
        proof {
            assert forall|k: int| j <= k < j + LANES implies !close(cur, #[trigger] c[k]) by {
                assert(!close(cur, c[j + (k - j)]));
            }
            lemma_no_hits(c, cur, j as int, j + LANES);
            assert(ret@ =~= before + hits(c, cur, j as int, j + LANES));
        }
        return ;
    }
    let mut t: usize = 0;
    assert(ret@ =~= before + hits(c, cur, j as int, j as int));
    while t < LANES
        invariant
            t <= LANES,
            j + LANES <= n == vx@.len(),
            vi@.len() == vx@.len(),
            c == rows(vx@, vy@, vz@, vi@),
            forall|u: int| 0 <= u < LANES ==> mask@[u] == close(cur, #[trigger] c[j + u]),
            ret@ == before + hits(c, cur, j as int, j + t),
        decreases LANES - t,
    {
        if mask[t] {
            ret.push(ordered_pair(cur.3, vi[j + t]));
        }
        t += 1;
        assert(ret@ =~= before + hits(c, cur, j as int, j + t));
    }
}

/// Tests the point at position `i` against the candidates at positions
/// `from..i`: whole batches first, then the remainder one by one.
fn scan_row(xyzi_soa: (&[i64], &[i64], &[i64], &[u16]), i: usize, from: usize, ret: &mut Vec<Pair>)
    requires
        from <= i < xyzi_soa.0@.len(),
        xyzi_soa.1@.len() == xyzi_soa.0@.len(),
        xyzi_soa.2@.len() == xyzi_soa.0@.len(),
        xyzi_soa.3@.len() == xyzi_soa.0@.len(),
    ensures
        final(ret)@ == old(ret)@ + hits(
            rows(xyzi_soa.0@, xyzi_soa.1@, xyzi_soa.2@, xyzi_soa.3@),
            rows(xyzi_soa.0@, xyzi_soa.1@, xyzi_soa.2@, xyzi_soa.3@)[i as int],
            from as int,
            i as int,
        ),
{
    let (vx, vy, vz, vi) = xyzi_soa;
    let ghost c = rows(vx@, vy@, vz@, vi@);
    let ghost before = ret@;
    let cur: Point = (vx[i], vy[i], vz[i], vi[i]);
    let stop: usize = i - (i - from) % LANES;
    let mut j: usize = from;
    assert(ret@ =~= before + hits(c, cur, from as int, from as int));
    while j < stop
        invariant
            from <= j <= stop <= i < vx@.len(),
            (stop - j) % 8 == 0,
            vy@.len() == vx@.len(),
            vz@.len() == vx@.len(),
            vi@.len() == vx@.len(),
            xyzi_soa == (vx, vy, vz, vi),
            c == rows(vx@, vy@, vz@, vi@),
            ret@ == before + hits(c, cur, from as int, j as int),
        decreases stop - j,
    {
        scan_batch(xyzi_soa, cur, j, ret);
        proof {
            lemma_hits_concat(c, cur, from as int, j as int, j + LANES);
            assert(ret@ =~= before + hits(c, cur, from as int, j + LANES));
        }
        j += LANES;
    }
    let mut j: usize = stop;
    while j < i
        invariant
            from <= stop <= j <= i < vx@.len(),
            vy@.len() == vx@.len(),
            vz@.len() == vx@.len(),
            vi@.len() == vx@.len(),
            c == rows(vx@, vy@, vz@, vi@),
            ret@ == before + hits(c, cur, from as int, j as int),
        decreases i - j,
    {
        let q: Point = (vx[j], vy[j], vz[j], vi[j]);
        if is_close(&cur, &q) {
            ret.push(ordered_pair(cur.3, q.3));
        }
        j += 1;
        assert(ret@ =~= before + hits(c, cur, from as int, j as int));
    }
}

/// The sorted-scan engine. It reads the columns alone, which must match
/// the points.
pub struct ScanSolver;

/// The sorted-scan engine reads the columns, so that a join with it leaves
/// the columns matching the sorted points.
pub proof fn lemma_scan_reads_columns()
    ensures
        ScanSolver::USE_SOA,
        ScanSolver::reads_columns(),
{
}

impl IntervalSolver for ScanSolver {
    const USE_SOA: bool = true;

    open spec fn reads_columns() -> bool {
        true
    }

    proof fn lemma_use_soa() {
    }

    fn solve_interval(
        xyzi: &[Point],
        xyzi_soa: (&[i64], &[i64], &[i64], &[u16]),
        start: usize,
        end: usize,
        ret: &mut Vec<Pair>,
    ) {
        let (vx, vy, vz, vi) = xyzi_soa;
        ret.truncate(0);
        proof {
            lemma_interval_pairs_empty(xyzi@, start as int, start as int);
            assert(ret@.to_set() =~= Set::<Pair>::empty());
            assert(rows(vx@, vy@, vz@, vi@) =~= xyzi@);
        }
        if start < end {
            let mut first_relevant: usize = window_start(vx, start);
            let mut i: usize = start;
            while i < end
                invariant
                    start <= i <= end <= xyzi@.len(),
                    first_relevant <= i,
                    sorted_by_x(xyzi@),
                    distinct_ids(xyzi@),
                    xyzi_soa == (vx, vy, vz, vi),
                    columns_match(xyzi@, vx@, vy@, vz@, vi@),
                    rows(vx@, vy@, vz@, vi@) == xyzi@,
                    i < end ==> forall|j: int|
                        0 <= j < first_relevant ==> (#[trigger] xyzi@[j]).0 + THRESHOLD
                            < xyzi@[i as int].0,
                    ret@.no_duplicates(),
                    ret@.to_set() == interval_pairs(xyzi@, start as int, i as int),
                decreases end - i,
            {
                let xi: i64 = vx[i];
                while exceeds_threshold(xi, vx[first_relevant])
                    invariant
                        first_relevant <= i < xyzi@.len(),
                        xi == xyzi@[i as int].0,
                        columns_match(xyzi@, vx@, vy@, vz@, vi@),
                        forall|j: int|
                            0 <= j < first_relevant ==> (#[trigger] xyzi@[j]).0 + THRESHOLD
                                < xyzi@[i as int].0,
                    decreases i - first_relevant,
                {
                    first_relevant += 1;
                }
                let ghost before = ret@;
                scan_row(xyzi_soa, i, first_relevant, ret);
                proof {
                    assert forall|j: int| 0 <= j < first_relevant implies !close(
                        xyzi@[j],
                        xyzi@[i as int],
                    ) by {
                        lemma_left_of_window(xyzi@, j, i as int, i as int);
                    }
                    lemma_row_is_interval(xyzi@, i as int, first_relevant as int);
                    lemma_append_interval(
                        xyzi@,
                        before,
                        hits(xyzi@, xyzi@[i as int], first_relevant as int, i as int),
                        start as int,
                        i as int,
                        i + 1,
                    );
                    if i + 1 < end {
                        assert forall|j: int| 0 <= j < first_relevant implies (
                        #[trigger] xyzi@[j]).0 + THRESHOLD < xyzi@[i + 1].0 by {
                            lemma_left_of_window(xyzi@, j, i as int, i + 1);
                        }
                    }
                }
                i += 1;
            }
        }
        proof {
            assert forall|k: int| 0 <= k < ret@.len() implies ret@[k].0 < ret@[k].1 by {
                assert(ret@.to_set().contains(ret@[k]));
                lemma_interval_pairs_normalized(xyzi@, start as int, end as int, ret@[k]);
            }
        }
    }
}

} // verus!
