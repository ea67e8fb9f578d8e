//! The parallel driver: sorts the cloud by `x`, cuts the positions into
//! contiguous chunks, joins each chunk on a worker with one of the sweep
//! engines, and gathers the partial answers into one buffer.

use crate::pairs::{
    close_pairs, distinct_ids, interval_pairs, lemma_append_interval,
    lemma_full_interval_is_answer, lemma_interval_pairs_empty, lemma_interval_pairs_normalized,
    lemma_permutation_keeps_answer, sorted_by_x,
};
use crate::point::{Pair, Point, MAX_POINTS};
use crate::solver::IntervalSolver;
use crate::columns::{columns_match, rebuild_columns};
use crate::parallel::{par_map_range, sort_by_x};
use vstd::prelude::*;

verus! {

/// The length of every chunk but the last: the points shared out evenly,
/// and at least one.
pub open spec fn chunk_size(n: int, parallel: int) -> int {
    if n / parallel < 1 {
        1
    } else {
        n / parallel
    }
}

/// The position at which chunk `k` begins. Chunks that would begin past
/// the end begin at the end, and so does the chunk after the last.
pub open spec fn chunk_start(n: int, parallel: int, k: int) -> int {
    if k >= parallel || k * chunk_size(n, parallel) >= n {
        n
    } else {
        k * chunk_size(n, parallel)
    }
}

/// The position before which chunk `k` ends: where the next chunk begins.
/// The last chunk takes what remains.
pub open spec fn chunk_end(n: int, parallel: int, k: int) -> int {
    chunk_start(n, parallel, k + 1)
}

/// What a worker owes for chunk `k`: the pairs of its positions, each once.
pub open spec fn is_chunk_answer(s: Seq<Point>, parallel: int, k: int, out: Seq<Pair>) -> bool {
    &&& out.no_duplicates()
    &&& out.to_set() == interval_pairs(
        s,
        chunk_start(s.len() as int, parallel, k),
        chunk_end(s.len() as int, parallel, k),
    )
}

/// The first `k` partial answers, one after the other.
pub open spec fn gathered(parts: Seq<Vec<Pair>>, k: int) -> Seq<Pair>
    decreases k,
{
    if k <= 0 {
        Seq::empty()
    } else {
        gathered(parts, k - 1) + parts[k - 1]@
    }
}

/// The pairs that the chunks before chunk `k` contribute together.
pub open spec fn chunks_before(s: Seq<Point>, parallel: int, k: int) -> Set<Pair>
    decreases k,
{
    if k <= 0 {
        Set::empty()
    } else {
        chunks_before(s, parallel, k - 1).union(
            interval_pairs(
                s,
                chunk_start(s.len() as int, parallel, k - 1),
                chunk_end(s.len() as int, parallel, k - 1),
            ),
        )
    }
}

/// The pairs that a join in `parallel` chunks finds: what all its chunks
/// contribute together.
pub open spec fn chunked_pairs(s: Seq<Point>, parallel: int) -> Set<Pair> {
    chunks_before(s, parallel, parallel)
}

proof fn lemma_chunk_size_bounds(n: int, parallel: int, k: int)
    requires
        0 <= n,
        1 <= parallel,
        0 <= k <= parallel,
    ensures
        1 <= chunk_size(n, parallel),
        0 <= k * chunk_size(n, parallel),
        k * chunk_size(n, parallel) <= if n < parallel {
            parallel
        } else {
            n
        },
{
    let size = chunk_size(n, parallel);
    let q = n / parallel;
    assert(0 <= q && q * parallel <= n) by (nonlinear_arith)
        requires
            0 <= n,
            1 <= parallel,
            q == n / parallel,
    ;
    assert(0 <= k * size) by (nonlinear_arith)
        requires
            0 <= k,
            1 <= size,
    ;
    if q < 1 {
        assert(k * size == k);
        assert(n < parallel) by (nonlinear_arith)
            requires
                q == n / parallel,
                q < 1,
                0 <= n,
                1 <= parallel,
        ;
    } else {
        assert(k * q <= parallel * q) by (nonlinear_arith)
            requires
                0 <= k <= parallel,
                0 <= q,
        ;
        assert(parallel * q == q * parallel) by (nonlinear_arith);
    }
}

/// The chunks follow one another from the first position to the last.
pub proof fn lemma_chunks_are_contiguous(n: int, parallel: int, k: int)
    requires
        0 <= n,
        1 <= parallel,
        0 <= k < parallel,
    ensures
        chunk_start(n, parallel, 0) == 0,
        chunk_end(n, parallel, parallel - 1) == n,
        0 <= chunk_start(n, parallel, k) <= chunk_end(n, parallel, k) <= n,
        k + 1 < parallel ==> chunk_end(n, parallel, k) == chunk_start(n, parallel, k + 1),
{
    lemma_chunk_size_bounds(n, parallel, k);
    lemma_chunk_size_bounds(n, parallel, k + 1);
    let size = chunk_size(n, parallel);
    assert(k * size <= (k + 1) * size) by (nonlinear_arith)
        requires
            1 <= size,
    ;
    assert(0 * size == 0);
}

/// Taken together, the chunks before chunk `k` contribute what one sweep
/// up to the start of chunk `k` contributes.
pub proof fn lemma_chunks_before(s: Seq<Point>, parallel: int, k: int)
    requires
        1 <= parallel,
        0 <= k <= parallel,
    ensures
        chunks_before(s, parallel, k) == interval_pairs(
            s,
            0,
            chunk_start(s.len() as int, parallel, k),
        ),
    decreases k,
{
    let n = s.len() as int;
    if k == 0 {
        lemma_chunks_are_contiguous(n, parallel, 0);
        lemma_interval_pairs_empty(s, 0, 0);
    } else {
        lemma_chunks_before(s, parallel, k - 1);
        lemma_chunks_are_contiguous(n, parallel, k - 1);
        crate::pairs::lemma_interval_pairs_split(
            s,
            0,
            chunk_start(n, parallel, k - 1),
            chunk_end(n, parallel, k - 1),
        );
    }
}

/// However many chunks the cloud is cut into, the chunks find together
/// the same pairs: those of the undivided join.
pub proof fn lemma_chunking_invariance(s: Seq<Point>, parallel: int, other: int)
    requires
        1 <= parallel,
        1 <= other,
    ensures
        chunked_pairs(s, parallel) == chunked_pairs(s, other),
        chunked_pairs(s, parallel) == interval_pairs(s, 0, s.len() as int),
        distinct_ids(s) ==> chunked_pairs(s, parallel) == close_pairs(s),
{
    lemma_chunks_before(s, parallel, parallel);
    lemma_chunks_before(s, other, other);
    if distinct_ids(s) {
        lemma_full_interval_is_answer(s);
    }
}

/// Gathering the answers of the first `k` chunks gives the pairs of one
/// sweep up to the start of chunk `k`, each once.
proof fn lemma_gathered(s: Seq<Point>, parallel: int, parts: Seq<Vec<Pair>>, k: int)
    requires
        distinct_ids(s),
        1 <= parallel,
        0 <= k <= parallel,
        parts.len() == parallel,
        forall|c: int| 0 <= c < parallel ==> is_chunk_answer(s, parallel, c, #[trigger] parts[c]@),
    ensures
        gathered(parts, k).no_duplicates(),
        gathered(parts, k).to_set() == interval_pairs(
            s,
            0,
            chunk_start(s.len() as int, parallel, k),
        ),
    decreases k,
{
    let n = s.len() as int;
    if k == 0 {
        lemma_chunks_are_contiguous(n, parallel, 0);
        lemma_interval_pairs_empty(s, 0, 0);
        assert(gathered(parts, 0).to_set() =~= Set::<Pair>::empty());
    } else {
        lemma_gathered(s, parallel, parts, k - 1);
        lemma_chunks_are_contiguous(n, parallel, k - 1);
        assert(is_chunk_answer(s, parallel, k - 1, parts[k - 1]@));
        lemma_append_interval(
            s,
            gathered(parts, k - 1),
            parts[k - 1]@,
            0,
            chunk_start(n, parallel, k - 1),
            chunk_end(n, parallel, k - 1),
        );
    }
}

/// The positions `start..end` of chunk `chunk_idx`.
pub fn chunk_bounds(n: usize, parallel: usize, chunk_idx: usize) -> (bounds: (usize, usize))
    requires
        1 <= parallel,
        chunk_idx < parallel,
    ensures
        bounds.0 == chunk_start(n as int, parallel as int, chunk_idx as int),
        bounds.1 == chunk_end(n as int, parallel as int, chunk_idx as int),
        bounds.0 <= bounds.1 <= n,
{
    proof {
        lemma_chunk_size_bounds(n as int, parallel as int, chunk_idx as int);
        lemma_chunk_size_bounds(n as int, parallel as int, chunk_idx + 1);
        lemma_chunks_are_contiguous(n as int, parallel as int, chunk_idx as int);
    }
    let share: usize = n / parallel;
    let size: usize = if share < 1 {
        1
    } else {
        share
    };
    let reach: usize = chunk_idx * size;
    let start: usize = if reach < n {
        reach
    } else {
        n
    };
    let end: usize = if chunk_idx + 1 == parallel {
        n
    } else {
        assert((chunk_idx + 1) * size == reach + size) by (nonlinear_arith)
            requires
                reach == chunk_idx * size,
        ;
        if reach + size < n {
            reach + size
        } else {
            n
        }
    };
    (start, end)
}

/// Joins one chunk: the work of one worker.
pub fn solve_chunk<IS: IntervalSolver>(
    xyzi: &[Point],
    xyzi_soa: (&[i64], &[i64], &[i64], &[u16]),
    parallel: usize,
    chunk_idx: usize,
) -> (out: Vec<Pair>)
    requires
        xyzi@.len() <= MAX_POINTS,
        sorted_by_x(xyzi@),
        distinct_ids(xyzi@),
        IS::reads_columns() ==> columns_match(
            xyzi@,
            xyzi_soa.0@,
            xyzi_soa.1@,
            xyzi_soa.2@,
            xyzi_soa.3@,
        ),
        1 <= parallel,
        chunk_idx < parallel,
    ensures
        is_chunk_answer(xyzi@, parallel as int, chunk_idx as int, out@),
{
    let (start, end) = chunk_bounds(xyzi.len(), parallel, chunk_idx);
    let mut ret: Vec<Pair> = Vec::new();
    if start < end {
        IS::solve_interval(xyzi, xyzi_soa, start, end, &mut ret);
    } else {
        proof {
            lemma_interval_pairs_empty(xyzi@, start as int, end as int);
            assert(ret@.to_set() =~= Set::<Pair>::empty());
        }
    }
    ret
}

/// Gathers the partial answers into `ret`, in the order of the chunks. Only
/// the caller writes to `ret`, and each partial answer is copied once.
pub fn reduce_partials(parts: &Vec<Vec<Pair>>, ret: &mut Vec<Pair>)
    ensures
        final(ret)@ == gathered(parts@, parts@.len() as int),
{
    ret.truncate(0);
    let mut k: usize = 0;
    while k < parts.len()
        invariant
            k <= parts@.len(),
            ret@ == gathered(parts@, k as int),
        decreases parts@.len() - k,
    {
        let part: &Vec<Pair> = &parts[k];
        let ghost before = ret@;
        let mut t: usize = 0;
        while t < part.len()
            invariant
                t <= part@.len(),
                ret@ == before + part@.subrange(0, t as int),
            decreases part@.len() - t,
        {
            ret.push(part[t]);
            t += 1;
            assert(ret@ =~= before + part@.subrange(0, t as int));
        }
        assert(part@.subrange(0, part@.len() as int) =~= part@);
        k += 1;
    }
}

/// Joins the cloud on `parallel` workers with the engine `IS`.
///
/// The points are sorted in place by `x`. Where the engine reads the
/// columns they are rebuilt from the sorted points; otherwise they are left
/// as they were. `ret` receives each close pair of the cloud exactly once,
/// smaller identity first, whatever the number of workers.
///
/// Which engine reads the columns is stated by
/// [`lemma_scan_reads_columns`](crate::scan::lemma_scan_reads_columns) and
/// [`lemma_subscan_reads_no_columns`](crate::subscan::lemma_subscan_reads_no_columns).
pub fn solve_threaded<IS: IntervalSolver>(
    xyzi: &mut [Point],
    xyzi_soa: (&mut Vec<i64>, &mut Vec<i64>, &mut Vec<i64>, &mut Vec<u16>),
    parallel: usize,
    ret: &mut Vec<Pair>,
)
    requires
        old(xyzi)@.len() <= MAX_POINTS,
        distinct_ids(old(xyzi)@),
        1 <= parallel,
    ensures
        final(xyzi)@.to_multiset() == old(xyzi)@.to_multiset(),
        sorted_by_x(final(xyzi)@),
        IS::reads_columns() ==> columns_match(
            final(xyzi)@,
            final(xyzi_soa.0)@,
            final(xyzi_soa.1)@,
            final(xyzi_soa.2)@,
            final(xyzi_soa.3)@,
        ),
        !IS::reads_columns() ==> {
            &&& final(xyzi_soa.0)@ == old(xyzi_soa.0)@
            &&& final(xyzi_soa.1)@ == old(xyzi_soa.1)@
            &&& final(xyzi_soa.2)@ == old(xyzi_soa.2)@
            &&& final(xyzi_soa.3)@ == old(xyzi_soa.3)@
        },
        final(ret)@.no_duplicates(),
        final(ret)@.to_set() == close_pairs(old(xyzi)@),
        final(ret)@.to_set() == chunked_pairs(final(xyzi)@, parallel as int),
        forall|k: int| 0 <= k < final(ret)@.len() ==> final(ret)@[k].0 < final(ret)@[k].1,
{
    let (x_soa, y_soa, z_soa, i_soa) = xyzi_soa;
    proof {
        IS::lemma_use_soa();
    }
    sort_by_x(xyzi);
    proof {
        lemma_permutation_keeps_answer(old(xyzi)@, xyzi@);
    }
    if IS::USE_SOA {
        rebuild_columns(xyzi, (x_soa, y_soa, z_soa, i_soa));
    }
    let sorted: &[Point] = xyzi;
    let columns = (x_soa.as_slice(), y_soa.as_slice(), z_soa.as_slice(), i_soa.as_slice());
    let worker = |chunk_idx: usize| -> (out: Vec<Pair>)
        requires
            chunk_idx < parallel,
        ensures
            is_chunk_answer(sorted@, parallel as int, chunk_idx as int, out@),
        {
            solve_chunk::<IS>(sorted, columns, parallel, chunk_idx)
        };
    let parts: Vec<Vec<Pair>> = par_map_range(parallel, worker);
    reduce_partials(&parts, ret);
    proof {
        assert forall|c: int| 0 <= c < parallel implies is_chunk_answer(
            xyzi@,
            parallel as int,
            c,
            #[trigger] parts@[c]@,
        ) by {
            let k = c as usize;
            assert(call_ensures(worker, (k,), parts@[k as int]));
        }
        lemma_gathered(xyzi@, parallel as int, parts@, parallel as int);
        lemma_full_interval_is_answer(xyzi@);
        lemma_chunking_invariance(xyzi@, parallel as int, parallel as int);
        assert forall|k: int| 0 <= k < ret@.len() implies ret@[k].0 < ret@[k].1 by {
            assert(ret@.to_set().contains(ret@[k]));
            lemma_interval_pairs_normalized(xyzi@, 0, xyzi@.len() as int, ret@[k]);
        }
    }
}

} // verus!
