//! The axis profiler: for each axis, how many pairs of points lie within
//! the threshold of one another along that axis alone.

use crate::point::{ascending, axis_values, exceeds_threshold, span, Point, THRESHOLD};
use crate::columns::axis_column;
use crate::parallel::{par_map_range, sort_values};
use vstd::prelude::*;
use vstd::slice::slice_to_vec;

verus! {

/// Two coordinates lie within the threshold of one another.
pub open spec fn within_reach(a: i64, b: i64) -> bool {
    span(a, b) <= THRESHOLD
}

/// How many of the values lie within the threshold of `a`.
pub open spec fn count_near(v: Seq<i64>, a: i64) -> nat
    decreases v.len(),
{
    if v.len() == 0 {
        0
    } else {
        count_near(v.drop_last(), a) + if within_reach(v.last(), a) {
            1nat
        } else {
            0nat
        }
    }
}

/// How many pairs of positions hold values within the threshold of one
/// another.
pub open spec fn near_pairs(v: Seq<i64>) -> nat
    decreases v.len(),
{
    if v.len() == 0 {
        0
    } else {
        near_pairs(v.drop_last()) + count_near(v.drop_last(), v.last())
    }
}

/// The most pairs that `n` values can form.
pub open spec fn pair_capacity(n: int) -> int {
    n * (n - 1) / 2
}

/// The pairs of positions that hold values within the threshold of one
/// another, the earlier position first.
pub open spec fn near_set(v: Seq<i64>) -> Set<(int, int)> {
    Set::new(|p: (int, int)| 0 <= p.0 < p.1 < v.len() && within_reach(v[p.0], v[p.1]))
}

/// The first `m` positions whose values lie within the threshold of `a`,
/// each paired with the position `at`.
spec fn near_column(v: Seq<i64>, a: i64, m: int, at: int) -> Set<(int, int)> {
    Set::new(|p: (int, int)| 0 <= p.0 < m && p.1 == at && within_reach(v[p.0], a))
}

proof fn lemma_near_column_counts(v: Seq<i64>, a: i64, m: int, at: int)
    requires
        0 <= m <= v.len(),
    ensures
        near_column(v, a, m, at).finite(),
        near_column(v, a, m, at).len() == count_near(v.take(m), a),
    decreases m,
{
    if m == 0 {
        assert(near_column(v, a, 0, at) =~= Set::<(int, int)>::empty());
    } else {
        lemma_near_column_counts(v, a, m - 1, at);
        assert(v.take(m).drop_last() =~= v.take(m - 1));
        assert(v.take(m).last() == v[m - 1]);
        let before = near_column(v, a, m - 1, at);
        if within_reach(v[m - 1], a) {
            assert(near_column(v, a, m, at) =~= before.insert((m - 1, at)));
        } else {
            assert(near_column(v, a, m, at) =~= before);
        }
    }
}

/// The count of near pairs is the number of pairs of positions whose
/// values lie within the threshold of one another.
pub proof fn lemma_near_pairs_counts_pairs(v: Seq<i64>)
    ensures
        near_set(v).finite(),
        near_set(v).len() == near_pairs(v),
    decreases v.len(),
{
    if v.len() == 0 {
        assert(near_set(v) =~= Set::<(int, int)>::empty());
    } else {
        let rest = v.drop_last();
        let at = v.len() - 1;
        lemma_near_pairs_counts_pairs(rest);
        lemma_near_column_counts(rest, v.last(), at, at);
        assert(rest.take(at) =~= rest);
        let column = near_column(rest, v.last(), at, at);
        assert(near_set(v) =~= near_set(rest) + column);
        assert(near_set(rest).disjoint(column));
        vstd::set_lib::lemma_set_disjoint_lens(near_set(rest), column);
    }
}

/// Taking a value out of the list takes it out of the count.
proof fn lemma_count_near_remove(v: Seq<i64>, a: i64, k: int)
    requires
        0 <= k < v.len(),
    ensures
        count_near(v, a) == count_near(v.remove(k), a) + if within_reach(v[k], a) {
            1nat
        } else {
            0nat
        },
    decreases v.len(),
{
    if k == v.len() - 1 {
        assert(v.remove(k) =~= v.drop_last());
    } else {
        let rest = v.drop_last();
        lemma_count_near_remove(rest, a, k);
        assert(v.remove(k).drop_last() =~= rest.remove(k));
        assert(v.remove(k).last() == v.last());
    }
}

/// Taking a value out of the list takes out the pairs it forms with the
/// values that stay.
proof fn lemma_near_pairs_remove(v: Seq<i64>, k: int)
    requires
        0 <= k < v.len(),
    ensures
        near_pairs(v) == near_pairs(v.remove(k)) + count_near(v.remove(k), v[k]),
    decreases v.len(),
{
    if k == v.len() - 1 {
        assert(v.remove(k) =~= v.drop_last());
    } else {
        let rest = v.drop_last();
        lemma_near_pairs_remove(rest, k);
        lemma_count_near_remove(rest, v.last(), k);
        assert(v.remove(k).drop_last() =~= rest.remove(k));
        assert(v.remove(k).last() == v.last());
    }
}

/// The count of values near `a` does not depend on their order.
proof fn lemma_count_near_reordered(v: Seq<i64>, w: Seq<i64>, a: i64)
    requires
        v.to_multiset() == w.to_multiset(),
    ensures
        count_near(v, a) == count_near(w, a),
    decreases v.len(),
{
    v.to_multiset_ensures();
    w.to_multiset_ensures();
    if v.len() > 0 {
        let last = v.last();
        assert(v.contains(last));
        assert(w.to_multiset().count(last) > 0);
        let k = choose|k: int| 0 <= k < w.len() && w[k] == last;
        assert(v.remove(v.len() - 1) =~= v.drop_last());
        lemma_count_near_remove(w, a, k);
        lemma_count_near_reordered(v.drop_last(), w.remove(k), a);
    }
}

/// The number of near pairs does not depend on the order of the values.
pub proof fn lemma_near_pairs_reordered(v: Seq<i64>, w: Seq<i64>)
    requires
        v.to_multiset() == w.to_multiset(),
    ensures
        near_pairs(v) == near_pairs(w),
    decreases v.len(),
{
    v.to_multiset_ensures();
    w.to_multiset_ensures();
    if v.len() > 0 {
        let last = v.last();
        assert(v.contains(last));
        assert(w.to_multiset().count(last) > 0);
        let k = choose|k: int| 0 <= k < w.len() && w[k] == last;
        assert(v.remove(v.len() - 1) =~= v.drop_last());
        lemma_near_pairs_remove(w, k);
        lemma_near_pairs_reordered(v.drop_last(), w.remove(k));
        lemma_count_near_reordered(v.drop_last(), w.remove(k), last);
    }
}

/// In ascending values, those near `a` among the first `m` are the ones
/// from `from` on, where `from` is the first position within reach of `a`.
proof fn lemma_count_near_sorted(t: Seq<i64>, a: i64, from: int, m: int)
    requires
        0 <= from <= m <= t.len(),
        forall|k: int| 0 <= k < from ==> a - #[trigger] t[k] > THRESHOLD,
        forall|k: int| from <= k < m ==> 0 <= a - #[trigger] t[k] <= THRESHOLD,
    ensures
        count_near(t.take(m), a) == m - from,
    decreases m,
{
    if m > 0 {
        assert(t.take(m).drop_last() =~= t.take(m - 1));
        assert(t.take(m).last() == t[m - 1]);
        if m > from {
            lemma_count_near_sorted(t, a, from, m - 1);
        } else {
            lemma_count_near_sorted(t, a, from - 1, m - 1);
            assert(a - t[m - 1] > THRESHOLD);
        }
    }
}

/// No more pairs are near than there are pairs.
proof fn lemma_pair_capacity_step(n: int, end: int, start: int, ans: int)
    requires
        0 <= start <= end < n,
        0 <= ans <= pair_capacity(end),
    ensures
        ans + (end - start) <= pair_capacity(end + 1) <= pair_capacity(n),
{
    assert(end * (end - 1) + 2 * end == (end + 1) * end) by (nonlinear_arith);
    assert((end + 1) * end <= n * (n - 1)) by (nonlinear_arith)
        requires
            0 <= end < n,
    ;
}

/// Whether the pairs of `n` values can be counted: the most pairs that `n`
/// values can form is a number the machine can hold.
pub fn can_count_pairs(n: usize) -> (ok: bool)
    ensures
        ok == (pair_capacity(n as int) <= usize::MAX),
{
    if n == 0 {
        return true;
    }
    let wide: u128 = n as u128;
    assert(wide * (wide - 1) <= 0xffff_ffff_ffff_ffff * 0xffff_ffff_ffff_ffff) by (nonlinear_arith)
        requires
            1 <= wide <= 0xffff_ffff_ffff_ffff,
    ;
    wide * (wide - 1) / 2 <= usize::MAX as u128
}

/// Counts the pairs of values that lie within the threshold of one
/// another, by sorting a copy and sweeping it once.
pub fn closeness_1d(x: &[i64]) -> (ans: usize)
    requires
        pair_capacity(x@.len() as int) <= usize::MAX,
    ensures
        ans == near_set(x@).len(),
        ans == near_pairs(x@),
{
    proof {
        lemma_near_pairs_counts_pairs(x@);
    }
    let mut sorted: Vec<i64> = slice_to_vec(x);
    sort_values(sorted.as_mut_slice());
    let n: usize = sorted.len();
    proof {
        lemma_near_pairs_reordered(x@, sorted@);
        x@.to_multiset_ensures();
        sorted@.to_multiset_ensures();
        assert(sorted@.take(0) =~= Seq::<i64>::empty());
    }
    let ghost t = sorted@;
    let mut start: usize = 0;
    let mut ans: usize = 0;
    let mut end: usize = 1;
    if n == 0 {
        return 0;
    }
    proof {
        assert(t.take(1).drop_last() =~= Seq::<i64>::empty());
        assert(near_pairs(Seq::<i64>::empty()) == 0);
        assert(count_near(Seq::<i64>::empty(), t.take(1).last()) == 0);
        assert(pair_capacity(1) == 0);
    }
    while end < n
        invariant
            t == sorted@,
            n == t.len(),
            n == x@.len(),
            1 <= end <= n,
            start < end,
            pair_capacity(n as int) <= usize::MAX,
            ascending(t),
            forall|k: int| 0 <= k < start ==> t[end - 1] - #[trigger] t[k] > THRESHOLD,
            ans == near_pairs(t.take(end as int)),
            ans <= pair_capacity(end as int),
        decreases n - end,
    {
        while exceeds_threshold(sorted[end], sorted[start])
            invariant
                t == sorted@,
                start <= end < t.len(),
                forall|k: int| 0 <= k < start ==> t[end as int] - #[trigger] t[k] > THRESHOLD,
            decreases end - start,
        {
            start += 1;
        }
        proof {
            lemma_count_near_sorted(t, t[end as int], start as int, end as int);
            assert(t.take(end + 1).drop_last() =~= t.take(end as int));
            assert(t.take(end + 1).last() == t[end as int]);
            lemma_pair_capacity_step(n as int, end as int, start as int, ans as int);
        }
        ans += end - start;
        end += 1;
    }
    proof {
        assert(t.take(n as int) =~= t);
    }
    ans
}

/// The closeness of the cloud along one axis.
pub fn axis_closeness(xyzi: &[Point], axis: usize) -> (ans: usize)
    requires
        pair_capacity(xyzi@.len() as int) <= usize::MAX,
    ensures
        ans == near_set(axis_values(xyzi@, axis as int)).len(),
        ans == near_pairs(axis_values(xyzi@, axis as int)),
{
    let column: Vec<i64> = axis_column(xyzi, axis);
    closeness_1d(column.as_slice())
}

/// For each of the axes `x`, `y`, `z`, the number of pairs of points that
/// lie within the threshold of one another along that axis. The three
/// axes are profiled each on a worker of its own.
pub fn compute_closeness(xyzi: &[Point]) -> (counts: [usize; 3])
    requires
        pair_capacity(xyzi@.len() as int) <= usize::MAX,
    ensures
        forall|axis: int|
            0 <= axis < 3 ==>
                (#[trigger] counts@[axis]) == near_set(axis_values(xyzi@, axis)).len(),
        forall|axis: int|
            0 <= axis < 3 ==> (#[trigger] counts@[axis]) == near_pairs(axis_values(xyzi@, axis)),
{
    let profile = |axis: usize| -> (ans: usize)
        ensures
            ans == near_set(axis_values(xyzi@, axis as int)).len(),
            ans == near_pairs(axis_values(xyzi@, axis as int)),
        {
            axis_closeness(xyzi, axis)
        };
    let counts: Vec<usize> = par_map_range(3, profile);
    proof {
        assert(call_ensures(profile, (0usize,), counts@[0]));
        assert(call_ensures(profile, (1usize,), counts@[1]));
        assert(call_ensures(profile, (2usize,), counts@[2]));
    }
    [counts[0], counts[1], counts[2]]
}

} // verus!
