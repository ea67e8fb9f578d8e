//! The calls into rayon: sorting in place across workers, running one
//! piece of work per worker, and filling the columns side by side. Verus
//! takes the contracts of these functions on trust.

use crate::columns::fill_column;
use crate::pairs::sorted_by_x;
use crate::point::{ascending, axis_values, ids_of, Point};
use rayon::prelude::IndexedParallelIterator;
use rayon::prelude::IntoParallelIterator;
use rayon::prelude::ParallelIterator;
use rayon::prelude::ParallelSliceMut;
use vstd::prelude::*;

verus! {

/// Runs `f` on each of the numbers `0..n`, spread over the workers, and
/// hands back the results in the order of the numbers.
///
/// Calls rayon's `into_par_iter` on the range `0..n`, `map` with `f`, and
/// `collect` into a `Vec`: `f` is called once with each number of the range,
/// and the result for number `k` stands at position `k`.
#[verifier::external_body]
pub(crate) fn par_map_range<R, F>(n: usize, f: F) -> (out: Vec<R>)
    where
        R: Send,
        F: Fn(usize) -> R + Sync + Send,
    requires
        forall|k: usize| k < n ==> call_requires(f, (k,)),
    ensures
        out@.len() == n,
        forall|k: usize| k < n ==> call_ensures(f, (k,), #[trigger] out@[k as int]),
{
    (0..n).into_par_iter().map(f).collect()
}

/// Fills the four columns from the points, each column on a worker of its
/// own.
///
/// Calls rayon's `into_par_iter` on the array of the four columns,
/// `enumerate`, and `for_each` with [`fill_column`]: the closure is called
/// once with each column and its position in the array.
#[verifier::external_body]
pub(crate) fn fill_columns(
    xyzi: &[Point],
    x: &mut Vec<i64>,
    y: &mut Vec<i64>,
    z: &mut Vec<i64>,
    id: &mut Vec<u16>,
)
    ensures
        final(x)@ == axis_values(xyzi@, 0),
        final(y)@ == axis_values(xyzi@, 1),
        final(z)@ == axis_values(xyzi@, 2),
        final(id)@ == ids_of(xyzi@),
{
    [Ok(x), Ok(y), Ok(z), Err(id)]
        .into_par_iter()
        .enumerate()
        .for_each(|(axis, dst)| fill_column(xyzi, axis, dst));
}

/// Sorts the points in ascending order of `x`.
///
/// Calls rayon's `par_sort_unstable_by_key` with the `x` coordinate as key:
/// the slice is rearranged in place into ascending order of its keys, and
/// points with equal keys may come out in any order.
#[verifier::external_body]
pub(crate) fn sort_by_x(xyzi: &mut [Point])
    ensures
        final(xyzi)@.to_multiset() == old(xyzi)@.to_multiset(),
        sorted_by_x(final(xyzi)@),
{
    xyzi.par_sort_unstable_by_key(|p| p.0);
}

/// Sorts the values in ascending order.
///
/// Calls rayon's `par_sort_unstable`: the slice is rearranged in place into
/// ascending order.
#[verifier::external_body]
pub(crate) fn sort_values(x: &mut [i64])
    ensures
        final(x)@.to_multiset() == old(x)@.to_multiset(),
        ascending(final(x)@),
{
    x.par_sort_unstable();
}

} // verus!
