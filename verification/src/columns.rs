//! The columns of a cloud: its fields stored apart, the `x` of every
//! point in one array, the `y` in another, and so on. The columns stand
//! position by position for the points they were built from, and are
//! rebuilt together whenever the points are rearranged.

use crate::parallel::fill_columns;
use crate::point::{axis_values, ids_of, Point};
use vstd::prelude::*;

verus! {

/// The four columns hold, position by position, the fields of the points.
pub open spec fn columns_match(
    s: Seq<Point>,
    x: Seq<i64>,
    y: Seq<i64>,
    z: Seq<i64>,
    id: Seq<u16>,
) -> bool {
    &&& x.len() == s.len()
    &&& y.len() == s.len()
    &&& z.len() == s.len()
    &&& id.len() == s.len()
    &&& forall|k: int| 0 <= k < s.len() ==> s[k] == (#[trigger] x[k], y[k], z[k], id[k])
}

/// The points that four columns of equal length hold.
pub open spec fn rows(x: Seq<i64>, y: Seq<i64>, z: Seq<i64>, id: Seq<u16>) -> Seq<Point> {
    Seq::new(x.len(), |k: int| (x[k], y[k], z[k], id[k]))
}

/// Fills one column from the points: the coordinates along `axis` into a
/// column of coordinates, the identities into the column of identities.
/// What the column held before is discarded.
pub fn fill_column(xyzi: &[Point], axis: usize, dst: Result<&mut Vec<i64>, &mut Vec<u16>>)
    ensures
        dst matches Ok(column) ==> final(column)@ == axis_values(xyzi@, axis as int),
        dst matches Err(column) ==> final(column)@ == ids_of(xyzi@),
{
    let n: usize = xyzi.len();
    match dst {
        Ok(column) => {
            column.truncate(0);
            let mut k: usize = 0;
            while k < n
                invariant
                    k <= n == xyzi@.len(),
                    column@.len() == k,
                    forall|j: int|
                        0 <= j < k ==> column@[j] == axis_values(xyzi@, axis as int)[j],
                decreases n - k,
            {
                let p: Point = xyzi[k];
                column.push(
                    if axis == 0 {
                        p.0
                    } else if axis == 1 {
                        p.1
                    } else {
                        p.2
                    },
                );
                k += 1;
            }
            assert(column@ =~= axis_values(xyzi@, axis as int));
        },
        Err(column) => {
            column.truncate(0);
            let mut k: usize = 0;
            while k < n
                invariant
                    k <= n == xyzi@.len(),
                    column@.len() == k,
                    forall|j: int| 0 <= j < k ==> column@[j] == ids_of(xyzi@)[j],
                decreases n - k,
            {
                column.push(xyzi[k].3);
                k += 1;
            }
            assert(column@ =~= ids_of(xyzi@));
        },
    }
}

/// Rebuilds the four columns from the points, all four together, each on
/// a worker of its own.
pub fn rebuild_columns(
    xyzi: &[Point],
    xyzi_soa: (&mut Vec<i64>, &mut Vec<i64>, &mut Vec<i64>, &mut Vec<u16>),
)
    ensures
        columns_match(
            xyzi@,
            final(xyzi_soa.0)@,
            final(xyzi_soa.1)@,
            final(xyzi_soa.2)@,
            final(xyzi_soa.3)@,
        ),
{
    let (x_soa, y_soa, z_soa, i_soa) = xyzi_soa;
    fill_columns(xyzi, x_soa, y_soa, z_soa, i_soa);
}

/// The coordinates of the points along one axis, in a column of their own.
pub fn axis_column(xyzi: &[Point], axis: usize) -> (column: Vec<i64>)
    ensures
        column@ == axis_values(xyzi@, axis as int),
{
    let mut column: Vec<i64> = Vec::new();
    fill_column(xyzi, axis, Ok(&mut column));
    column
}

} // verus!
