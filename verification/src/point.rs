//! Points, pairs and the distance test shared by every join engine.

use vstd::prelude::*;

verus! {

/// A point `(x, y, z, id)`: three fixed-point coordinates, counted in ticks,
/// and the identity under which the point is reported.
pub type Point = (i64, i64, i64, u16);

/// A reported pair of identities `(lo, hi)` with `lo < hi`.
pub type Pair = (u16, u16);

/// Ticks per unit of length: a coordinate holds millionths of a unit.
pub const TICKS_PER_UNIT: i64 = 1_000_000;

/// The join radius in ticks (0.05 units).
pub const THRESHOLD: i64 = 50_000;

/// The square of [`THRESHOLD`].
pub const THRESHOLD2: i64 = 2_500_000_000;

/// The largest point count a join accepts: the identity range less a margin
/// kept free above the valid identities.
pub const MAX_POINTS: usize = 65525;

/// Squared Euclidean distance between two points, in square ticks.
pub open spec fn dist2(p: Point, q: Point) -> int {
    (p.0 - q.0) * (p.0 - q.0) + (p.1 - q.1) * (p.1 - q.1) + (p.2 - q.2) * (p.2 - q.2)
}

/// Two points are close when their distance is strictly below the threshold.
pub open spec fn close(p: Point, q: Point) -> bool {
    dist2(p, q) < THRESHOLD * THRESHOLD
}

/// The two identities in ascending order.
pub open spec fn ordered(a: u16, b: u16) -> Pair {
    if a < b {
        (a, b)
    } else {
        (b, a)
    }
}

/// The coordinates of a cloud along one axis: 0 for `x`, 1 for `y`, and `z`
/// otherwise.
pub open spec fn axis_values(s: Seq<Point>, axis: int) -> Seq<i64> {
    Seq::new(
        s.len(),
        |k: int|
            if axis == 0 {
                s[k].0
            } else if axis == 1 {
                s[k].1
            } else {
                s[k].2
            },
    )
}

/// The identities of a cloud.
pub open spec fn ids_of(s: Seq<Point>) -> Seq<u16> {
    Seq::new(s.len(), |k: int| s[k].3)
}

/// The values are in ascending order.
pub open spec fn ascending(v: Seq<i64>) -> bool {
    forall|i: int, j: int| 0 <= i <= j < v.len() ==> v[i] <= v[j]
}

/// Absolute difference of two coordinates.
pub open spec fn span(a: i64, b: i64) -> int {
    if a >= b {
        a - b
    } else {
        b - a
    }
}

proof fn lemma_square_of_span(a: i64, b: i64)
    ensures
        (a - b) * (a - b) == span(a, b) * span(a, b),
        span(a, b) >= 0,
{
    assert((a - b) * (a - b) == (b - a) * (b - a)) by (nonlinear_arith);
}

proof fn lemma_square_monotone(d: int, t: int)
    requires
        0 <= d,
        0 <= t,
    ensures
        d < t <==> d * d < t * t,
        d * d >= 0,
{
    assert(d < t ==> d * d < t * t) by (nonlinear_arith)
        requires
            0 <= d,
            0 <= t,
    ;
    assert(d >= t ==> d * d >= t * t) by (nonlinear_arith)
        requires
            0 <= d,
            0 <= t,
    ;
    assert(d * d >= 0) by (nonlinear_arith);
}

/// A point is never closer than its offset along a single axis: once one
/// coordinate differs by the threshold or more, the pair cannot be close.
pub proof fn lemma_far_on_axis(p: Point, q: Point)
    ensures
        span(p.0, q.0) >= THRESHOLD ==> !close(p, q),
        span(p.1, q.1) >= THRESHOLD ==> !close(p, q),
        span(p.2, q.2) >= THRESHOLD ==> !close(p, q),
{
    lemma_square_of_span(p.0, q.0);
    lemma_square_of_span(p.1, q.1);
    lemma_square_of_span(p.2, q.2);
    lemma_square_monotone(span(p.0, q.0), THRESHOLD as int);
    lemma_square_monotone(span(p.1, q.1), THRESHOLD as int);
    lemma_square_monotone(span(p.2, q.2), THRESHOLD as int);
}

/// Closeness does not depend on the order of the two points.
pub proof fn lemma_close_symmetric(p: Point, q: Point)
    ensures
        dist2(p, q) == dist2(q, p),
        close(p, q) == close(q, p),
{
    lemma_square_of_span(p.0, q.0);
    lemma_square_of_span(p.1, q.1);
    lemma_square_of_span(p.2, q.2);
    lemma_square_of_span(q.0, p.0);
    lemma_square_of_span(q.1, p.1);
    lemma_square_of_span(q.2, p.2);
}

fn coordinate_span(a: i64, b: i64) -> (d: u64)
    ensures
        d == span(a, b),
{
    let wide: i128 = if a >= b {
        a as i128 - b as i128
    } else {
        b as i128 - a as i128
    };
    wide as u64
}

/// Whether `hi` lies more than the threshold above `lo`.
pub fn exceeds_threshold(hi: i64, lo: i64) -> (r: bool)
    ensures
        r == (hi - lo > THRESHOLD),
{
    hi as i128 - lo as i128 > THRESHOLD as i128
}

/// The distance test: `dx² + dy² + dz² < T²`, strictly.
pub fn is_close(p: &Point, q: &Point) -> (r: bool)
    ensures
        r == close(*p, *q),
{
    let dx: u64 = coordinate_span(p.0, q.0);
    let dy: u64 = coordinate_span(p.1, q.1);
    let dz: u64 = coordinate_span(p.2, q.2);
    proof {
        lemma_far_on_axis(*p, *q);
        lemma_square_of_span(p.0, q.0);
        lemma_square_of_span(p.1, q.1);
        lemma_square_of_span(p.2, q.2);
    }
    if dx >= THRESHOLD as u64 || dy >= THRESHOLD as u64 || dz >= THRESHOLD as u64 {
        false
    } else {
        proof {
            lemma_square_monotone(dx as int, THRESHOLD as int);
            lemma_square_monotone(dy as int, THRESHOLD as int);
            lemma_square_monotone(dz as int, THRESHOLD as int);
            assert(THRESHOLD * THRESHOLD == THRESHOLD2);
        }
        dx * dx + dy * dy + dz * dz < THRESHOLD2 as u64
    }
}

/// Puts two identities in ascending order.
pub fn ordered_pair(a: u16, b: u16) -> (r: Pair)
    ensures
        r == ordered(a, b),
{
    if a < b {
        (a, b)
    } else {
        (b, a)
    }
}

} // verus!
