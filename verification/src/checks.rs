//! Tests of what the joins require of a cloud, for callers that cannot
//! know it otherwise.

use crate::pairs::{distinct_ids, sorted_by_x};
use crate::point::Point;
use vstd::prelude::*;

verus! {

/// Whether no two points of the cloud share an identity.
pub fn has_distinct_ids(xyzi: &[Point]) -> (ok: bool)
    ensures
        ok == distinct_ids(xyzi@),
{
    let mut seen: Vec<bool> = Vec::new();
    let mut id: usize = 0;
    while id < 65536
        invariant
            id <= 65536,
            seen@.len() == id,
            forall|v: int| 0 <= v < id ==> !seen@[v],
        decreases 65536 - id,
    {
        seen.push(false);
        id += 1;
    }
    let n: usize = xyzi.len();
    let mut k: usize = 0;
    while k < n
        invariant
            k <= n == xyzi@.len(),
            seen@.len() == 65536,
            forall|v: int|
                0 <= v < 65536 ==> (#[trigger] seen@[v] <==> exists|j: int|
                    0 <= j < k && (#[trigger] xyzi@[j]).3 == v),
            forall|i: int, j: int| 0 <= i < j < k ==> xyzi@[i].3 != xyzi@[j].3,
        decreases n - k,
    {
        let id: usize = xyzi[k].3 as usize;
        if seen[id] {
            proof {
                let j = choose|j: int| 0 <= j < k && (#[trigger] xyzi@[j]).3 == id;
                assert(xyzi@[j].3 == xyzi@[k as int].3);
            }
            return false;
        }
        proof {
            assert forall|i: int| 0 <= i < k implies xyzi@[i].3 != xyzi@[k as int].3 by {
                if xyzi@[i].3 == id {
                    assert(seen@[id as int]);
                }
            }
        }
        let ghost before = seen@;
        seen.set(id, true);
        proof {
            assert forall|v: int| 0 <= v < 65536 implies (#[trigger] seen@[v] <==> exists|j: int|
                0 <= j < k + 1 && (#[trigger] xyzi@[j]).3 == v) by {
                if v == id {
                    assert(xyzi@[k as int].3 == v);
                } else {
                    assert(seen@[v] == before[v]);
                    if before[v] {
                        let j = choose|j: int| 0 <= j < k && (#[trigger] xyzi@[j]).3 == v;
                        assert(0 <= j < k + 1 && xyzi@[j].3 == v);
                    }
                    if exists|j: int| 0 <= j < k + 1 && (#[trigger] xyzi@[j]).3 == v {
                        let j = choose|j: int| 0 <= j < k + 1 && (#[trigger] xyzi@[j]).3 == v;
                        assert(j != k);
                        assert(0 <= j < k && xyzi@[j].3 == v);
                    }
                }
            }
        }
        k += 1;
    }
    true
}

/// Whether the cloud is in ascending order of `x`.
pub fn is_sorted_by_x(xyzi: &[Point]) -> (ok: bool)
    ensures
        ok == sorted_by_x(xyzi@),
{
    let n: usize = xyzi.len();
    if n == 0 {
        return true;
    }
    let mut k: usize = 1;
    while k < n
        invariant
            1 <= k <= n == xyzi@.len(),
            forall|i: int, j: int| 0 <= i <= j < k ==> xyzi@[i].0 <= xyzi@[j].0,
        decreases n - k,
    {
        if xyzi[k - 1].0 > xyzi[k].0 {
            return false;
        }
        k += 1;
    }
    true
}

} // verus!
