//! The quadratic baseline: every point against every point before it.

use crate::pairs::{
    close_pairs, distinct_ids, hits, interval_pairs, lemma_append_interval,
    lemma_close_pairs_normalized, lemma_full_interval_is_answer, lemma_interval_pairs_empty,
    lemma_row_is_interval,
};
use crate::point::{is_close, ordered_pair, Pair, Point};
use vstd::prelude::*;

verus! {

/// Joins the cloud by testing all pairs of positions.
///
/// Returns each close pair exactly once, smaller identity first. The order
/// of the pairs is that of the scan: by the later position, then by the
/// earlier one.
pub fn solve_naive(xyzi: &[Point]) -> (ans: Vec<Pair>)
    requires
        xyzi@.len() <= u16::MAX,
        distinct_ids(xyzi@),
    ensures
        ans@.no_duplicates(),
        ans@.to_set() == close_pairs(xyzi@),
        forall|k: int| 0 <= k < ans@.len() ==> ans@[k].0 < ans@[k].1,
{
    let mut ans: Vec<Pair> = Vec::new();
    let n: usize = xyzi.len();
    let mut i: usize = 0;
    proof {
        lemma_interval_pairs_empty(xyzi@, 0, 0);
        assert(ans@.to_set() =~= Set::<Pair>::empty());
    }
    while i < n
        invariant
            n == xyzi@.len(),
            i <= n,
            distinct_ids(xyzi@),
            ans@.no_duplicates(),
            ans@.to_set() == interval_pairs(xyzi@, 0, i as int),
        decreases n - i,
    {
        let ghost before = ans@;
        let mut j: usize = 0;
        assert(ans@ =~= before + hits(xyzi@, xyzi@[i as int], 0, 0));
        while j < i
            invariant
                n == xyzi@.len(),
                j <= i < n,
                ans@ == before + hits(xyzi@, xyzi@[i as int], 0, j as int),
            decreases i - j,
        {
            if is_close(&xyzi[i], &xyzi[j]) {
                ans.push(ordered_pair(xyzi[i].3, xyzi[j].3));
            }
            j += 1;
            assert(ans@ =~= before + hits(xyzi@, xyzi@[i as int], 0, j as int));
        }
        proof {
            lemma_row_is_interval(xyzi@, i as int, 0);
            lemma_append_interval(
                xyzi@,
                before,
                hits(xyzi@, xyzi@[i as int], 0, i as int),
                0,
                i as int,
                i + 1,
            );
        }
        i += 1;
    }
    proof {
        lemma_full_interval_is_answer(xyzi@);
        assert forall|k: int| 0 <= k < ans@.len() implies ans@[k].0 < ans@[k].1 by {
            assert(ans@.to_set().contains(ans@[k]));
            lemma_close_pairs_normalized(xyzi@, ans@[k]);
        }
    }
    ans
}

} // verus!
