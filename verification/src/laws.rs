//! Laws of the join: what holds of the answer whichever engine computes it.

use crate::pairs::{
    close_pairs, distinct_ids, interval_pairs, is_close_pair, lemma_full_interval_is_answer,
    lemma_permutation_keeps_answer, lemma_same_id_same_position,
};
use crate::point::{close, dist2, lemma_close_symmetric, ordered, Pair, Point, THRESHOLD};
use crate::threaded::{chunked_pairs, lemma_chunking_invariance};
use vstd::prelude::*;

verus! {

/// Two lists that hold the same set of pairs, each pair once, hold the same
/// pairs the same number of times: sorted, they are the same list.
pub proof fn lemma_same_set_same_list(a: Seq<Pair>, b: Seq<Pair>)
    requires
        a.no_duplicates(),
        b.no_duplicates(),
        a.to_set() == b.to_set(),
    ensures
        a.to_multiset() == b.to_multiset(),
        a.len() == b.len(),
{
    a.to_multiset_ensures();
    b.to_multiset_ensures();
    a.lemma_multiset_has_no_duplicates();
    b.lemma_multiset_has_no_duplicates();
    assert forall|p: Pair| a.to_multiset().count(p) == b.to_multiset().count(p) by {
        assert(a.contains(p) <==> a.to_set().contains(p));
        assert(b.contains(p) <==> b.to_set().contains(p));
    }
    assert(a.to_multiset() =~= b.to_multiset());
}

/// The engines agree. Let `naive` be what the quadratic baseline returns
/// for a cloud, `swept` what a sweep engine returns for the whole of the
/// sorted cloud, and `threaded` what the parallel driver gathers from any
/// number of chunks. Then all three hold exactly the same pairs.
pub proof fn lemma_engines_agree(
    cloud: Seq<Point>,
    sorted: Seq<Point>,
    parallel: int,
    naive: Seq<Pair>,
    swept: Seq<Pair>,
    threaded: Seq<Pair>,
)
    requires
        distinct_ids(cloud),
        sorted.to_multiset() == cloud.to_multiset(),
        1 <= parallel,
        naive.no_duplicates(),
        naive.to_set() == close_pairs(cloud),
        swept.no_duplicates(),
        swept.to_set() == interval_pairs(sorted, 0, sorted.len() as int),
        threaded.no_duplicates(),
        threaded.to_set() == chunked_pairs(sorted, parallel),
    ensures
        naive.to_multiset() == swept.to_multiset(),
        naive.to_multiset() == threaded.to_multiset(),
{
    lemma_permutation_keeps_answer(cloud, sorted);
    lemma_full_interval_is_answer(sorted);
    lemma_chunking_invariance(sorted, parallel, parallel);
    lemma_same_set_same_list(naive, swept);
    lemma_same_set_same_list(naive, threaded);
}

/// The threshold is strict: the pair of two points of a cloud is in the
/// answer exactly if their squared distance is below the squared threshold.
/// At the threshold itself the pair is left out.
pub proof fn lemma_threshold_is_strict(s: Seq<Point>, a: int, b: int)
    requires
        distinct_ids(s),
        0 <= a < s.len(),
        0 <= b < s.len(),
        a != b,
    ensures
        close_pairs(s).contains(ordered(s[a].3, s[b].3)) <==> dist2(s[a], s[b]) < THRESHOLD
            * THRESHOLD,
{
    let p = ordered(s[a].3, s[b].3);
    lemma_same_id_same_position(s, a, b);
    lemma_close_symmetric(s[a], s[b]);
    assert(s.contains(s[a]));
    assert(s.contains(s[b]));
    if close(s[a], s[b]) {
        if s[a].3 < s[b].3 {
            assert(is_close_pair(s, s[a], s[b], p));
        } else {
            assert(is_close_pair(s, s[b], s[a], p));
        }
        assert(close_pairs(s).contains(p));
    }
    if close_pairs(s).contains(p) {
        let (u, v) = choose|u: Point, v: Point| is_close_pair(s, u, v, p);
        let iu = choose|i: int| 0 <= i < s.len() && s[i] == u;
        let iv = choose|i: int| 0 <= i < s.len() && s[i] == v;
        lemma_same_id_same_position(s, iu, a);
        lemma_same_id_same_position(s, iu, b);
        lemma_same_id_same_position(s, iv, a);
        lemma_same_id_same_position(s, iv, b);
    }
}

/// A cloud of no point or of one point has no close pair, so every join of
/// it returns the empty list.
pub proof fn lemma_few_points_no_pairs(s: Seq<Point>, answer: Seq<Pair>)
    requires
        s.len() <= 1,
        answer.to_set() == close_pairs(s),
    ensures
        close_pairs(s) == Set::<Pair>::empty(),
        answer.len() == 0,
{
    assert forall|p: Pair| !close_pairs(s).contains(p) by {
        if close_pairs(s).contains(p) {
            let (u, v) = choose|u: Point, v: Point| is_close_pair(s, u, v, p);
            assert(u == s[0] && v == s[0]);
        }
    }
    assert(close_pairs(s) =~= Set::<Pair>::empty());
    if answer.len() > 0 {
        assert(answer.to_set().contains(answer[0]));
    }
}

} // verus!
