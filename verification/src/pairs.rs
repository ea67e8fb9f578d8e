//! What a join returns: the set of close pairs of a point cloud, and the
//! part of it that a sweep over a range of positions contributes.

use crate::point::{close, lemma_close_symmetric, ordered, Pair, Point};
use vstd::prelude::*;
use vstd::seq_lib::lemma_no_dup_in_concat;
use vstd::seq_lib::seq_to_set_distributes_over_add;

verus! {

/// No two points of the cloud share an identity.
pub open spec fn distinct_ids(s: Seq<Point>) -> bool {
    forall|i: int, j: int| 0 <= i < j < s.len() ==> s[i].3 != s[j].3
}

/// The cloud is in ascending order of `x`.
pub open spec fn sorted_by_x(s: Seq<Point>) -> bool {
    forall|i: int, j: int| 0 <= i <= j < s.len() ==> s[i].0 <= s[j].0
}

/// `p` is the pair of two points `u` and `v` of the cloud that are close,
/// the one with the smaller identity first.
pub open spec fn is_close_pair(s: Seq<Point>, u: Point, v: Point, p: Pair) -> bool {
    s.contains(u) && s.contains(v) && u.3 < v.3 && close(u, v) && p == (u.3, v.3)
}

/// The answer of a join: every `(lo, hi)` such that the cloud holds a point
/// with identity `lo` and a point with identity `hi`, `lo < hi`, that are
/// close. It depends only on which points the cloud holds, not on their order.
pub open spec fn close_pairs(s: Seq<Point>) -> Set<Pair> {
    Set::new(|p: Pair| exists|u: Point, v: Point| is_close_pair(s, u, v, p))
}

/// The pair reported for the points at positions `j` and `i`.
pub open spec fn pair_at(s: Seq<Point>, j: int, i: int) -> Pair {
    ordered(s[j].3, s[i].3)
}

/// `p` is what a sweep over `start..end` reports when, at position `i`, it
/// meets the close point at the earlier position `j`.
pub open spec fn is_swept(s: Seq<Point>, start: int, end: int, j: int, i: int, p: Pair) -> bool {
    0 <= j < i < s.len() && start <= i < end && close(s[j], s[i]) && p == pair_at(s, j, i)
}

/// The pairs a sweep contributes while its current position runs over
/// `start..end`: each position `i` is paired with the close points at
/// positions before it.
pub open spec fn interval_pairs(s: Seq<Point>, start: int, end: int) -> Set<Pair> {
    Set::new(|p: Pair| exists|j: int, i: int| is_swept(s, start, end, j, i, p))
}

/// Every pair of an answer has its smaller identity first.
pub proof fn lemma_close_pairs_normalized(s: Seq<Point>, p: Pair)
    requires
        close_pairs(s).contains(p),
    ensures
        p.0 < p.1,
{
}

/// With distinct identities, two positions are reported under the same pair
/// only if they are the same two positions.
pub proof fn lemma_pair_at_injective(s: Seq<Point>, j: int, i: int, j2: int, i2: int)
    requires
        distinct_ids(s),
        0 <= j < i < s.len(),
        0 <= j2 < i2 < s.len(),
        pair_at(s, j, i) == pair_at(s, j2, i2),
    ensures
        j == j2,
        i == i2,
{
    lemma_same_id_same_position(s, j, j2);
    lemma_same_id_same_position(s, j, i2);
    lemma_same_id_same_position(s, i, j2);
    lemma_same_id_same_position(s, i, i2);
}

/// With distinct identities, an identity determines its position.
pub proof fn lemma_same_id_same_position(s: Seq<Point>, a: int, b: int)
    requires
        distinct_ids(s),
        0 <= a < s.len(),
        0 <= b < s.len(),
    ensures
        s[a].3 == s[b].3 ==> a == b,
{
    if a < b {
        assert(s[a].3 != s[b].3);
    } else if b < a {
        assert(s[b].3 != s[a].3);
    }
}

/// With distinct identities, every pair a sweep contributes is normalized.
pub proof fn lemma_interval_pairs_normalized(s: Seq<Point>, start: int, end: int, p: Pair)
    requires
        distinct_ids(s),
        interval_pairs(s, start, end).contains(p),
    ensures
        p.0 < p.1,
{
    let (j, i) = choose|j: int, i: int| is_swept(s, start, end, j, i, p);
    lemma_same_id_same_position(s, j, i);
}

/// A sweep over all positions contributes exactly the answer of the join.
pub proof fn lemma_full_interval_is_answer(s: Seq<Point>)
    requires
        distinct_ids(s),
    ensures
        interval_pairs(s, 0, s.len() as int) == close_pairs(s),
{
    let n = s.len() as int;
    assert forall|p: Pair| interval_pairs(s, 0, n).contains(p) implies
        close_pairs(s).contains(p) by {
        let (j, i) = choose|j: int, i: int| is_swept(s, 0, n, j, i, p);
        lemma_same_id_same_position(s, j, i);
        lemma_close_symmetric(s[j], s[i]);
        assert(s.contains(s[j]));
        assert(s.contains(s[i]));
        if s[j].3 < s[i].3 {
            assert(is_close_pair(s, s[j], s[i], p));
        } else {
            assert(is_close_pair(s, s[i], s[j], p));
        }
    }
    assert forall|p: Pair| close_pairs(s).contains(p) implies
        interval_pairs(s, 0, n).contains(p) by {
        let (u, v) = choose|u: Point, v: Point| is_close_pair(s, u, v, p);
        let a = choose|a: int| 0 <= a < s.len() && s[a] == u;
        let b = choose|b: int| 0 <= b < s.len() && s[b] == v;
        lemma_close_symmetric(u, v);
        if a < b {
            assert(is_swept(s, 0, n, a, b, p));
        } else {
            assert(is_swept(s, 0, n, b, a, p));
        }
    }
    assert(interval_pairs(s, 0, n) =~= close_pairs(s));
}

/// Two adjoining sweeps contribute together what one sweep over both ranges
/// contributes.
pub proof fn lemma_interval_pairs_split(s: Seq<Point>, a: int, b: int, c: int)
    requires
        a <= b <= c,
    ensures
        interval_pairs(s, a, c) == interval_pairs(s, a, b).union(interval_pairs(s, b, c)),
{
    assert forall|p: Pair| interval_pairs(s, a, c).contains(p) implies
        interval_pairs(s, a, b).contains(p) || interval_pairs(s, b, c).contains(p) by {
        let (j, i) = choose|j: int, i: int| is_swept(s, a, c, j, i, p);
        if i < b {
            assert(is_swept(s, a, b, j, i, p));
        } else {
            assert(is_swept(s, b, c, j, i, p));
        }
    }
    assert forall|p: Pair| interval_pairs(s, a, b).contains(p) implies
        interval_pairs(s, a, c).contains(p) by {
        let (j, i) = choose|j: int, i: int| is_swept(s, a, b, j, i, p);
        assert(is_swept(s, a, c, j, i, p));
    }
    assert forall|p: Pair| interval_pairs(s, b, c).contains(p) implies
        interval_pairs(s, a, c).contains(p) by {
        let (j, i) = choose|j: int, i: int| is_swept(s, b, c, j, i, p);
        assert(is_swept(s, a, c, j, i, p));
    }
    assert(interval_pairs(s, a, c) =~= interval_pairs(s, a, b).union(interval_pairs(s, b, c)));
}

/// With distinct identities, sweeps over disjoint ranges contribute disjoint
/// sets of pairs.
pub proof fn lemma_interval_pairs_disjoint(s: Seq<Point>, a: int, b: int, c: int, d: int)
    requires
        distinct_ids(s),
        b <= c,
    ensures
        interval_pairs(s, a, b).disjoint(interval_pairs(s, c, d)),
{
    assert forall|p: Pair|
        interval_pairs(s, a, b).contains(p) && interval_pairs(s, c, d).contains(p) implies
        false by {
        let (j, i) = choose|j: int, i: int| is_swept(s, a, b, j, i, p);
        let (j2, i2) = choose|j2: int, i2: int| is_swept(s, c, d, j2, i2, p);
        lemma_pair_at_injective(s, j, i, j2, i2);
    }
}

/// A sweep over an empty range contributes nothing.
pub proof fn lemma_interval_pairs_empty(s: Seq<Point>, a: int, b: int)
    requires
        b <= a,
    ensures
        interval_pairs(s, a, b) == Set::<Pair>::empty(),
{
    assert(interval_pairs(s, a, b) =~= Set::<Pair>::empty());
}

/// Appending what the next range contributes to what the ranges before it
/// contributed gives the contribution of the whole, again without repeats.
pub proof fn lemma_append_interval(
    s: Seq<Point>,
    done: Seq<Pair>,
    next: Seq<Pair>,
    a: int,
    b: int,
    c: int,
)
    requires
        distinct_ids(s),
        a <= b <= c,
        done.no_duplicates(),
        done.to_set() == interval_pairs(s, a, b),
        next.no_duplicates(),
        next.to_set() == interval_pairs(s, b, c),
    ensures
        (done + next).no_duplicates(),
        (done + next).to_set() == interval_pairs(s, a, c),
{
    lemma_interval_pairs_split(s, a, b, c);
    lemma_interval_pairs_disjoint(s, a, b, b, c);
    seq_to_set_distributes_over_add(done, next);
    assert forall|i: int, j: int| 0 <= i < done.len() && 0 <= j < next.len() implies done[i]
        != next[j] by {
        assert(done.to_set().contains(done[i]));
        assert(next.to_set().contains(next[j]));
    }
    lemma_no_dup_in_concat(done, next);
}

/// The pairs reported for the point `cur` against the candidates at positions
/// `lo..hi` of `c`, in the order of the candidates: one pair for each
/// candidate that is close to `cur`.
pub open spec fn hits(c: Seq<Point>, cur: Point, lo: int, hi: int) -> Seq<Pair>
    decreases hi - lo,
{
    if hi <= lo {
        Seq::empty()
    } else if close(cur, c[hi - 1]) {
        hits(c, cur, lo, hi - 1).push(ordered(cur.3, c[hi - 1].3))
    } else {
        hits(c, cur, lo, hi - 1)
    }
}

/// Every reported pair comes from a close candidate in the range.
pub proof fn lemma_hit_has_candidate(c: Seq<Point>, cur: Point, lo: int, hi: int, p: Pair) -> (k:
    int)
    requires
        hits(c, cur, lo, hi).contains(p),
    ensures
        lo <= k < hi,
        close(cur, c[k]),
        p == ordered(cur.3, c[k].3),
    decreases hi - lo,
{
    if hi <= lo {
        assert(false);
        0
    } else {
        let rest = hits(c, cur, lo, hi - 1);
        if close(cur, c[hi - 1]) && p == ordered(cur.3, c[hi - 1].3) {
            hi - 1
        } else {
            if close(cur, c[hi - 1]) {
                let all = rest.push(ordered(cur.3, c[hi - 1].3));
                let idx = choose|idx: int| 0 <= idx < all.len() && all[idx] == p;
                assert(rest[idx] == p);
            }
            lemma_hit_has_candidate(c, cur, lo, hi - 1, p)
        }
    }
}

/// Every close candidate in the range is reported.
pub proof fn lemma_candidate_is_hit(c: Seq<Point>, cur: Point, lo: int, hi: int, k: int)
    requires
        lo <= k < hi,
        close(cur, c[k]),
    ensures
        hits(c, cur, lo, hi).contains(ordered(cur.3, c[k].3)),
    decreases hi - lo,
{
    let rest = hits(c, cur, lo, hi - 1);
    if k == hi - 1 {
        let all = rest.push(ordered(cur.3, c[k].3));
        assert(all[all.len() - 1] == ordered(cur.3, c[k].3));
    } else {
        lemma_candidate_is_hit(c, cur, lo, hi - 1, k);
        let idx = choose|idx: int| 0 <= idx < rest.len() && rest[idx] == ordered(cur.3, c[k].3);
        if close(cur, c[hi - 1]) {
            let all = rest.push(ordered(cur.3, c[hi - 1].3));
            assert(all[idx] == ordered(cur.3, c[k].3));
        }
    }
}

/// Candidates with distinct identities are reported under distinct pairs.
pub proof fn lemma_hits_no_duplicates(c: Seq<Point>, cur: Point, lo: int, hi: int)
    requires
        forall|a: int, b: int| lo <= a < b < hi ==> c[a].3 != c[b].3,
    ensures
        hits(c, cur, lo, hi).no_duplicates(),
    decreases hi - lo,
{
    if hi > lo {
        lemma_hits_no_duplicates(c, cur, lo, hi - 1);
        let rest = hits(c, cur, lo, hi - 1);
        if close(cur, c[hi - 1]) {
            let last = ordered(cur.3, c[hi - 1].3);
            if rest.contains(last) {
                let k = lemma_hit_has_candidate(c, cur, lo, hi - 1, last);
                assert(c[k].3 != c[hi - 1].3);
                assert(false);
            }
            let all = rest.push(last);
            assert forall|i: int, j: int|
                0 <= i < all.len() && 0 <= j < all.len() && i != j implies all[i] != all[j] by {
                if i < rest.len() {
                    assert(rest.contains(rest[i]));
                }
                if j < rest.len() {
                    assert(rest.contains(rest[j]));
                }
            }
        }
    }
}

/// Reporting against two adjoining ranges of candidates, one after the other,
/// is reporting against the whole range.
pub proof fn lemma_hits_concat(c: Seq<Point>, cur: Point, lo: int, mid: int, hi: int)
    requires
        lo <= mid <= hi,
    ensures
        hits(c, cur, lo, hi) == hits(c, cur, lo, mid) + hits(c, cur, mid, hi),
    decreases hi - mid,
{
    if mid == hi {
        assert(hits(c, cur, lo, hi) =~= hits(c, cur, lo, mid) + hits(c, cur, mid, hi));
    } else {
        lemma_hits_concat(c, cur, lo, mid, hi - 1);
        assert(hits(c, cur, lo, hi) =~= hits(c, cur, lo, mid) + hits(c, cur, mid, hi));
    }
}

/// One step of a sweep: reporting the point at position `i` against the
/// positions `from..i` contributes exactly the pairs of position `i`, each
/// once, provided that no position before `from` is close to it.
pub proof fn lemma_row_is_interval(s: Seq<Point>, i: int, from: int)
    requires
        distinct_ids(s),
        0 <= from <= i < s.len(),
        forall|j: int| 0 <= j < from ==> !close(s[j], s[i]),
    ensures
        hits(s, s[i], from, i).no_duplicates(),
        hits(s, s[i], from, i).to_set() == interval_pairs(s, i, i + 1),
{
    let row = hits(s, s[i], from, i);
    lemma_hits_no_duplicates(s, s[i], from, i);
    assert forall|p: Pair| row.contains(p) implies interval_pairs(s, i, i + 1).contains(p) by {
        let k = lemma_hit_has_candidate(s, s[i], from, i, p);
        lemma_close_symmetric(s[i], s[k]);
        assert(is_swept(s, i, i + 1, k, i, p));
    }
    assert forall|p: Pair| interval_pairs(s, i, i + 1).contains(p) implies row.contains(p) by {
        let next = i + 1;
        let (j, i2) = choose|j: int, i2: int| is_swept(s, i, next, j, i2, p);
        lemma_close_symmetric(s[i], s[j]);
        lemma_candidate_is_hit(s, s[i], from, i, j);
    }
    assert(row.to_set() =~= interval_pairs(s, i, i + 1));
}

/// Reordering a cloud changes neither its answer nor whether its identities
/// are distinct.
pub proof fn lemma_permutation_keeps_answer(s: Seq<Point>, t: Seq<Point>)
    requires
        s.to_multiset() == t.to_multiset(),
    ensures
        s.len() == t.len(),
        forall|u: Point| s.contains(u) <==> t.contains(u),
        close_pairs(s) == close_pairs(t),
        distinct_ids(s) ==> distinct_ids(t),
{
    s.to_multiset_ensures();
    t.to_multiset_ensures();
    assert forall|u: Point| s.contains(u) <==> t.contains(u) by {
        assert(s.contains(u) <==> s.to_multiset().count(u) > 0);
        assert(t.contains(u) <==> t.to_multiset().count(u) > 0);
    }
    assert forall|p: Pair| close_pairs(s).contains(p) <==> close_pairs(t).contains(p) by {
        if close_pairs(s).contains(p) {
            let (u, v) = choose|u: Point, v: Point| is_close_pair(s, u, v, p);
            assert(is_close_pair(t, u, v, p));
        }
        if close_pairs(t).contains(p) {
            let (u, v) = choose|u: Point, v: Point| is_close_pair(t, u, v, p);
            assert(is_close_pair(s, u, v, p));
        }
    }
    assert(close_pairs(s) =~= close_pairs(t));
    if distinct_ids(s) {
        assert(s.no_duplicates());
        s.lemma_multiset_has_no_duplicates();
        t.lemma_multiset_has_no_duplicates_conv();
        assert forall|i: int, j: int| 0 <= i < j < t.len() implies t[i].3 != t[j].3 by {
            assert(t.contains(t[i]));
            assert(t.contains(t[j]));
            let a = choose|a: int| 0 <= a < s.len() && s[a] == t[i];
            let b = choose|b: int| 0 <= b < s.len() && s[b] == t[j];
            lemma_same_id_same_position(s, a, b);
        }
    }
}

} // verus!
