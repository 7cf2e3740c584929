//! Measuring the union of half-open time intervals.
//!
//! The covered length of a set of intervals is defined pointwise: the
//! number of integer instants in a window that at least one interval
//! covers.  That definition is independent of the order of the intervals
//! and counts overlapping intervals once, and the sum of the lengths of a
//! sorted, disjoint family equals it.

use vstd::prelude::*;

verus! {

/// Whether instant `t` lies inside at least one of the half-open
/// intervals `[s, e)`.
pub open spec fn covered(ivs: Seq<(i64, i64)>, t: int) -> bool {
    exists|i: int| 0 <= i < ivs.len() && (#[trigger] ivs[i]).0 <= t < ivs[i].1
}

/// The number of instants in `[lo, hi)` covered by at least one interval:
/// the measure of the union, clipped to the window.
pub open spec fn covered_count(ivs: Seq<(i64, i64)>, lo: int, hi: int) -> int
    decreases hi - lo,
{
    if lo >= hi {
        0
    } else {
        (if covered(ivs, lo) {
            1int
        } else {
            0int
        }) + covered_count(ivs, lo + 1, hi)
    }
}

/// The covered count of a window is between zero and the window length.
pub proof fn lemma_covered_count_bounds(ivs: Seq<(i64, i64)>, lo: int, hi: int)
    requires
        lo <= hi,
    ensures
        0 <= covered_count(ivs, lo, hi) <= hi - lo,
    decreases hi - lo,
{
    if lo < hi {
        lemma_covered_count_bounds(ivs, lo + 1, hi);
    }
}

/// Counting over `[lo, hi)` splits at any midpoint.
pub proof fn lemma_covered_count_split(ivs: Seq<(i64, i64)>, lo: int, mid: int, hi: int)
    requires
        lo <= mid <= hi,
    ensures
        covered_count(ivs, lo, hi) == covered_count(ivs, lo, mid) + covered_count(ivs, mid, hi),
    decreases mid - lo,
{
    if lo < mid {
        lemma_covered_count_split(ivs, lo + 1, mid, hi);
    }
}

/// A window without any covered instant counts zero.
pub proof fn lemma_covered_count_none(ivs: Seq<(i64, i64)>, lo: int, hi: int)
    requires
        forall|t: int| lo <= t < hi ==> !covered(ivs, t),
    ensures
        covered_count(ivs, lo, hi) == 0,
    decreases hi - lo,
{
    if lo < hi {
        lemma_covered_count_none(ivs, lo + 1, hi);
    }
}

/// A window whose every instant is covered counts its full length.
pub proof fn lemma_covered_count_all(ivs: Seq<(i64, i64)>, lo: int, hi: int)
    requires
        lo <= hi,
        forall|t: int| lo <= t < hi ==> covered(ivs, t),
    ensures
        covered_count(ivs, lo, hi) == hi - lo,
    decreases hi - lo,
{
    if lo < hi {
        lemma_covered_count_all(ivs, lo + 1, hi);
    }
}

/// Interval families that cover the same instants count the same.
pub proof fn lemma_covered_count_agree(a: Seq<(i64, i64)>, b: Seq<(i64, i64)>, lo: int, hi: int)
    requires
        forall|t: int| lo <= t < hi ==> covered(a, t) == covered(b, t),
    ensures
        covered_count(a, lo, hi) == covered_count(b, lo, hi),
    decreases hi - lo,
{
    if lo < hi {
        lemma_covered_count_agree(a, b, lo + 1, hi);
    }
}

/// A family of non-empty intervals, in ascending order, with no two
/// intervals overlapping.
pub open spec fn disjoint_sorted(ranges: Seq<(i64, i64)>) -> bool {
    &&& forall|i: int| 0 <= i < ranges.len() ==> (#[trigger] ranges[i]).0 < ranges[i].1
    &&& forall|i: int|
        0 <= i && i + 1 < ranges.len() ==> (#[trigger] ranges[i]).1 <= ranges[i + 1].0
}

/// In a disjoint sorted family, every later interval starts at or after
/// the end of every earlier one.
pub proof fn lemma_disjoint_sorted_ordered(ranges: Seq<(i64, i64)>, i: int, j: int)
    requires
        disjoint_sorted(ranges),
        0 <= i < j < ranges.len(),
    ensures
        ranges[i].1 <= ranges[j].0,
    decreases j - i,
{
    if i + 1 < j {
        lemma_disjoint_sorted_ordered(ranges, i + 1, j);
    }
}

/// Dropping the first interval of a disjoint sorted family leaves a
/// disjoint sorted family.
pub proof fn lemma_disjoint_sorted_drop_first(ranges: Seq<(i64, i64)>)
    requires
        disjoint_sorted(ranges),
        ranges.len() > 0,
    ensures
        disjoint_sorted(ranges.drop_first()),
{
    let tail = ranges.drop_first();
    assert forall|i: int| 0 <= i < tail.len() implies (#[trigger] tail[i]).0 < tail[i].1 by {
        assert(tail[i] == ranges[i + 1]);
    }
    assert forall|i: int| 0 <= i && i + 1 < tail.len() implies (#[trigger] tail[i]).1 <= tail[i
        + 1].0 by {
        assert(tail[i] == ranges[i + 1]);
        assert(tail[i + 1] == ranges[i + 2]);
    }
}

/// The total length of a family of intervals, counted interval by
/// interval.
pub open spec fn sum_lengths(ranges: Seq<(i64, i64)>) -> int
    decreases ranges.len(),
{
    if ranges.len() == 0 {
        0
    } else {
        (ranges[0].1 - ranges[0].0) + sum_lengths(ranges.drop_first())
    }
}

/// For a disjoint sorted family inside `[lo, hi]`, the sum of the
/// interval lengths is exactly the covered count of the window: summing
/// does not double-count.
pub proof fn lemma_sum_disjoint_sorted(ranges: Seq<(i64, i64)>, lo: int, hi: int)
    requires
        disjoint_sorted(ranges),
        lo <= hi,
        forall|i: int| 0 <= i < ranges.len() ==> lo <= (#[trigger] ranges[i]).0,
        forall|i: int| 0 <= i < ranges.len() ==> (#[trigger] ranges[i]).1 <= hi,
    ensures
        sum_lengths(ranges) == covered_count(ranges, lo, hi),
    decreases ranges.len(),
{
    if ranges.len() == 0 {
        lemma_covered_count_none(ranges, lo, hi);
    } else {
        let r0 = ranges[0];
        let tail = ranges.drop_first();
        lemma_covered_count_split(ranges, lo, r0.0 as int, hi);
        lemma_covered_count_split(ranges, r0.0 as int, r0.1 as int, hi);

        // Nothing is covered before the first interval starts.
        assert forall|t: int| lo <= t < r0.0 implies !covered(ranges, t) by {
            if covered(ranges, t) {
                let i = choose|i: int| 0 <= i < ranges.len() && (#[trigger] ranges[i]).0 <= t < ranges[i].1;
                if i > 0 {
                    lemma_disjoint_sorted_ordered(ranges, 0, i);
                }
            }
        }
        lemma_covered_count_none(ranges, lo, r0.0 as int);

        // The first interval is fully covered by itself.
        assert forall|t: int| r0.0 <= t < r0.1 implies covered(ranges, t) by {
            assert(ranges[0].0 <= t < ranges[0].1);
        }
        lemma_covered_count_all(ranges, r0.0 as int, r0.1 as int);

        // Past its end, coverage is exactly the tail's coverage.
        assert forall|t: int| r0.1 <= t < hi implies covered(ranges, t) == covered(tail, t) by {
            if covered(ranges, t) {
                let i = choose|i: int| 0 <= i < ranges.len() && (#[trigger] ranges[i]).0 <= t < ranges[i].1;
                assert(i > 0);
                assert(tail[i - 1].0 <= t < tail[i - 1].1);
            }
            if covered(tail, t) {
                let i = choose|i: int| 0 <= i < tail.len() && (#[trigger] tail[i]).0 <= t < tail[i].1;
                assert(ranges[i + 1].0 <= t < ranges[i + 1].1);
            }
        }
        lemma_covered_count_agree(ranges, tail, r0.1 as int, hi);

        assert forall|i: int| 0 <= i < tail.len() implies r0.1 <= (#[trigger] tail[i]).0 by {
            lemma_disjoint_sorted_ordered(ranges, 0, i + 1);
        }
        lemma_disjoint_sorted_drop_first(ranges);
        lemma_sum_disjoint_sorted(tail, r0.1 as int, hi);
    }
}

} // verus!
