//! Trusted interface to rangemap's `RangeSet`: the coalescing store of
//! half-open `i64` ranges that the stats engine uses to merge I/O
//! intervals.
//!
//! The set is modelled by the set of integer instants its stored ranges
//! cover.  rangemap coalesces an inserted range with every stored range it
//! overlaps or adjoins, so the stored ranges are non-empty, ascending and
//! pairwise disjoint, and iterating them recovers exactly the covered
//! instants.

use vstd::prelude::*;

verus! {

use crate::intervals::{covered, disjoint_sorted};
use vstd::set_lib::set_int_range;

#[verifier::external_type_specification]
#[verifier::external_body]
#[verifier::reject_recursive_types(T)]
pub struct ExRangeSet<T>(rangemap::RangeSet<T>);

/// The set of integer instants covered by the ranges stored in the set.
pub uninterp spec fn range_set_points(rs: rangemap::RangeSet<i64>) -> Set<int>;

/// Relies on rangemap's `RangeSet::new`: a new set stores no ranges.
#[verifier::external_body]
pub(crate) fn range_set_new() -> (rs: rangemap::RangeSet<i64>)
    ensures
        range_set_points(rs) == Set::<int>::empty(),
{
    rangemap::RangeSet::new()
}

/// Relies on rangemap's `RangeSet::insert`: inserting `s..e` makes the
/// set cover exactly the instants it covered before plus those of
/// `[s, e)`.  rangemap panics on an empty range, so one is excluded.
#[verifier::external_body]
pub(crate) fn range_set_insert(rs: &mut rangemap::RangeSet<i64>, s: i64, e: i64)
    requires
        s < e,
    ensures
        range_set_points(*final(rs)) == range_set_points(*old(rs)).union(
            set_int_range(s as int, e as int),
        ),
{
    rs.insert(s..e);
}

/// Relies on rangemap's `RangeSet::iter`: the stored ranges come out in
/// ascending order, non-empty and pairwise disjoint (overlapping or
/// adjacent inserts were coalesced), and together they cover exactly the
/// set's instants.
#[verifier::external_body]
pub(crate) fn range_set_ranges(rs: &rangemap::RangeSet<i64>) -> (ranges: Vec<(i64, i64)>)
    ensures
        disjoint_sorted(ranges@),
        forall|t: int| covered(ranges@, t) == #[trigger] range_set_points(*rs).contains(t),
{
    rs.iter().map(|r| (r.start, r.end)).collect()
}

} // verus!
