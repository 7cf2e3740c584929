//! The correlator: finding the bios fully nested in a syscall's span and
//! deriving the syscall's I/O statistics.

use vstd::prelude::*;

verus! {

use crate::trace::{Bio, Syscall, SyscallStats, Frac};
use crate::store::{
    Trace, sum_sizes_upto, sum_sizes, lemma_sum_sizes_upto_mono, valid_handle, event_key,
    syscall_core_eq, sys_entry_ok,
};
use crate::index::{EventIndex, index_has, index_range};
use crate::intervals::{
    covered, covered_count, disjoint_sorted, sum_lengths, lemma_sum_disjoint_sorted,
    lemma_covered_count_agree, lemma_covered_count_bounds,
};
use crate::rangeset::{range_set_points, range_set_new, range_set_insert, range_set_ranges};

/// Bio `i` is fully nested in the span `[s, e]`: both its start and its
/// end-or-start fall inside it.
pub open spec fn nested_bio(bios: Seq<Bio>, i: int, s: int, e: int) -> bool {
    &&& 0 <= i < bios.len()
    &&& s <= bios[i].start <= e
    &&& s <= bios[i].eos() <= e
}

/// Total size of the write bios among the first `k` that are nested in
/// `[s, e]`.
pub open spec fn write_sectors_upto(bios: Seq<Bio>, s: int, e: int, k: int) -> int
    decreases k,
{
    if k <= 0 {
        0
    } else {
        write_sectors_upto(bios, s, e, k - 1) + if nested_bio(bios, k - 1, s, e) && bios[k
            - 1].is_write {
            bios[k - 1].size as int
        } else {
            0
        }
    }
}

/// Number of flush bios among the first `k` that are nested in `[s, e]`.
pub open spec fn flushes_upto(bios: Seq<Bio>, s: int, e: int, k: int) -> int
    decreases k,
{
    if k <= 0 {
        0
    } else {
        flushes_upto(bios, s, e, k - 1) + if nested_bio(bios, k - 1, s, e) && bios[k - 1].is_flush {
            1int
        } else {
            0int
        }
    }
}

/// The `[start, end-or-start)` intervals of the bios among the first `k`
/// that are nested in `[s, e]`.
pub open spec fn nested_intervals_upto(bios: Seq<Bio>, s: int, e: int, k: int) -> Seq<(i64, i64)>
    decreases k,
{
    if k <= 0 {
        Seq::empty()
    } else if nested_bio(bios, k - 1, s, e) {
        nested_intervals_upto(bios, s, e, k - 1).push(
            (bios[k - 1].start, bios[k - 1].eos() as i64),
        )
    } else {
        nested_intervals_upto(bios, s, e, k - 1)
    }
}

/// The intervals of all bios nested in `[s, e]`.
pub open spec fn nested_intervals(bios: Seq<Bio>, s: int, e: int) -> Seq<(i64, i64)> {
    nested_intervals_upto(bios, s, e, bios.len() as int)
}

/// The statistics of a syscall over a bio list: sectors written and
/// flushes issued by its nested bios, and the fraction of its span
/// covered by at least one nested bio, as the exact rational
/// `covered length / span length`.
pub open spec fn spec_syscall_stats(bios: Seq<Bio>, sys: Syscall) -> SyscallStats {
    let s = sys.start as int;
    let e = sys.eos();
    SyscallStats {
        write_sectors: write_sectors_upto(bios, s, e, bios.len() as int) as u64,
        flushes: flushes_upto(bios, s, e, bios.len() as int) as u64,
        frac_io_time: Frac {
            num: covered_count(nested_intervals(bios, s, e), s, e) as i128,
            den: (e - sys.start) as i128,
        },
    }
}

/// A syscall after analysis: untouched when its stats were already
/// memoized, otherwise carrying the freshly computed stats.
pub open spec fn spec_analyzed(sys: Syscall, bios: Seq<Bio>) -> Syscall {
    if sys.stats is Some {
        sys
    } else {
        Syscall { stats: Some(spec_syscall_stats(bios, sys)), ..sys }
    }
}

/// Analysis is idempotent: a second pass returns the first one's stats
/// unchanged, because the first pass memoizes them.
pub proof fn lemma_analyze_idempotent(sys: Syscall, bios: Seq<Bio>)
    ensures
        spec_analyzed(spec_analyzed(sys, bios), bios) == spec_analyzed(sys, bios),
{
}

/// For a syscall with a positive span, the covered fraction lies in
/// `[0, 1]`: its numerator is between zero and its denominator, even when
/// nested bios overlap each other.
pub proof fn lemma_frac_io_time_bounds(bios: Seq<Bio>, sys: Syscall)
    requires
        sys.eos() > sys.start,
        exists|i: int| nested_bio(bios, i, sys.start as int, sys.eos()),
    ensures
        0 <= spec_syscall_stats(bios, sys).frac_io_time.num,
        spec_syscall_stats(bios, sys).frac_io_time.num <= spec_syscall_stats(
            bios,
            sys,
        ).frac_io_time.den,
        spec_syscall_stats(bios, sys).frac_io_time.den > 0,
{
    let s = sys.start as int;
    let e = sys.eos();
    lemma_covered_count_bounds(nested_intervals(bios, s, e), s, e);
}

impl Trace {
    /// Computes and memoizes the statistics of syscall `idx`, unless they
    /// are memoized already: the bios whose start and end both fall in
    /// the syscall's span are found by intersecting a start-keyed and an
    /// end-keyed range query, their write sizes and flushes are summed,
    /// and their time intervals are merged so that overlapping I/O is
    /// counted once.
    pub fn analyze_selected_syscall(&mut self, idx: usize)
        requires
            old(self).wf(),
            (idx as int) < old(self).ns(),
        ensures
            final(self).wf(),
            final(self).syscall_list@ == old(self).syscall_list@.update(
                idx as int,
                spec_analyzed(old(self).syscall_list@[idx as int], old(self).bio_list@),
            ),
            old(self).syscall_list@[idx as int].stats is Some ==> final(self).syscall_list@ == old(
                self,
            ).syscall_list@,
            final(self).name@ == old(self).name@,
            final(self).bio_list@ == old(self).bio_list@,
            final(self).head_index@ == old(self).head_index@,
            final(self).tail_index@ == old(self).tail_index@,
            final(self).on_screen_bio@ == old(self).on_screen_bio@,
            final(self).on_screen_syscall@ == old(self).on_screen_syscall@,
            final(self).selected_bio == old(self).selected_bio,
            final(self).selected_syscall == old(self).selected_syscall,
            final(self).stack_traces@ == old(self).stack_traces@,
            final(self).time_origin == old(self).time_origin,
    {
        let sys = self.syscall_list[idx];
        if sys.stats.is_some() {
            proof {
                assert(self.syscall_list@ =~= old(self).syscall_list@.update(
                    idx as int,
                    spec_analyzed(old(self).syscall_list@[idx as int], old(self).bio_list@),
                ));
            }
            return ;
        }
        let ghost bios = self.bio_list@;
        let ghost syscalls = self.syscall_list@;
        let s_start: i64 = sys.start;
        let s_end: i64 = match sys.end {
            Some(e) => e,
            None => sys.start,
        };
        let ghost s = s_start as int;
        let ghost e = s_end as int;
        let heads = index_range(&self.head_index, s_start as i128, s_end as i128);
        let tails = index_range(&self.tail_index, s_start as i128, s_end as i128);
        let nb = self.bio_list.len();
        let mut hmark: Vec<bool> = vec![false; nb];
        let mut tmark: Vec<bool> = vec![false; nb];
        let mut k: usize = 0;
        while k < heads.len()
            invariant
                *self == *old(self),
                hmark@.len() == nb,
                nb == bios.len(),
                k <= heads@.len(),
                forall|i: int|
                    0 <= i < nb ==> (#[trigger] hmark@[i] <==> exists|k2: int|
                        0 <= k2 < k && heads@[k2] == EventIndex::Bio(i as usize)),
            decreases heads@.len() - k,
        {
            let ghost m0 = hmark@;
            match heads[k] {
                EventIndex::Bio(i) => {
                    if i < nb {
                        hmark[i] = true;
                    }
                },
                EventIndex::Syscall(_) => {},
            }
            proof {
                assert forall|i: int| 0 <= i < nb implies (#[trigger] hmark@[i] <==> exists|k2: int|
                    0 <= k2 < k + 1 && heads@[k2] == EventIndex::Bio(i as usize)) by {
                    if hmark@[i] {
                        if m0[i] {
                            let k2 = choose|k2: int|
                                0 <= k2 < k && heads@[k2] == EventIndex::Bio(i as usize);
                            assert(0 <= k2 < k + 1 && heads@[k2] == EventIndex::Bio(i as usize));
                        } else {
                            assert(heads@[k as int] == EventIndex::Bio(i as usize));
                        }
                    }
                    if exists|k2: int| 0 <= k2 < k + 1 && heads@[k2] == EventIndex::Bio(i as usize) {
                        let k2 = choose|k2: int|
                            0 <= k2 < k + 1 && heads@[k2] == EventIndex::Bio(i as usize);
                        if k2 < k {
                            assert(m0[i]);
                            assert(hmark@[i]);
                        } else {
                            assert(hmark@[i]);
                        }
                    }
                }
            }
            k = k + 1;
        }
        let mut k: usize = 0;
        while k < tails.len()
            invariant
                *self == *old(self),
                tmark@.len() == nb,
                nb == bios.len(),
                k <= tails@.len(),
                forall|i: int|
                    0 <= i < nb ==> (#[trigger] tmark@[i] <==> exists|k2: int|
                        0 <= k2 < k && tails@[k2] == EventIndex::Bio(i as usize)),
            decreases tails@.len() - k,
        {
            let ghost m0 = tmark@;
            match tails[k] {
                EventIndex::Bio(i) => {
                    if i < nb {
                        tmark[i] = true;
                    }
                },
                EventIndex::Syscall(_) => {},
            }
            proof {
                assert forall|i: int| 0 <= i < nb implies (#[trigger] tmark@[i] <==> exists|k2: int|
                    0 <= k2 < k + 1 && tails@[k2] == EventIndex::Bio(i as usize)) by {
                    if tmark@[i] {
                        if m0[i] {
                            let k2 = choose|k2: int|
                                0 <= k2 < k && tails@[k2] == EventIndex::Bio(i as usize);
                            assert(0 <= k2 < k + 1 && tails@[k2] == EventIndex::Bio(i as usize));
                        } else {
                            assert(tails@[k as int] == EventIndex::Bio(i as usize));
                        }
                    }
                    if exists|k2: int| 0 <= k2 < k + 1 && tails@[k2] == EventIndex::Bio(i as usize) {
                        let k2 = choose|k2: int|
                            0 <= k2 < k + 1 && tails@[k2] == EventIndex::Bio(i as usize);
                        if k2 < k {
                            assert(m0[i]);
                            assert(tmark@[i]);
                        } else {
                            assert(tmark@[i]);
                        }
                    }
                }
            }
            k = k + 1;
        }
        proof {
            let hidx = self.head_index@;
            let tidx = self.tail_index@;
            let a = s_start as i128;
            let b = s_end as i128;
            assert forall|i: int| 0 <= i < nb implies (#[trigger] hmark@[i] <==> s <= bios[i].start
                <= e) by {
                let h = EventIndex::Bio(i as usize);
                if hmark@[i] {
                    let k2 = choose|k2: int| 0 <= k2 < heads@.len() && heads@[k2] == h;
                    assert(heads@.contains(h));
                    let j = choose|j: int|
                        0 <= j < hidx.len() && (#[trigger] hidx[j]).1 == h && a <= hidx[j].0 <= b;
                    assert(hidx.contains(hidx[j]));
                    assert((hidx[j].0 as int) == event_key(h, bios, syscalls, false));
                    assert(event_key(h, bios, syscalls, false) == bios[i].start);
                }
                if s <= bios[i].start <= e {
                    assert(valid_handle(h, bios.len() as int, syscalls.len() as int));
                    assert(index_has(hidx, h));
                    let j = choose|j: int|
                        0 <= j < hidx.len() && (#[trigger] hidx[j]).1 == h;
                    assert(hidx.contains(hidx[j]));
                    assert((hidx[j].0 as int) == event_key(h, bios, syscalls, false));
                    assert(a <= hidx[j].0 <= b);
                    assert(heads@.contains(h));
                    let k2 = choose|k2: int| 0 <= k2 < heads@.len() && heads@[k2] == h;
                    assert(hmark@[i]);
                }
            }
            assert forall|i: int| 0 <= i < nb implies (#[trigger] tmark@[i] <==> s <= bios[i].eos()
                <= e) by {
                let h = EventIndex::Bio(i as usize);
                if tmark@[i] {
                    let k2 = choose|k2: int| 0 <= k2 < tails@.len() && tails@[k2] == h;
                    assert(tails@.contains(h));
                    let j = choose|j: int|
                        0 <= j < tidx.len() && (#[trigger] tidx[j]).1 == h && a <= tidx[j].0 <= b;
                    assert(tidx.contains(tidx[j]));
                    assert((tidx[j].0 as int) == event_key(h, bios, syscalls, true));
                    assert(event_key(h, bios, syscalls, true) == bios[i].eos());
                }
                if s <= bios[i].eos() <= e {
                    assert(valid_handle(h, bios.len() as int, syscalls.len() as int));
                    assert(index_has(tidx, h));
                    let j = choose|j: int|
                        0 <= j < tidx.len() && (#[trigger] tidx[j]).1 == h;
                    assert(tidx.contains(tidx[j]));
                    assert((tidx[j].0 as int) == event_key(h, bios, syscalls, true));
                    assert(a <= tidx[j].0 <= b);
                    assert(tails@.contains(h));
                    let k2 = choose|k2: int| 0 <= k2 < tails@.len() && tails@[k2] == h;
                    assert(tmark@[i]);
                }
            }
        }
        // Accumulate sizes and flushes, and merge the I/O intervals.
        let mut write_sectors: u64 = 0;
        let mut flushes: u64 = 0;
        let mut rs = range_set_new();
        let mut i: usize = 0;
        while i < nb
            invariant
                *self == *old(self),
                bios == old(self).bio_list@,
                nb == bios.len(),
                hmark@.len() == nb,
                tmark@.len() == nb,
                forall|j: int| 0 <= j < nb ==> (#[trigger] hmark@[j] <==> s <= bios[j].start <= e),
                forall|j: int| 0 <= j < nb ==> (#[trigger] tmark@[j] <==> s <= bios[j].eos() <= e),
                i <= nb,
                write_sectors == write_sectors_upto(bios, s, e, i as int),
                flushes == flushes_upto(bios, s, e, i as int),
                write_sectors_upto(bios, s, e, i as int) <= sum_sizes_upto(bios, i as int),
                sum_sizes(bios) <= u64::MAX,
                flushes_upto(bios, s, e, i as int) <= i,
                forall|t: int| #[trigger]
                    range_set_points(rs).contains(t) <==> covered(
                        nested_intervals_upto(bios, s, e, i as int),
                        t,
                    ),
            decreases nb - i,
        {
            let ghost prev = nested_intervals_upto(bios, s, e, i as int);
            if hmark[i] && tmark[i] {
                let b = self.bio_list[i];
                let b_eos: i64 = match b.end {
                    Some(x) => x,
                    None => b.start,
                };
                if b.is_write {
                    proof {
                        lemma_sum_sizes_upto_mono(bios, i + 1, bios.len() as int);
                        lemma_write_sectors_le_sizes(bios, s, e, i + 1);
                    }
                    write_sectors = write_sectors + b.size;
                }
                if b.is_flush {
                    flushes = flushes + 1;
                }
                if b.start < b_eos {
                    range_set_insert(&mut rs, b.start, b_eos);
                }
                proof {
                    let cur = nested_intervals_upto(bios, s, e, i + 1);
                    assert(cur == prev.push((b.start, b.eos() as i64)));
                    assert forall|t: int| #[trigger]
                        range_set_points(rs).contains(t) <==> covered(cur, t) by {
                        lemma_covered_push(prev, (b.start, b.eos() as i64), t);
                    }
                }
            } else {
                proof {
                    assert(nested_intervals_upto(bios, s, e, i + 1) == prev);
                }
            }
            i = i + 1;
        }
        // Sum the merged, disjoint intervals: the union's length.
        let ranges = range_set_ranges(&rs);
        let ghost ivs = nested_intervals(bios, s, e);
        proof {
            assert forall|k2: int| 0 <= k2 < ranges@.len() implies s <= (#[trigger] ranges@[k2]).0
                && ranges@[k2].1 <= e by {
                let r = ranges@[k2];
                assert(covered(ranges@, r.0 as int));
                assert(range_set_points(rs).contains(r.0 as int));
                assert(covered(ivs, r.0 as int));
                lemma_covered_in_span(bios, s, e, bios.len() as int, r.0 as int);
                assert(covered(ranges@, r.1 - 1));
                assert(range_set_points(rs).contains(r.1 - 1));
                assert(covered(ivs, r.1 - 1));
                lemma_covered_in_span(bios, s, e, bios.len() as int, r.1 - 1);
            }
        }
        let mut total: i128 = 0;
        let mut j: usize = 0;
        while j < ranges.len()
            invariant
                disjoint_sorted(ranges@),
                forall|k2: int|
                    0 <= k2 < ranges@.len() ==> s <= (#[trigger] ranges@[k2]).0 && ranges@[k2].1
                        <= e,
                s <= e < 0x8000_0000_0000_0000,
                -0x8000_0000_0000_0000 <= s,
                j <= ranges@.len(),
                total == sum_lengths_upto(ranges@, j as int),
                0 <= total,
                j > 0 ==> total <= ranges@[j - 1].1 - s,
                j == 0 ==> total == 0,
            decreases ranges@.len() - j,
        {
            let (rs_, re_) = ranges[j];
            proof {
                if j > 0 {
                    assert(ranges@[j - 1].1 <= ranges@[j as int].0);
                }
            }
            total = total + ((re_ as i128) - (rs_ as i128));
            j = j + 1;
        }
        proof {
            lemma_sum_lengths_upto_all(ranges@);
            lemma_sum_disjoint_sorted(ranges@, s, e);
            assert forall|t: int| s <= t < e implies covered(ranges@, t) == covered(ivs, t) by {
                assert(covered(ranges@, t) == range_set_points(rs).contains(t));
            }
            lemma_covered_count_agree(ranges@, ivs, s, e);
        }
        let stats = SyscallStats {
            write_sectors,
            flushes,
            frac_io_time: Frac { num: total, den: (s_end as i128) - (s_start as i128) },
        };
        let mut updated = sys;
        updated.stats = Some(stats);
        self.syscall_list[idx] = updated;
        proof {
            assert(self.syscall_list@ == syscalls.update(idx as int, spec_analyzed(syscalls[
                idx as int], bios)));
            lemma_wf_after_stats_update(*old(self), *self, idx as int);
        }
    }
}

/// Writes nested in a span never sum to more than all sizes.
pub proof fn lemma_write_sectors_le_sizes(bios: Seq<Bio>, s: int, e: int, k: int)
    requires
        0 <= k,
    ensures
        0 <= write_sectors_upto(bios, s, e, k) <= sum_sizes_upto(bios, k),
    decreases k,
{
    if k > 0 {
        lemma_write_sectors_le_sizes(bios, s, e, k - 1);
    }
}

/// Appending one interval extends the covered instants by exactly that
/// interval.
pub proof fn lemma_covered_push(ivs: Seq<(i64, i64)>, iv: (i64, i64), t: int)
    ensures
        covered(ivs.push(iv), t) <==> (covered(ivs, t) || (iv.0 <= t < iv.1)),
{
    let s2 = ivs.push(iv);
    if covered(s2, t) {
        let i = choose|i: int| 0 <= i < s2.len() && (#[trigger] s2[i]).0 <= t < s2[i].1;
        if i < ivs.len() {
            assert(ivs[i] == s2[i]);
        }
    }
    if covered(ivs, t) {
        let i = choose|i: int| 0 <= i < ivs.len() && (#[trigger] ivs[i]).0 <= t < ivs[i].1;
        assert(s2[i] == ivs[i]);
    }
    if iv.0 <= t < iv.1 {
        assert(s2[s2.len() - 1] == iv);
    }
}

/// Every instant covered by the nested intervals lies inside the span.
pub proof fn lemma_covered_in_span(bios: Seq<Bio>, s: int, e: int, k: int, t: int)
    requires
        covered(nested_intervals_upto(bios, s, e, k), t),
        0 <= k <= bios.len(),
    ensures
        s <= t < e,
    decreases k,
{
    let ivs = nested_intervals_upto(bios, s, e, k);
    if k <= 0 {
        assert(false);
    } else {
        let prev = nested_intervals_upto(bios, s, e, k - 1);
        if nested_bio(bios, k - 1, s, e) {
            lemma_covered_push(prev, (bios[k - 1].start, bios[k - 1].eos() as i64), t);
            if covered(prev, t) {
                lemma_covered_in_span(bios, s, e, k - 1, t);
            }
        } else {
            lemma_covered_in_span(bios, s, e, k - 1, t);
        }
    }
}

/// The sum of the lengths of the first `j` intervals.
pub open spec fn sum_lengths_upto(ranges: Seq<(i64, i64)>, j: int) -> int
    decreases j,
{
    if j <= 0 {
        0
    } else {
        sum_lengths_upto(ranges, j - 1) + (ranges[j - 1].1 - ranges[j - 1].0)
    }
}

/// Summing all prefixes reaches the total.
pub proof fn lemma_sum_lengths_upto_all(ranges: Seq<(i64, i64)>)
    ensures
        sum_lengths_upto(ranges, ranges.len() as int) == sum_lengths(ranges),
{
    lemma_sum_lengths_upto_from(ranges, ranges.len() as int);
}

/// Relates the prefix sums to the head-recursive total.
proof fn lemma_sum_lengths_upto_from(ranges: Seq<(i64, i64)>, j: int)
    requires
        0 <= j <= ranges.len(),
    ensures
        sum_lengths_upto(ranges, j) + sum_lengths(ranges.skip(j)) == sum_lengths(ranges),
    decreases j,
{
    if j == 0 {
        assert(ranges.skip(0) =~= ranges);
    } else {
        lemma_sum_lengths_upto_from(ranges, j - 1);
        let a = ranges.skip(j - 1);
        let b = ranges.skip(j);
        assert(a.len() > 0);
        assert(a[0] == ranges[j - 1]);
        assert(a.drop_first() =~= b);
    }
}

/// Updating one syscall's memoized stats preserves trace
/// well-formedness: no key, time or reference changes.
proof fn lemma_wf_after_stats_update(t0: Trace, t1: Trace, idx: int)
    requires
        t0.wf(),
        0 <= idx < t0.ns(),
        t1.name@ == t0.name@,
        t1.bio_list@ == t0.bio_list@,
        t1.head_index@ == t0.head_index@,
        t1.tail_index@ == t0.tail_index@,
        t1.on_screen_bio@ == t0.on_screen_bio@,
        t1.on_screen_syscall@ == t0.on_screen_syscall@,
        t1.selected_bio == t0.selected_bio,
        t1.selected_syscall == t0.selected_syscall,
        t1.stack_traces@ == t0.stack_traces@,
        t1.time_origin == t0.time_origin,
        t1.syscall_list@.len() == t0.syscall_list@.len(),
        forall|i: int|
            0 <= i < t0.ns() ==> syscall_core_eq(
                #[trigger] t1.syscall_list@[i],
                t0.syscall_list@[i],
            ),
    ensures
        t1.wf(),
{
    let bios = t0.bio_list@;
    let s0 = t0.syscall_list@;
    let s1 = t1.syscall_list@;
    assert forall|i: int| 0 <= i < s1.len() implies crate::store::syscall_wf(
        #[trigger] s1[i],
    ) by {
        assert(syscall_core_eq(s1[i], s0[i]));
        assert(crate::store::syscall_wf(s0[i]));
    }
    assert forall|x: (i64, EventIndex)| #[trigger]
        t1.head_index@.contains(x) implies valid_handle(x.1, bios.len() as int, s1.len() as int)
        && (x.0 as int) == event_key(x.1, bios, s1, false) by {
        assert(t0.head_index@.contains(x));
        match x.1 {
            EventIndex::Bio(_) => {},
            EventIndex::Syscall(i) => {
                assert(syscall_core_eq(s1[i as int], s0[i as int]));
            },
        }
    }
    assert forall|x: (i64, EventIndex)| #[trigger]
        t1.tail_index@.contains(x) implies valid_handle(x.1, bios.len() as int, s1.len() as int)
        && (x.0 as int) == event_key(x.1, bios, s1, true) by {
        assert(t0.tail_index@.contains(x));
        match x.1 {
            EventIndex::Bio(_) => {},
            EventIndex::Syscall(i) => {
                assert(syscall_core_eq(s1[i as int], s0[i as int]));
            },
        }
    }
    assert forall|k: int| 0 <= k < t1.on_screen_syscall@.len() implies sys_entry_ok(
        #[trigger] t1.on_screen_syscall@[k],
        s1,
    ) by {
        assert(sys_entry_ok(t0.on_screen_syscall@[k], s0));
        let h = t0.on_screen_syscall@[k].0 as int;
        assert(syscall_core_eq(s1[h], s0[h]));
    }
}

} // verus!
