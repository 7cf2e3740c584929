//! The layout engine: turning one trace's on-screen events into
//! vertically packed screen rectangles.
//!
//! Syscalls form a fixed-height band at the top of the trace's lane.
//! Bios are sorted by device offset, not by time, and packed into rows by
//! a greedy offset-banding rule: a bio whose offset does not exceed its
//! predecessor's continues the predecessor's row, a higher offset opens a
//! new row below.  All vertical positions here are virtual; the
//! coordinator later compresses them uniformly to the canvas height.

use vstd::prelude::*;

verus! {

use crate::trace::Bio;
use crate::store::{
    Trace, OnScreenBio, OnScreenSyscall, sum_entry_sizes, lemma_sum_entry_insert, bio_entry_ok,
    sys_entry_ok,
};
use crate::viewport::{ScreenRect, x_of_time, width_of_duration, time_to_x, duration_to_width,
    MAX_ABS_TIME, div_trunc};

/// The fixed height of the syscall band.
pub const SYSCALL_BAND_HEIGHT: i128 = 50;

/// The vertical gap between the syscall band and the bio rows.
pub const SYSCALL_BAND_GAP: i128 = 200;

/// Upper bound on the virtual height one trace's lane can add.
pub const TRACE_EXTENT_MAX: i128 = 1180591620717411303424;

/// Upper bound on the running vertical cursor the layout accepts.
pub const MAX_LAST_Y: i128 = 5192296858534827628530496329220096;

/// The height of a bio's row: ten units per sector of transfer size,
/// with a floor of seven so that tiny transfers stay visible.
pub open spec fn bio_height(b: Bio) -> int {
    if 10 * b.size < 10 {
        7
    } else {
        10 * b.size
    }
}

/// The handle-and-bio content of an on-screen entry, without its
/// rectangle.
pub open spec fn entry_core(e: (usize, OnScreenBio)) -> (usize, Bio) {
    (e.0, e.1.bio)
}

/// Entries in ascending device-offset order, ties broken by handle.
pub open spec fn sorted_by_offset(entries: Seq<(usize, OnScreenBio)>) -> bool {
    forall|k1: int, k2: int|
        0 <= k1 < k2 < entries.len() ==> ((#[trigger] entries[k1]).1.bio.offset
            < (#[trigger] entries[k2]).1.bio.offset || (entries[k1].1.bio.offset
            == entries[k2].1.bio.offset && entries[k1].0 <= entries[k2].0))
}

/// The sum of the row heights of the entries, one separating unit each.
pub open spec fn heights_sum(entries: Seq<(usize, OnScreenBio)>) -> int
    decreases entries.len(),
{
    if entries.len() == 0 {
        0
    } else {
        heights_sum(entries.drop_last()) + bio_height(entries.last().1.bio) + 1
    }
}

/// The total row height is bounded by the total transfer size.
pub proof fn lemma_heights_sum_bound(entries: Seq<(usize, OnScreenBio)>)
    ensures
        0 <= heights_sum(entries) <= 10 * sum_entry_sizes(entries) + 8 * entries.len(),
    decreases entries.len(),
{
    if entries.len() > 0 {
        lemma_heights_sum_bound(entries.drop_last());
    }
}

/// A prefix never sums to more than the whole list.
pub proof fn lemma_heights_sum_take_le(entries: Seq<(usize, OnScreenBio)>, k: int)
    requires
        0 <= k <= entries.len(),
    ensures
        0 <= heights_sum(entries.take(k)) <= heights_sum(entries),
    decreases entries.len() - k,
{
    lemma_heights_sum_bound(entries.take(k));
    if k == entries.len() {
        assert(entries.take(k) =~= entries);
    } else {
        lemma_heights_sum_take_le(entries, k + 1);
        assert(entries.take(k + 1).drop_last() =~= entries.take(k));
        assert(heights_sum(entries.take(k + 1)) == heights_sum(entries.take(k)) + bio_height(
            entries[k].1.bio,
        ) + 1);
    }
}

/// The packing rule, stated of every placed rectangle: x and width from
/// the event's time span and the zoom factor, height from the transfer
/// size, the first row at the top of the band, and each later bio either
/// continuing its predecessor's row (offset not above the predecessor's)
/// or opening a new row right below the predecessor's rectangle.
pub open spec fn packed_rows(
    entries: Seq<(usize, OnScreenBio)>,
    curr: int,
    zn: int,
    zd: int,
    band: int,
) -> bool {
    &&& forall|k: int|
        0 <= k < entries.len() ==> {
            let e = #[trigger] entries[k];
            &&& e.1.rect.min_x == x_of_time(e.1.bio.start as int, curr, zn, zd)
            &&& e.1.rect.max_x == e.1.rect.min_x + width_of_duration(
                e.1.bio.eos() - e.1.bio.start,
                zn,
                zd,
            )
            &&& e.1.rect.max_y == e.1.rect.min_y + bio_height(e.1.bio)
        }
    &&& (entries.len() > 0 ==> entries[0].1.rect.min_y == band)
    &&& forall|k: int|
        0 <= k && k + 1 < entries.len() ==> (#[trigger] entries[k + 1]).1.rect.min_y as int == (
        if (#[trigger] entries[k]).1.bio.offset >= entries[k + 1].1.bio.offset {
            entries[k].1.rect.min_y as int
        } else {
            entries[k].1.rect.max_y + 1
        })
}

/// Where the lane's vertical cursor ends after the packed rows.
pub open spec fn rows_end(entries: Seq<(usize, OnScreenBio)>, band: int) -> int {
    if entries.len() == 0 {
        band
    } else {
        entries.last().1.rect.max_y + 1
    }
}

/// The syscall band: every on-screen syscall at the top of the lane, a
/// fixed-height bar spanning its time interval.
pub open spec fn sys_band_ok(
    entries: Seq<(usize, OnScreenSyscall)>,
    curr: int,
    zn: int,
    zd: int,
    top: int,
) -> bool {
    forall|k: int|
        0 <= k < entries.len() ==> {
            let e = #[trigger] entries[k];
            &&& e.1.rect.min_x == x_of_time(e.1.syscall.start as int, curr, zn, zd)
            &&& e.1.rect.max_x == e.1.rect.min_x + width_of_duration(
                e.1.syscall.eos() - e.1.syscall.start,
                zn,
                zd,
            )
            &&& e.1.rect.min_y == top
            &&& e.1.rect.max_y == top + SYSCALL_BAND_HEIGHT
        }
}

/// Sorts on-screen bios by device offset (ties by handle), keeping the
/// entries themselves: an insertion sort into a fresh list.
fn sort_entries(v: &mut Vec<(usize, OnScreenBio)>)
    ensures
        sorted_by_offset(final(v)@),
        final(v)@.to_multiset() == old(v)@.to_multiset(),
        final(v)@.len() == old(v)@.len(),
        sum_entry_sizes(final(v)@) == sum_entry_sizes(old(v)@),
{
    broadcast use vstd::seq_lib::group_to_multiset_ensures;

    let ghost input = v@;
    let mut out: Vec<(usize, OnScreenBio)> = Vec::new();
    let mut j: usize = 0;
    while j < v.len()
        invariant
            j <= v@.len(),
            v@ == input,
            out@.len() == j,
            sorted_by_offset(out@),
            out@.to_multiset() == input.take(j as int).to_multiset(),
            sum_entry_sizes(out@) == sum_entry_sizes(input.take(j as int)),
        decreases v@.len() - j,
    {
        let e = v[j];
        let ghost out0 = out@;
        let mut pos: usize = 0;
        while pos < out.len() && (out[pos].1.bio.offset < e.1.bio.offset || (out[pos].1.bio.offset
            == e.1.bio.offset && out[pos].0 <= e.0))
            invariant
                pos <= out@.len(),
                out@ == out0,
                forall|i: int|
                    0 <= i < pos ==> ((#[trigger] out@[i]).1.bio.offset < e.1.bio.offset || (
                    out@[i].1.bio.offset == e.1.bio.offset && out@[i].0 <= e.0)),
            decreases out@.len() - pos,
        {
            pos = pos + 1;
        }
        out.insert(pos, e);
        proof {
            out0.insert_ensures(pos as int, e);
            let s1 = out@;
            let p = pos as int;
            assert forall|k1: int, k2: int| 0 <= k1 < k2 < s1.len() implies ((#[trigger] s1[k1]).1.bio.offset
                < (#[trigger] s1[k2]).1.bio.offset || (s1[k1].1.bio.offset == s1[k2].1.bio.offset
                && s1[k1].0 <= s1[k2].0)) by {
                if k1 < p && k2 < p {
                } else if k1 < p && k2 == p {
                } else if k1 < p && k2 > p {
                    assert(s1[k2] == out0[k2 - 1]);
                } else if k1 == p {
                    assert(s1[k2] == out0[k2 - 1]);
                    assert(!(out0[k2 - 1].1.bio.offset < e.1.bio.offset || (out0[k2
                        - 1].1.bio.offset == e.1.bio.offset && out0[k2 - 1].0 <= e.0)) ==> (
                    e.1.bio.offset < out0[k2 - 1].1.bio.offset || (e.1.bio.offset == out0[k2
                        - 1].1.bio.offset && e.0 <= out0[k2 - 1].0)));
                } else {
                    assert(s1[k1] == out0[k1 - 1]);
                    assert(s1[k2] == out0[k2 - 1]);
                }
            }
            lemma_sum_entry_insert(out0, p, e);
            vstd::seq_lib::to_multiset_insert(out0, p, e);
            vstd::seq_lib::to_multiset_build(input.take(j as int), e);
            assert(input.take(j + 1) =~= input.take(j as int).push(e));
            assert(input.take(j + 1).drop_last() =~= input.take(j as int));
        }
        j = j + 1;
    }
    proof {
        assert(input.take(input.len() as int) =~= input);
    }
    *v = out;
}

impl Trace {
    /// Lays out this trace's on-screen events in virtual coordinates,
    /// starting at the shared vertical cursor `last_y` and advancing it
    /// past this trace's lane: the syscall band first, then the bios
    /// sorted by offset and packed into rows.
    pub fn layout(&mut self, last_y: &mut i128, rel_time: i64, zn: u32, zd: u32)
        requires
            old(self).wf(),
            1 <= zn,
            1 <= zd,
            0 <= *old(last_y) <= MAX_LAST_Y,
        ensures
            final(self).wf(),
            *final(self) == (Trace {
                on_screen_bio: final(self).on_screen_bio,
                on_screen_syscall: final(self).on_screen_syscall,
                ..*old(self)
            }),
            final(self).on_screen_syscall@.len() == old(self).on_screen_syscall@.len(),
            forall|k: int|
                0 <= k < final(self).on_screen_syscall@.len() ==> (#[trigger] final(self).on_screen_syscall@[k]).0 == old(self).on_screen_syscall@[k].0 && final(self).on_screen_syscall@[k].1.syscall == old(self).on_screen_syscall@[k].1.syscall,
            sys_band_ok(
                final(self).on_screen_syscall@,
                old(self).win_lo(rel_time as int),
                zn as int,
                zd as int,
                *old(last_y) as int,
            ),
            forall|i: int|
                crate::store::has_bio_entry(final(self).on_screen_bio@, i)
                    <==> crate::store::has_bio_entry(old(self).on_screen_bio@, i),
            final(self).on_screen_bio@.len() == old(self).on_screen_bio@.len(),
            sorted_by_offset(final(self).on_screen_bio@),
            packed_rows(
                final(self).on_screen_bio@,
                old(self).win_lo(rel_time as int),
                zn as int,
                zd as int,
                *old(last_y) + SYSCALL_BAND_GAP,
            ),
            *final(last_y) == rows_end(
                final(self).on_screen_bio@,
                *old(last_y) + SYSCALL_BAND_GAP,
            ),
            *old(last_y) + SYSCALL_BAND_GAP <= *final(last_y) <= *old(last_y) + TRACE_EXTENT_MAX,
            forall|k: int|
                0 <= k < final(self).on_screen_bio@.len() ==> *old(last_y) <= (#[trigger] final(self).on_screen_bio@[k]).1.rect.min_y && final(self).on_screen_bio@[k].1.rect.max_y
                    <= *old(last_y) + TRACE_EXTENT_MAX,
    {
        let ghost bios = self.bio_list@;
        let curr: i128 = (rel_time as i128) + (self.time_origin as i128);
        let top: i128 = *last_y;

        // Lay out the syscall band.
        let mut k: usize = 0;
        let ghost sys0 = self.on_screen_syscall@;
        while k < self.on_screen_syscall.len()
            invariant
                old(self).wf(),
                *self == (Trace { on_screen_syscall: self.on_screen_syscall, ..*old(self) }),
                sys0 == old(self).on_screen_syscall@,
                self.on_screen_syscall@.len() == sys0.len(),
                k <= sys0.len(),
                curr == rel_time + old(self).time_origin,
                -MAX_ABS_TIME <= curr <= MAX_ABS_TIME,
                1 <= zd,
                forall|i: int|
                    k <= i < sys0.len() ==> #[trigger] self.on_screen_syscall@[i] == sys0[i],
                forall|i: int|
                    0 <= i < k ==> (#[trigger] self.on_screen_syscall@[i]).0 == sys0[i].0
                        && self.on_screen_syscall@[i].1.syscall == sys0[i].1.syscall,
                sys_band_ok(
                    self.on_screen_syscall@.take(k as int),
                    curr as int,
                    zn as int,
                    zd as int,
                    top as int,
                ),
                0 <= top <= MAX_LAST_Y,
            decreases sys0.len() - k,
        {
            let e = self.on_screen_syscall[k];
            proof {
                assert(sys_entry_ok(sys0[k as int], old(self).syscall_list@));
                assert(crate::store::syscall_wf(old(self).syscall_list@[sys0[k as int].0 as int]));
            }
            let x = time_to_x(e.1.syscall.start, curr, zn, zd);
            let eos: i64 = match e.1.syscall.end {
                Some(t) => t,
                None => e.1.syscall.start,
            };
            let dur: i128 = (eos as i128) - (e.1.syscall.start as i128);
            let w = duration_to_width(dur, zn, zd);
            let rect = ScreenRect {
                min_x: x,
                min_y: top,
                max_x: x + w,
                max_y: top + SYSCALL_BAND_HEIGHT,
            };
            let ghost sbefore = self.on_screen_syscall@;
            self.on_screen_syscall[k] = (e.0, OnScreenSyscall { syscall: e.1.syscall, rect });
            proof {
                let now = self.on_screen_syscall@;
                let ki = k as int;
                assert(now.take(ki) =~= sbefore.take(ki));
                assert(now.take(ki + 1)[ki] == (e.0, OnScreenSyscall { syscall: e.1.syscall, rect }));
                assert forall|i: int| 0 <= i < ki + 1 implies {
                    let en = #[trigger] now.take(ki + 1)[i];
                    &&& en.1.rect.min_x == x_of_time(en.1.syscall.start as int, curr as int,
                        zn as int, zd as int)
                    &&& en.1.rect.max_x == en.1.rect.min_x + width_of_duration(
                        en.1.syscall.eos() - en.1.syscall.start,
                        zn as int,
                        zd as int,
                    )
                    &&& en.1.rect.min_y == top
                    &&& en.1.rect.max_y == top + SYSCALL_BAND_HEIGHT
                } by {
                    if i < ki {
                        assert(now.take(ki + 1)[i] == sbefore.take(ki)[i]);
                    }
                }
            }
            k = k + 1;
        }
        proof {
            assert(self.on_screen_syscall@.take(sys0.len() as int) =~= self.on_screen_syscall@);
        }

        let ghost sysdone = self.on_screen_syscall@;
        *last_y = *last_y + SYSCALL_BAND_GAP;
        let band: i128 = *last_y;

        // Sort the bios by offset and pack them into rows.
        sort_entries(&mut self.on_screen_bio);
        let ghost sorted0 = self.on_screen_bio@;
        proof {
            broadcast use vstd::seq_lib::group_to_multiset_ensures;

            assert forall|i: int| 0 <= i < sorted0.len() implies bio_entry_ok(
                #[trigger] sorted0[i],
                bios,
            ) by {
                assert(sorted0.to_multiset().contains(sorted0[i]));
                assert(old(self).on_screen_bio@.contains(sorted0[i]));
                let k0 = choose|k0: int|
                    0 <= k0 < old(self).on_screen_bio@.len() && old(self).on_screen_bio@[k0]
                        == sorted0[i];
                assert(bio_entry_ok(old(self).on_screen_bio@[k0], bios));
            }
            lemma_heights_sum_bound(sorted0);
        }

        let n = self.on_screen_bio.len();
        let mut curr_y: i128 = band;
        let mut last_row_y: i128 = band;
        let mut last_offset: u64 = 0;
        let mut k: usize = 0;
        while k < n
            invariant
                old(self).wf(),
                *self == (Trace {
                    on_screen_bio: self.on_screen_bio,
                    on_screen_syscall: self.on_screen_syscall,
                    ..*old(self)
                }),
                bios == old(self).bio_list@,
                n == sorted0.len(),
                self.on_screen_bio@.len() == n,
                self.on_screen_syscall@ == sysdone,
                sysdone.len() == sys0.len(),
                sys0 == old(self).on_screen_syscall@,
                forall|i: int|
                    0 <= i < sysdone.len() ==> ((#[trigger] sysdone[i]).0 == sys0[i].0
                        && sysdone[i].1.syscall == sys0[i].1.syscall),
                sys_band_ok(sysdone, curr as int, zn as int, zd as int, top as int),
                top == *old(last_y),
                k <= n,
                curr == rel_time + old(self).time_origin,
                -MAX_ABS_TIME <= curr <= MAX_ABS_TIME,
                1 <= zd,
                0 <= band <= MAX_LAST_Y + SYSCALL_BAND_GAP,
                sorted_by_offset(sorted0),
                forall|i: int| 0 <= i < sorted0.len() ==> bio_entry_ok(#[trigger] sorted0[i], bios),
                0 <= heights_sum(sorted0) <= 10 * sum_entry_sizes(sorted0) + 8 * sorted0.len(),
                sum_entry_sizes(sorted0) <= u64::MAX,
                forall|i: int| k <= i < n ==> #[trigger] self.on_screen_bio@[i] == sorted0[i],
                forall|i: int|
                    0 <= i < k ==> entry_core(#[trigger] self.on_screen_bio@[i]) == entry_core(
                        sorted0[i],
                    ),
                packed_rows(
                    self.on_screen_bio@.take(k as int),
                    curr as int,
                    zn as int,
                    zd as int,
                    band as int,
                ),
                band <= curr_y,
                band <= last_row_y,
                heights_sum(sorted0.take(k as int)) <= heights_sum(sorted0),
                0 <= heights_sum(sorted0.take(k as int)),
                curr_y <= band + heights_sum(sorted0.take(k as int)),
                last_row_y <= band + heights_sum(sorted0.take(k as int)),
                forall|j: int|
                    0 <= j < k ==> band <= (#[trigger] self.on_screen_bio@[j]).1.rect.min_y
                        && self.on_screen_bio@[j].1.rect.max_y <= band + heights_sum(sorted0),
                k == 0 ==> curr_y == band && last_row_y == band && last_offset == 0,
                k > 0 ==> last_row_y == self.on_screen_bio@[k - 1].1.rect.min_y,
                k > 0 ==> curr_y == self.on_screen_bio@[k - 1].1.rect.max_y + 1,
                k > 0 ==> last_offset == self.on_screen_bio@[k - 1].1.bio.offset,
                k > 0 ==> self.on_screen_bio@[0].1.rect.min_y == band,
            decreases n - k,
        {
            let e = self.on_screen_bio[k];
            proof {
                assert(self.on_screen_bio@[k as int] == sorted0[k as int]);
                assert(bio_entry_ok(sorted0[k as int], bios));
                assert(crate::store::bio_wf(bios[sorted0[k as int].0 as int]));
            }
            let x = time_to_x(e.1.bio.start, curr, zn, zd);
            let eos: i64 = match e.1.bio.end {
                Some(t) => t,
                None => e.1.bio.start,
            };
            let dur: i128 = (eos as i128) - (e.1.bio.start as i128);
            let w = duration_to_width(dur, zn, zd);
            let mut height: i128 = 10 * (e.1.bio.size as i128);
            if height < 10 {
                height = 7;
            }
            let y: i128 = if last_offset >= e.1.bio.offset {
                last_row_y
            } else {
                curr_y
            };
            proof {
                assert(sorted0.take(k + 1).drop_last() =~= sorted0.take(k as int));
                assert(heights_sum(sorted0.take(k + 1)) == heights_sum(sorted0.take(k as int))
                    + bio_height(sorted0[k as int].1.bio) + 1);
                lemma_heights_sum_take_le(sorted0, k + 1);
            }
            let rect = ScreenRect { min_x: x, min_y: y, max_x: x + w, max_y: y + height };
            let ghost before = self.on_screen_bio@;
            self.on_screen_bio[k] = (e.0, OnScreenBio { bio: e.1.bio, rect });
            proof {
                let now = self.on_screen_bio@;
                let ki = k as int;
                assert(now == before.update(ki, (e.0, OnScreenBio { bio: e.1.bio, rect })));
                assert forall|i: int| 0 <= i < ki + 1 implies {
                    let en = (#[trigger] now.take(ki + 1)[i]);
                    &&& en.1.rect.min_x == x_of_time(en.1.bio.start as int, curr as int, zn as int,
                        zd as int)
                    &&& en.1.rect.max_x == en.1.rect.min_x + width_of_duration(
                        en.1.bio.eos() - en.1.bio.start,
                        zn as int,
                        zd as int,
                    )
                    &&& en.1.rect.max_y == en.1.rect.min_y + bio_height(en.1.bio)
                } by {
                    if i < ki {
                        assert(now.take(ki + 1)[i] == before.take(ki)[i]);
                    }
                }
                assert forall|i: int| 0 <= i && i + 1 < ki + 1 implies (#[trigger] now.take(ki + 1)[
                    i + 1]).1.rect.min_y as int == (if (#[trigger] now.take(ki + 1)[i]).1.bio.offset
                    >= now.take(ki + 1)[i + 1].1.bio.offset {
                    now.take(ki + 1)[i].1.rect.min_y as int
                } else {
                    now.take(ki + 1)[i].1.rect.max_y + 1
                }) by {
                    if i + 1 < ki {
                        assert(now.take(ki + 1)[i] == before.take(ki)[i]);
                        assert(now.take(ki + 1)[i + 1] == before.take(ki)[i + 1]);
                    } else {
                        assert(i + 1 == ki);
                        if i >= 0 {
                            assert(now.take(ki + 1)[i] == before.take(ki)[i]);
                        }
                    }
                }
            }
            last_offset = e.1.bio.offset;
            last_row_y = y;
            curr_y = y + height + 1;
            k = k + 1;
        }
        proof {
            assert(self.on_screen_bio@.take(n as int) =~= self.on_screen_bio@);
            assert(sorted0.take(n as int) =~= sorted0);
            assert forall|k1: int, k2: int| 0 <= k1 < k2 < self.on_screen_bio@.len() implies ((
            #[trigger] self.on_screen_bio@[k1]).1.bio.offset
                < (#[trigger] self.on_screen_bio@[k2]).1.bio.offset || (self.on_screen_bio@[
            k1].1.bio.offset == self.on_screen_bio@[k2].1.bio.offset && self.on_screen_bio@[k1].0
                <= self.on_screen_bio@[k2].0)) by {
                assert(entry_core(self.on_screen_bio@[k1]) == entry_core(sorted0[k1]));
                assert(entry_core(self.on_screen_bio@[k2]) == entry_core(sorted0[k2]));
            }
            lemma_sum_entry_pointwise(self.on_screen_bio@, sorted0);
            assert forall|i: int|
                crate::store::has_bio_entry(self.on_screen_bio@, i) <==> crate::store::has_bio_entry(
                    old(self).on_screen_bio@,
                    i,
                ) by {
                let fin = self.on_screen_bio@;
                let orig = old(self).on_screen_bio@;
                if crate::store::has_bio_entry(fin, i) {
                    let k0 = choose|k0: int|
                        0 <= k0 < fin.len() && ((#[trigger] fin[k0]).0 as int) == i;
                    assert(entry_core(fin[k0]) == entry_core(sorted0[k0]));
                    assert(sorted0.contains(sorted0[k0]));
                    vstd::seq_lib::to_multiset_contains(sorted0, sorted0[k0]);
                    vstd::seq_lib::to_multiset_contains(orig, sorted0[k0]);
                    assert(orig.contains(sorted0[k0]));
                    let k1 = choose|k1: int| 0 <= k1 < orig.len() && orig[k1] == sorted0[k0];
                    assert((orig[k1].0 as int) == i);
                }
                if crate::store::has_bio_entry(orig, i) {
                    let k0 = choose|k0: int|
                        0 <= k0 < orig.len() && ((#[trigger] orig[k0]).0 as int) == i;
                    assert(orig.contains(orig[k0]));
                    vstd::seq_lib::to_multiset_contains(orig, orig[k0]);
                    vstd::seq_lib::to_multiset_contains(sorted0, orig[k0]);
                    assert(sorted0.contains(orig[k0]));
                    let k1 = choose|k1: int| 0 <= k1 < sorted0.len() && sorted0[k1] == orig[k0];
                    assert(entry_core(fin[k1]) == entry_core(sorted0[k1]));
                    assert((fin[k1].0 as int) == i);
                }
            }
            assert forall|i: int| 0 <= i < self.on_screen_bio@.len() implies bio_entry_ok(
                #[trigger] self.on_screen_bio@[i],
                bios,
            ) by {
                assert(entry_core(self.on_screen_bio@[i]) == entry_core(sorted0[i]));
                assert(bio_entry_ok(sorted0[i], bios));
            }
            assert forall|i: int| 0 <= i < self.on_screen_syscall@.len() implies sys_entry_ok(
                #[trigger] self.on_screen_syscall@[i],
                self.syscall_list@,
            ) by {
                assert(sys_entry_ok(old(self).on_screen_syscall@[i], old(self).syscall_list@));
                assert(sysdone[i].1.syscall == sys0[i].1.syscall);
            }
        }
        *last_y = curr_y;
    }
}

/// Lists with the same handle-and-bio content at every index have the
/// same total size.
pub proof fn lemma_sum_entry_pointwise(s1: Seq<(usize, OnScreenBio)>, s2: Seq<(usize, OnScreenBio)>)
    requires
        s1.len() == s2.len(),
        forall|i: int| 0 <= i < s1.len() ==> entry_core(#[trigger] s1[i]) == entry_core(s2[i]),
    ensures
        sum_entry_sizes(s1) == sum_entry_sizes(s2),
    decreases s1.len(),
{
    if s1.len() > 0 {
        assert(entry_core(s1[s1.len() - 1]) == entry_core(s2[s2.len() - 1]));
        assert forall|i: int| 0 <= i < s1.drop_last().len() implies entry_core(
            #[trigger] s1.drop_last()[i],
        ) == entry_core(s2.drop_last()[i]) by {
            assert(s1.drop_last()[i] == s1[i]);
            assert(s2.drop_last()[i] == s2[i]);
            assert(entry_core(s1[i]) == entry_core(s2[i]));
        }
        lemma_sum_entry_pointwise(s1.drop_last(), s2.drop_last());
    }
}

/// The packing law: among the placed rows, two bios on the same row
/// stand in device-offset order (the later one's offset is at least the
/// earlier one's), and every placed bio's row height is the maximum of
/// seven and ten times its transfer size.  Stated of the virtual rows
/// the packer assigns, before the uniform vertical rescale.
pub proof fn lemma_packing_rules(
    entries: Seq<(usize, OnScreenBio)>,
    curr: int,
    zn: int,
    zd: int,
    band: int,
)
    requires
        sorted_by_offset(entries),
        packed_rows(entries, curr, zn, zd, band),
    ensures
        forall|k1: int, k2: int|
            0 <= k1 < k2 < entries.len() && (#[trigger] entries[k1]).1.rect.min_y == (
            #[trigger] entries[k2]).1.rect.min_y ==> entries[k1].1.bio.offset
                <= entries[k2].1.bio.offset,
        forall|k: int|
            0 <= k < entries.len() ==> (#[trigger] entries[k]).1.rect.max_y
                - entries[k].1.rect.min_y == (if 10 * entries[k].1.bio.size >= 7 {
                10 * entries[k].1.bio.size
            } else {
                7int
            }),
{
    assert forall|k: int| 0 <= k < entries.len() implies (#[trigger] entries[k]).1.rect.max_y
        - entries[k].1.rect.min_y == (if 10 * entries[k].1.bio.size >= 7 {
        10 * entries[k].1.bio.size
    } else {
        7int
    }) by {
        assert(entries[k].1.rect.max_y == entries[k].1.rect.min_y + bio_height(entries[k].1.bio));
    }
}

/// A bio that never observed a completion has an effective duration of
/// zero, so its placed rectangle has zero width whatever its size.
pub proof fn lemma_open_bio_zero_width(
    entries: Seq<(usize, OnScreenBio)>,
    curr: int,
    zn: int,
    zd: int,
    band: int,
    k: int,
)
    requires
        packed_rows(entries, curr, zn, zd, band),
        0 <= k < entries.len(),
        entries[k].1.bio.end is None,
        1 <= zd,
    ensures
        entries[k].1.rect.max_x == entries[k].1.rect.min_x,
{
    let e = entries[k];
    assert(e.1.bio.eos() - e.1.bio.start == 0);
    assert(width_of_duration(0, zn, zd) == div_trunc(0 * zn, zd));
    assert(0 * zn == 0) by (nonlinear_arith);
    assert(div_trunc(0, zd) == 0) by {
        vstd::arithmetic::div_mod::lemma_div_of0(zd);
    }
}

} // verus!
