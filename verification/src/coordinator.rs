//! The multi-trace coordinator: the shared viewport (time origin, zoom
//! and canvas rectangle), the stack of trace lanes on one vertical
//! canvas, and the navigation operations.
//!
//! Every navigation operation recomputes the layout: each trace's
//! on-screen set is refreshed through that trace's own time origin, its
//! lane is laid out in virtual coordinates below the previous trace's
//! lane, and finally every rectangle's vertical extent is compressed
//! uniformly so that the total virtual extent fits the canvas height.

use vstd::prelude::*;

verus! {

use crate::store::{
    Trace, OnScreenBio, OnScreenSyscall, bio_entry_ok, sys_entry_ok, has_bio_entry, has_sys_entry,
    bio_in_window, sys_in_window,
};
use crate::layout::{
    sorted_by_offset, packed_rows, rows_end, sys_band_ok, SYSCALL_BAND_GAP, TRACE_EXTENT_MAX,
    MAX_LAST_Y, lemma_sum_entry_pointwise,
};
use crate::viewport::{
    ScreenRect, div_trunc, time_delta_of_px, px_to_time_delta, MAX_CANVAS, spec_gcd, gcd_u64,
};
use vstd::arithmetic::div_mod::lemma_fundamental_div_mod;

/// The largest number of traces one canvas accepts.
pub const MAX_TRACES: usize = 4294967295;

/// The vertical gap between two trace lanes.
pub const LANE_GAP: i128 = 50;

/// The cap applied to the canvas height when the vertical compression
/// factor is derived.
pub const HEIGHT_CAP: i128 = 1000;

/// The duration of the visible window: the canvas width converted to
/// nanoseconds, saturated at the largest timestamp difference a query
/// takes.
pub open spec fn spec_window_dur(rect: ScreenRect, zn: int, zd: int) -> int {
    let d = time_delta_of_px(rect.spec_width(), zn, zd);
    if d > i64::MAX {
        i64::MAX as int
    } else {
        d
    }
}

/// The canvas height clamped to the cap: the denominator of the vertical
/// compression.
pub open spec fn clamp_height(rect: ScreenRect) -> int {
    if rect.spec_height() < HEIGHT_CAP {
        rect.spec_height()
    } else {
        HEIGHT_CAP as int
    }
}

/// One rectangle after vertical compression by the factor `e / h`: both
/// vertical coordinates are scaled by `h / e` and truncated, the
/// horizontal ones stay.
pub open spec fn compress_rect(r: ScreenRect, h: int, e: int) -> ScreenRect {
    ScreenRect {
        min_x: r.min_x,
        min_y: div_trunc(r.min_y * h, e) as i128,
        max_x: r.max_x,
        max_y: div_trunc(r.max_y * h, e) as i128,
    }
}

/// Two traces that agree on everything but their on-screen caches.
pub open spec fn trace_core_eq(a: Trace, b: Trace) -> bool {
    b == (Trace { on_screen_bio: b.on_screen_bio, on_screen_syscall: b.on_screen_syscall, ..a })
}

/// A bio list is the compressed image of a virtual one: same handles and
/// bios, every rectangle vertically compressed.
pub open spec fn compressed_bio(
    out: Seq<(usize, OnScreenBio)>,
    virt: Seq<(usize, OnScreenBio)>,
    h: int,
    e: int,
) -> bool {
    &&& out.len() == virt.len()
    &&& forall|j: int|
        0 <= j < out.len() ==> #[trigger] out[j] == (
        virt[j].0,
        OnScreenBio { bio: virt[j].1.bio, rect: compress_rect(virt[j].1.rect, h, e) },
        )
}

/// Likewise for a syscall list.
pub open spec fn compressed_sys(
    out: Seq<(usize, OnScreenSyscall)>,
    virt: Seq<(usize, OnScreenSyscall)>,
    h: int,
    e: int,
) -> bool {
    &&& out.len() == virt.len()
    &&& forall|j: int|
        0 <= j < out.len() ==> #[trigger] out[j] == (
        virt[j].0,
        OnScreenSyscall { syscall: virt[j].1.syscall, rect: compress_rect(virt[j].1.rect, h, e) },
        )
}

/// One trace's lane in virtual coordinates: the on-screen sets hold
/// exactly the events intersecting the trace's window, the syscall band
/// sits at the lane's top, the bios are packed into offset-sorted rows
/// below it, and the next lane starts one gap after this one ends.
pub open spec fn lane_virtual(
    t0: Trace,
    bio_v: Seq<(usize, OnScreenBio)>,
    sys_v: Seq<(usize, OnScreenSyscall)>,
    curr_time: int,
    zn: int,
    zd: int,
    dur: int,
    band: int,
    band_next: int,
) -> bool {
    &&& forall|i: int|
        0 <= i < t0.nb() ==> (has_bio_entry(bio_v, i) <==> bio_in_window(
            #[trigger] t0.bio_list@[i],
            t0.win_lo(curr_time),
            t0.win_hi(curr_time, dur),
        ))
    &&& forall|i: int|
        0 <= i < t0.ns() ==> (has_sys_entry(sys_v, i) <==> sys_in_window(
            #[trigger] t0.syscall_list@[i],
            t0.win_lo(curr_time),
            t0.win_hi(curr_time, dur),
        ))
    &&& forall|k: int| 0 <= k < bio_v.len() ==> bio_entry_ok(#[trigger] bio_v[k], t0.bio_list@)
    &&& forall|k: int| 0 <= k < sys_v.len() ==> sys_entry_ok(#[trigger] sys_v[k], t0.syscall_list@)
    &&& sys_band_ok(sys_v, t0.win_lo(curr_time), zn, zd, band)
    &&& sorted_by_offset(bio_v)
    &&& packed_rows(bio_v, t0.win_lo(curr_time), zn, zd, band + SYSCALL_BAND_GAP)
    &&& band_next == rows_end(bio_v, band + SYSCALL_BAND_GAP) + LANE_GAP
    &&& band + SYSCALL_BAND_GAP + LANE_GAP <= band_next <= band + TRACE_EXTENT_MAX + LANE_GAP
    &&& forall|k: int|
        0 <= k < bio_v.len() ==> band <= (#[trigger] bio_v[k]).1.rect.min_y
            && bio_v[k].1.rect.max_y <= band + TRACE_EXTENT_MAX
}

/// The whole canvas after one layout pass, given the virtual lanes: the
/// lanes stack from the top, the total virtual extent becomes the
/// compression numerator, and every cached rectangle is the compressed
/// image of its virtual one.
pub open spec fn app_lanes(
    pre: TemplateApp,
    post: TemplateApp,
    bands: Seq<int>,
    vb: Seq<Seq<(usize, OnScreenBio)>>,
    vs: Seq<Seq<(usize, OnScreenSyscall)>>,
) -> bool {
    let n = pre.traces@.len() as int;
    let zn = pre.zoom_num as int;
    let zd = pre.zoom_den as int;
    let dur = spec_window_dur(pre.rect, zn, zd);
    let h = clamp_height(pre.rect);
    &&& bands.len() == n + 1
    &&& vb.len() == n
    &&& vs.len() == n
    &&& bands[0] == 0
    &&& forall|k: int|
        0 <= k < n ==> lane_virtual(
            #[trigger] pre.traces@[k],
            vb[k],
            vs[k],
            pre.curr_time as int,
            zn,
            zd,
            dur,
            bands[k],
            bands[k + 1],
        )
    &&& post.y_zoom_num == bands[n]
    &&& forall|k: int|
        0 <= k < n ==> compressed_bio(
            (#[trigger] post.traces@[k]).on_screen_bio@,
            vb[k],
            h,
            bands[n],
        )
    &&& forall|k: int|
        0 <= k < n ==> compressed_sys(
            (#[trigger] post.traces@[k]).on_screen_syscall@,
            vs[k],
            h,
            bands[n],
        )
}

/// The relation a full layout pass establishes between the state it read
/// (viewport and traces) and the state it leaves.
pub open spec fn app_laid(pre: TemplateApp, post: TemplateApp) -> bool {
    &&& post == (TemplateApp {
        traces: post.traces,
        y_zoom_num: post.y_zoom_num,
        y_zoom_den: post.y_zoom_den,
        ..pre
    })
    &&& post.traces@.len() == pre.traces@.len()
    &&& forall|k: int|
        0 <= k < post.traces@.len() ==> trace_core_eq(#[trigger] pre.traces@[k], post.traces@[k])
    &&& post.y_zoom_den == clamp_height(pre.rect)
    &&& exists|bands: Seq<int>, vb: Seq<Seq<(usize, OnScreenBio)>>, vs: Seq<
        Seq<(usize, OnScreenSyscall)>,
    >| #[trigger] app_lanes(pre, post, bands, vb, vs)
}

/// The shared state of the whole timeline: the viewport (zoom as the
/// exact rational `zoom_num / zoom_den` in pixels per nanosecond, the
/// leftmost visible display time, and the canvas rectangle), the traces
/// stacked on the canvas, and the vertical compression factor
/// `y_zoom_num / y_zoom_den` of the last layout pass.
pub struct TemplateApp {
    pub zoom_num: u32,
    pub zoom_den: u32,
    pub curr_time: i64,
    pub traces: Vec<Trace>,
    pub y_zoom_num: i128,
    pub y_zoom_den: i128,
    pub rect: ScreenRect,
}

impl TemplateApp {
    /// Well-formedness: a positive zoom, a drawable canvas, and
    /// well-formed traces, boundedly many.
    pub open spec fn wf(self) -> bool {
        &&& 1 <= self.zoom_num
        &&& 1 <= self.zoom_den
        &&& self.rect.canvas_wf()
        &&& self.traces@.len() <= MAX_TRACES
        &&& forall|k: int| 0 <= k < self.traces@.len() ==> (#[trigger] self.traces@[k]).wf()
    }

    /// Builds the coordinator over fully loaded traces.  Returns `None`
    /// exactly when there are more traces than the canvas accepts.  The
    /// initial zoom shows a hundred thousand nanoseconds per pixel and
    /// nothing is laid out yet.
    pub fn new(traces: Vec<Trace>) -> (r: Option<TemplateApp>)
        requires
            forall|k: int| 0 <= k < traces@.len() ==> (#[trigger] traces@[k]).wf(),
        ensures
            match r {
                Some(app) => {
                    &&& app.wf()
                    &&& app.traces@ == traces@
                    &&& app.zoom_num == 1
                    &&& app.zoom_den == 100000
                    &&& app.curr_time == 0
                    &&& app.y_zoom_num == 1
                    &&& app.y_zoom_den == 1
                    &&& app.rect == (ScreenRect { min_x: 0, min_y: 0, max_x: 0, max_y: 0 })
                },
                None => traces@.len() > MAX_TRACES,
            },
    {
        if traces.len() > MAX_TRACES {
            return None;
        }
        Some(
            TemplateApp {
                zoom_num: 1,
                zoom_den: 100000,
                curr_time: 0,
                traces,
                y_zoom_num: 1,
                y_zoom_den: 1,
                rect: ScreenRect { min_x: 0, min_y: 0, max_x: 0, max_y: 0 },
            },
        )
    }
}

impl TemplateApp {
    /// Recomputes the whole canvas: refreshes every trace's on-screen
    /// set for the current window, stacks the lanes in virtual
    /// coordinates, derives the vertical compression factor from the
    /// total extent and the canvas height, and compresses every
    /// rectangle.
    pub fn layout(&mut self)
        requires
            old(self).wf(),
        ensures
            final(self).wf(),
            app_laid(*old(self), *final(self)),
    {
        let zn = self.zoom_num;
        let zd = self.zoom_den;
        let width128: i128 = self.rect.max_x - self.rect.min_x;
        let wpx: i64 = width128 as i64;
        let dur128: i128 = px_to_time_delta(wpx, zn, zd);
        let dur: i64 = if dur128 > 0x7fff_ffff_ffff_ffff {
            0x7fff_ffff_ffff_ffff
        } else {
            dur128 as i64
        };
        let n = self.traces.len();
        let mut last_y: i128 = 0;
        let ghost mut bands: Seq<int> = seq![0int];
        let ghost mut vb: Seq<Seq<(usize, OnScreenBio)>> = Seq::empty();
        let ghost mut vs: Seq<Seq<(usize, OnScreenSyscall)>> = Seq::empty();
        let mut k: usize = 0;
        while k < n
            invariant
                old(self).wf(),
                n == self.traces@.len(),
                n == old(self).traces@.len(),
                n <= MAX_TRACES,
                *self == (TemplateApp { traces: self.traces, ..*old(self) }),
                zn == old(self).zoom_num,
                zd == old(self).zoom_den,
                1 <= zn,
                1 <= zd,
                0 <= dur,
                (dur as int) == spec_window_dur(old(self).rect, zn as int, zd as int),
                k <= n,
                bands.len() == k + 1,
                vb.len() == k,
                vs.len() == k,
                bands[0] == 0,
                bands[k as int] == last_y,
                0 <= last_y,
                k > 0 ==> last_y >= 1,
                last_y <= (k as int) * (TRACE_EXTENT_MAX + LANE_GAP),
                forall|j: int| 0 <= j <= k ==> 0 <= #[trigger] bands[j] <= bands[k as int],
                forall|j: int|
                    0 <= j < k ==> lane_virtual(
                        #[trigger] old(self).traces@[j],
                        vb[j],
                        vs[j],
                        old(self).curr_time as int,
                        zn as int,
                        zd as int,
                        dur as int,
                        bands[j],
                        bands[j + 1],
                    ),
                forall|j: int|
                    0 <= j < k ==> trace_core_eq(old(self).traces@[j], #[trigger] self.traces@[j]),
                forall|j: int|
                    0 <= j < k ==> (#[trigger] self.traces@[j]).on_screen_bio@ == vb[j]
                        && self.traces@[j].on_screen_syscall@ == vs[j],
                forall|j: int| 0 <= j < k ==> (#[trigger] self.traces@[j]).wf(),
                forall|j: int| k <= j < n ==> #[trigger] self.traces@[j] == old(self).traces@[j],
            decreases n - k,
        {
            let ghost t_pre = self.traces@[k as int];
            let ct = self.curr_time;
            self.traces[k].refresh_on_screen(ct, dur);
            let ghost t_ref = self.traces@[k as int];
            let ghost band_k = last_y as int;
            proof {
                assert((k as int) * (TRACE_EXTENT_MAX + LANE_GAP) <= (MAX_TRACES as int) * (
                TRACE_EXTENT_MAX + LANE_GAP)) by (nonlinear_arith)
                    requires
                        0 <= k as int <= MAX_TRACES as int,
                        TRACE_EXTENT_MAX + LANE_GAP > 0,
                ;
            }
            self.traces[k].layout(&mut last_y, ct, zn, zd);
            let ghost t_laid = self.traces@[k as int];
            last_y = last_y + LANE_GAP;
            proof {
                bands = bands.push(last_y as int);
                vb = vb.push(t_laid.on_screen_bio@);
                vs = vs.push(t_laid.on_screen_syscall@);
                let curr = old(self).curr_time as int;
                let wl = t_pre.win_lo(curr);
                let wh = t_pre.win_hi(curr, dur as int);
                // membership: layout kept the refreshed handles
                assert forall|i: int| 0 <= i < t_pre.nb() implies (has_bio_entry(
                    t_laid.on_screen_bio@,
                    i,
                ) <==> bio_in_window(#[trigger] t_pre.bio_list@[i], wl, wh)) by {
                    assert(has_bio_entry(t_ref.on_screen_bio@, i) <==> bio_in_window(
                        t_pre.bio_list@[i],
                        wl,
                        wh,
                    ));
                }
                assert forall|i: int| 0 <= i < t_pre.ns() implies (has_sys_entry(
                    t_laid.on_screen_syscall@,
                    i,
                ) <==> sys_in_window(#[trigger] t_pre.syscall_list@[i], wl, wh)) by {
                    assert(t_laid.on_screen_syscall@.len() == t_ref.on_screen_syscall@.len());
                    if has_sys_entry(t_laid.on_screen_syscall@, i) {
                        let j = choose|j: int|
                            0 <= j < t_laid.on_screen_syscall@.len() && ((#[trigger] t_laid.on_screen_syscall@[j]).0 as int) == i;
                        assert((t_ref.on_screen_syscall@[j].0 as int) == i);
                        assert(has_sys_entry(t_ref.on_screen_syscall@, i));
                    }
                    if has_sys_entry(t_ref.on_screen_syscall@, i) {
                        let j = choose|j: int|
                            0 <= j < t_ref.on_screen_syscall@.len() && ((#[trigger] t_ref.on_screen_syscall@[j]).0 as int) == i;
                        assert((t_laid.on_screen_syscall@[j].0 as int) == i);
                        assert(has_sys_entry(t_laid.on_screen_syscall@, i));
                    }
                    assert(has_sys_entry(t_ref.on_screen_syscall@, i) <==> sys_in_window(
                        t_pre.syscall_list@[i],
                        wl,
                        wh,
                    ));
                }
                assert(lane_virtual(
                    t_pre,
                    t_laid.on_screen_bio@,
                    t_laid.on_screen_syscall@,
                    curr,
                    zn as int,
                    zd as int,
                    dur as int,
                    band_k,
                    last_y as int,
                ));
                assert forall|j: int| 0 <= j <= k + 1 implies 0 <= #[trigger] bands[j] <= bands[k
                    + 1] by {
                    if j <= k {
                        assert(bands[j] <= bands[k as int]);
                    }
                }
                assert(last_y as int <= band_k + TRACE_EXTENT_MAX + LANE_GAP);
                assert((k as int + 1) * (TRACE_EXTENT_MAX + LANE_GAP) == (k as int) * (
                TRACE_EXTENT_MAX + LANE_GAP) + (TRACE_EXTENT_MAX + LANE_GAP)) by (nonlinear_arith);
            }
            k = k + 1;
        }
        let extent: i128 = last_y;
        let hh: i128 = self.rect.max_y - self.rect.min_y;
        let hclamp: i128 = if hh < 1000 {
            hh
        } else {
            1000
        };
        self.y_zoom_num = extent;
        self.y_zoom_den = hclamp;
        proof {
            assert((n as int) * (TRACE_EXTENT_MAX + LANE_GAP) <= (MAX_TRACES as int) * (
            TRACE_EXTENT_MAX + LANE_GAP)) by (nonlinear_arith)
                requires
                    0 <= n as int <= MAX_TRACES as int,
                    TRACE_EXTENT_MAX + LANE_GAP > 0,
            ;
        }
        let mut k: usize = 0;
        while k < n
            invariant
                old(self).wf(),
                n == self.traces@.len(),
                n == old(self).traces@.len(),
                n <= MAX_TRACES,
                *self == (TemplateApp {
                    traces: self.traces,
                    y_zoom_num: extent,
                    y_zoom_den: hclamp,
                    ..*old(self)
                }),
                zn == old(self).zoom_num,
                zd == old(self).zoom_den,
                (dur as int) == spec_window_dur(old(self).rect, zn as int, zd as int),
                (hclamp as int) == clamp_height(old(self).rect),
                0 <= hclamp <= HEIGHT_CAP,
                k <= n,
                bands.len() == n + 1,
                vb.len() == n,
                vs.len() == n,
                bands[0] == 0,
                bands[n as int] == extent,
                0 <= extent <= MAX_LAST_Y,
                n > 0 ==> extent >= 1,
                forall|j: int| 0 <= j <= n ==> 0 <= #[trigger] bands[j] <= bands[n as int],
                forall|j: int|
                    0 <= j < n ==> lane_virtual(
                        #[trigger] old(self).traces@[j],
                        vb[j],
                        vs[j],
                        old(self).curr_time as int,
                        zn as int,
                        zd as int,
                        dur as int,
                        bands[j],
                        bands[j + 1],
                    ),
                forall|j: int|
                    0 <= j < n ==> trace_core_eq(old(self).traces@[j], #[trigger] self.traces@[j]),
                forall|j: int| 0 <= j < n ==> (#[trigger] self.traces@[j]).wf(),
                forall|j: int|
                    k <= j < n ==> (#[trigger] self.traces@[j]).on_screen_bio@ == vb[j]
                        && self.traces@[j].on_screen_syscall@ == vs[j],
                forall|j: int|
                    0 <= j < k ==> compressed_bio(
                        (#[trigger] self.traces@[j]).on_screen_bio@,
                        vb[j],
                        hclamp as int,
                        extent as int,
                    ) && compressed_sys(
                        self.traces@[j].on_screen_syscall@,
                        vs[j],
                        hclamp as int,
                        extent as int,
                    ),
            decreases n - k,
        {
            proof {
                let kj = k as int;
                assert(lane_virtual(
                    old(self).traces@[kj],
                    vb[kj],
                    vs[kj],
                    old(self).curr_time as int,
                    zn as int,
                    zd as int,
                    dur as int,
                    bands[kj],
                    bands[kj + 1],
                ));
                assert(0 <= bands[kj] <= extent);
                assert forall|j: int| 0 <= j < self.traces@[kj].on_screen_bio@.len() implies (0 <= (
                #[trigger] self.traces@[kj].on_screen_bio@[j]).1.rect.min_y <= self.traces@[
                kj].on_screen_bio@[j].1.rect.max_y <= MAX_LAST_Y + TRACE_EXTENT_MAX) by {
                    assert(self.traces@[kj].on_screen_bio@[j] == vb[kj][j]);
                    assert(bands[kj] <= vb[kj][j].1.rect.min_y);
                    assert(vb[kj][j].1.rect.max_y <= bands[kj] + TRACE_EXTENT_MAX);
                    assert(vb[kj][j].1.rect.max_y == vb[kj][j].1.rect.min_y
                        + crate::layout::bio_height(vb[kj][j].1.bio));
                }
                assert forall|j: int| 0 <= j < self.traces@[kj].on_screen_syscall@.len() implies (0
                    <= (#[trigger] self.traces@[kj].on_screen_syscall@[j]).1.rect.min_y
                    <= self.traces@[kj].on_screen_syscall@[j].1.rect.max_y <= MAX_LAST_Y
                    + TRACE_EXTENT_MAX) by {
                    assert(self.traces@[kj].on_screen_syscall@[j] == vs[kj][j]);
                }
            }
            compress_lane(&mut self.traces[k], hclamp, extent);
            k = k + 1;
        }
        proof {
            assert(app_lanes(*old(self), *self, bands, vb, vs));
        }
    }
}

/// Compresses one trace's cached rectangles vertically by `h / e`.
fn compress_lane(t: &mut Trace, h: i128, e: i128)
    requires
        old(t).wf(),
        1 <= e <= MAX_LAST_Y,
        0 <= h <= HEIGHT_CAP,
        forall|k: int|
            0 <= k < old(t).on_screen_bio@.len() ==> (0 <= (#[trigger] old(t).on_screen_bio@[
            k]).1.rect.min_y <= old(t).on_screen_bio@[k].1.rect.max_y <= MAX_LAST_Y
                + TRACE_EXTENT_MAX),
        forall|k: int|
            0 <= k < old(t).on_screen_syscall@.len() ==> (0 <= (#[trigger] old(
                t,
            ).on_screen_syscall@[k]).1.rect.min_y <= old(t).on_screen_syscall@[k].1.rect.max_y
                <= MAX_LAST_Y + TRACE_EXTENT_MAX),
    ensures
        final(t).wf(),
        trace_core_eq(*old(t), *final(t)),
        compressed_bio(final(t).on_screen_bio@, old(t).on_screen_bio@, h as int, e as int),
        compressed_sys(final(t).on_screen_syscall@, old(t).on_screen_syscall@, h as int, e as int),
{
    let ghost b0 = t.on_screen_bio@;
    let ghost s0 = t.on_screen_syscall@;
    let nbio = t.on_screen_bio.len();
    let mut k: usize = 0;
    while k < nbio
        invariant
            *t == (Trace { on_screen_bio: t.on_screen_bio, ..*old(t) }),
            old(t).wf(),
            1 <= e <= MAX_LAST_Y,
            0 <= h <= HEIGHT_CAP,
            b0 == old(t).on_screen_bio@,
            nbio == b0.len(),
            t.on_screen_bio@.len() == b0.len(),
            k <= nbio,
            forall|j: int|
                0 <= j < b0.len() ==> (0 <= (#[trigger] b0[j]).1.rect.min_y <= b0[j].1.rect.max_y
                    <= MAX_LAST_Y + TRACE_EXTENT_MAX),
            forall|j: int| k <= j < nbio ==> #[trigger] t.on_screen_bio@[j] == b0[j],
            forall|j: int|
                0 <= j < k ==> #[trigger] t.on_screen_bio@[j] == (
                b0[j].0,
                OnScreenBio { bio: b0[j].1.bio, rect: compress_rect(b0[j].1.rect, h as int, e as int) },
                ),
        decreases nbio - k,
    {
        let entry = t.on_screen_bio[k];
        let r = entry.1.rect;
        proof {
            assert(0 <= r.min_y * h <= (MAX_LAST_Y + TRACE_EXTENT_MAX) * HEIGHT_CAP
                && 0 <= r.max_y * h <= (MAX_LAST_Y + TRACE_EXTENT_MAX) * HEIGHT_CAP)
                by (nonlinear_arith)
                requires
                    0 <= r.min_y <= r.max_y <= MAX_LAST_Y + TRACE_EXTENT_MAX,
                    0 <= h <= HEIGHT_CAP,
                    HEIGHT_CAP == 1000,
            ;
        }
        let new_rect = ScreenRect {
            min_x: r.min_x,
            min_y: crate::viewport::div_trunc_i128(r.min_y * h, e),
            max_x: r.max_x,
            max_y: crate::viewport::div_trunc_i128(r.max_y * h, e),
        };
        t.on_screen_bio[k] = (entry.0, OnScreenBio { bio: entry.1.bio, rect: new_rect });
        k = k + 1;
    }
    let nsys = t.on_screen_syscall.len();
    let mut k: usize = 0;
    while k < nsys
        invariant
            *t == (Trace {
                on_screen_bio: t.on_screen_bio,
                on_screen_syscall: t.on_screen_syscall,
                ..*old(t)
            }),
            old(t).wf(),
            1 <= e <= MAX_LAST_Y,
            0 <= h <= HEIGHT_CAP,
            s0 == old(t).on_screen_syscall@,
            compressed_bio(t.on_screen_bio@, old(t).on_screen_bio@, h as int, e as int),
            nsys == s0.len(),
            t.on_screen_syscall@.len() == s0.len(),
            k <= nsys,
            forall|j: int|
                0 <= j < s0.len() ==> (0 <= (#[trigger] s0[j]).1.rect.min_y <= s0[j].1.rect.max_y
                    <= MAX_LAST_Y + TRACE_EXTENT_MAX),
            forall|j: int| k <= j < nsys ==> #[trigger] t.on_screen_syscall@[j] == s0[j],
            forall|j: int|
                0 <= j < k ==> #[trigger] t.on_screen_syscall@[j] == (
                s0[j].0,
                OnScreenSyscall {
                    syscall: s0[j].1.syscall,
                    rect: compress_rect(s0[j].1.rect, h as int, e as int),
                },
                ),
        decreases nsys - k,
    {
        let entry = t.on_screen_syscall[k];
        let r = entry.1.rect;
        proof {
            assert(0 <= r.min_y * h <= (MAX_LAST_Y + TRACE_EXTENT_MAX) * HEIGHT_CAP
                && 0 <= r.max_y * h <= (MAX_LAST_Y + TRACE_EXTENT_MAX) * HEIGHT_CAP)
                by (nonlinear_arith)
                requires
                    0 <= r.min_y <= r.max_y <= MAX_LAST_Y + TRACE_EXTENT_MAX,
                    0 <= h <= HEIGHT_CAP,
                    HEIGHT_CAP == 1000,
            ;
        }
        let new_rect = ScreenRect {
            min_x: r.min_x,
            min_y: crate::viewport::div_trunc_i128(r.min_y * h, e),
            max_x: r.max_x,
            max_y: crate::viewport::div_trunc_i128(r.max_y * h, e),
        };
        t.on_screen_syscall[k] = (entry.0, OnScreenSyscall { syscall: entry.1.syscall, rect: new_rect });
        k = k + 1;
    }
    proof {
        assert forall|j: int| 0 <= j < t.on_screen_bio@.len() implies bio_entry_ok(
            #[trigger] t.on_screen_bio@[j],
            t.bio_list@,
        ) by {
            assert(bio_entry_ok(b0[j], old(t).bio_list@));
        }
        assert forall|j: int| 0 <= j < t.on_screen_syscall@.len() implies sys_entry_ok(
            #[trigger] t.on_screen_syscall@[j],
            t.syscall_list@,
        ) by {
            assert(sys_entry_ok(s0[j], old(t).syscall_list@));
        }
        assert forall|j: int| 0 <= j < t.on_screen_bio@.len() implies crate::layout::entry_core(
            #[trigger] t.on_screen_bio@[j],
        ) == crate::layout::entry_core(b0[j]) by {}
        lemma_sum_entry_pointwise(t.on_screen_bio@, b0);
    }
}

/// The time under canvas-relative pixel `p`, multiplied by `zn` to stay
/// in integers: the window's left-edge time plus `p` pixels converted to
/// nanoseconds at `zn / zd` pixels per nanosecond.
pub open spec fn time_under_num(curr: int, zn: int, zd: int, p: int) -> int {
    curr * zn + p * zd
}

/// Whether a zoom factor can be applied: the products, reduced by their
/// greatest common divisor, still fit the 32-bit zoom components.
pub open spec fn zoom_fits(zn: int, zd: int, fnum: int, fden: int) -> bool {
    let p = (zn * fnum) as nat;
    let q = (zd * fden) as nat;
    let g = spec_gcd(p, q);
    p / g <= u32::MAX && q / g <= u32::MAX
}

/// The reduced zoom numerator after applying a factor.
pub open spec fn zoomed_num(zn: int, zd: int, fnum: int, fden: int) -> int {
    let p = (zn * fnum) as nat;
    let q = (zd * fden) as nat;
    (p / spec_gcd(p, q)) as int
}

/// The reduced zoom denominator after applying a factor.
pub open spec fn zoomed_den(zn: int, zd: int, fnum: int, fden: int) -> int {
    let p = (zn * fnum) as nat;
    let q = (zd * fden) as nat;
    (q / spec_gcd(p, q)) as int
}

/// The time delta of an anchored zoom: the anchor's pixel offset scaled
/// by the factor's excess over one, converted at the new zoom, truncated.
pub open spec fn zoom_at_delta(p: int, zn: int, zd: int, fnum: int, fden: int) -> int {
    div_trunc(p * (fnum - fden) * zd, zn * fnum)
}

impl TemplateApp {
    /// Pans the window by a pixel delta, positive forward in time: the
    /// delta is converted to nanoseconds at the current zoom and added to
    /// the window's origin, then the canvas is laid out again.
    pub fn scroll(&mut self, delta: i64)
        requires
            old(self).wf(),
            i64::MIN <= old(self).curr_time + time_delta_of_px(
                delta as int,
                old(self).zoom_num as int,
                old(self).zoom_den as int,
            ) <= i64::MAX,
        ensures
            final(self).wf(),
            final(self).curr_time == old(self).curr_time + time_delta_of_px(
                delta as int,
                old(self).zoom_num as int,
                old(self).zoom_den as int,
            ),
            app_laid(
                (TemplateApp { curr_time: final(self).curr_time, ..*old(self) }),
                *final(self),
            ),
    {
        let dt = px_to_time_delta(delta, self.zoom_num, self.zoom_den);
        let nt: i128 = (self.curr_time as i128) + dt;
        self.curr_time = nt as i64;
        self.layout();
    }

    /// `scroll`, refusing instead of requiring: `false` and no change
    /// when the new origin would not fit a timestamp.
    pub fn try_scroll(&mut self, delta: i64) -> (ok: bool)
        requires
            old(self).wf(),
        ensures
            final(self).wf(),
            ok == (i64::MIN <= old(self).curr_time + time_delta_of_px(
                delta as int,
                old(self).zoom_num as int,
                old(self).zoom_den as int,
            ) <= i64::MAX),
            ok ==> final(self).curr_time == old(self).curr_time + time_delta_of_px(
                delta as int,
                old(self).zoom_num as int,
                old(self).zoom_den as int,
            ) && app_laid(
                (TemplateApp { curr_time: final(self).curr_time, ..*old(self) }),
                *final(self),
            ),
            !ok ==> *final(self) == *old(self),
    {
        let dt = px_to_time_delta(delta, self.zoom_num, self.zoom_den);
        let nt: i128 = (self.curr_time as i128) + dt;
        if nt < -0x8000_0000_0000_0000i128 || nt > 0x7fff_ffff_ffff_ffffi128 {
            return false;
        }
        self.scroll(delta);
        true
    }

    /// Jumps the window's origin to an absolute display time.
    pub fn scroll_to(&mut self, time: i64)
        requires
            old(self).wf(),
        ensures
            final(self).wf(),
            final(self).curr_time == time,
            app_laid((TemplateApp { curr_time: time, ..*old(self) }), *final(self)),
    {
        self.curr_time = time;
        self.layout();
    }

    /// Multiplies the zoom by the factor `fnum / fden` exactly, keeping
    /// the rational reduced, and lays the canvas out again.  A factor
    /// above one zooms in.
    pub fn change_zoom(&mut self, fnum: u32, fden: u32)
        requires
            old(self).wf(),
            1 <= fnum,
            1 <= fden,
            zoom_fits(
                old(self).zoom_num as int,
                old(self).zoom_den as int,
                fnum as int,
                fden as int,
            ),
        ensures
            final(self).wf(),
            final(self).zoom_num == zoomed_num(
                old(self).zoom_num as int,
                old(self).zoom_den as int,
                fnum as int,
                fden as int,
            ),
            final(self).zoom_den == zoomed_den(
                old(self).zoom_num as int,
                old(self).zoom_den as int,
                fnum as int,
                fden as int,
            ),
            final(self).zoom_num * (old(self).zoom_den * fden) == final(self).zoom_den * (old(
                self,
            ).zoom_num * fnum),
            app_laid(
                (TemplateApp {
                    zoom_num: final(self).zoom_num,
                    zoom_den: final(self).zoom_den,
                    ..*old(self)
                }),
                *final(self),
            ),
    {
        let (rn, rd) = reduce_zoom(self.zoom_num, self.zoom_den, fnum, fden);
        self.zoom_num = rn;
        self.zoom_den = rd;
        self.layout();
    }

    /// `change_zoom`, refusing instead of requiring: `false` and no
    /// change when the reduced product does not fit the zoom components.
    pub fn try_change_zoom(&mut self, fnum: u32, fden: u32) -> (ok: bool)
        requires
            old(self).wf(),
            1 <= fnum,
            1 <= fden,
        ensures
            final(self).wf(),
            ok == zoom_fits(
                old(self).zoom_num as int,
                old(self).zoom_den as int,
                fnum as int,
                fden as int,
            ),
            ok ==> final(self).zoom_num == zoomed_num(
                old(self).zoom_num as int,
                old(self).zoom_den as int,
                fnum as int,
                fden as int,
            ) && final(self).zoom_den == zoomed_den(
                old(self).zoom_num as int,
                old(self).zoom_den as int,
                fnum as int,
                fden as int,
            ) && app_laid(
                (TemplateApp {
                    zoom_num: final(self).zoom_num,
                    zoom_den: final(self).zoom_den,
                    ..*old(self)
                }),
                *final(self),
            ),
            !ok ==> *final(self) == *old(self),
    {
        let zn0 = self.zoom_num;
        let zd0 = self.zoom_den;
        proof {
            assert(1 <= (zn0 as int) * (fnum as int) < 0x1_0000_0000_0000_0000 && 1 <= (
            zd0 as int) * (fden as int) < 0x1_0000_0000_0000_0000) by (nonlinear_arith)
                requires
                    1 <= (zn0 as int) < 0x1_0000_0000,
                    1 <= (fnum as int) < 0x1_0000_0000,
                    1 <= (zd0 as int) < 0x1_0000_0000,
                    1 <= (fden as int) < 0x1_0000_0000,
            ;
        }
        let p: u64 = (self.zoom_num as u64) * (fnum as u64);
        let q: u64 = (self.zoom_den as u64) * (fden as u64);
        let g = gcd_u64(p, q);
        let rn = p / g;
        let rd = q / g;
        if rn > 0xffff_ffffu64 || rd > 0xffff_ffffu64 {
            return false;
        }
        self.change_zoom(fnum, fden);
        true
    }

    /// Updates the canvas rectangle, laying out again only when the
    /// rectangle actually changed; refuses one that is not a drawable
    /// canvas.
    pub fn set_rect(&mut self, rect: ScreenRect) -> (ok: bool)
        requires
            old(self).wf(),
        ensures
            final(self).wf(),
            ok == rect.canvas_wf(),
            !ok ==> *final(self) == *old(self),
            (ok && rect == old(self).rect) ==> *final(self) == *old(self),
            (ok && rect != old(self).rect) ==> final(self).rect == rect && app_laid(
                (TemplateApp { rect, ..*old(self) }),
                *final(self),
            ),
    {
        if !rect.is_canvas() {
            return false;
        }
        if self.rect == rect {
            return true;
        }
        self.rect = rect;
        self.layout();
        true
    }

    /// Hit-tests a click at canvas-local coordinates against every
    /// trace's on-screen rectangles; within each trace the last matching
    /// entry of the cache wins, and a trace without a hit keeps its
    /// selection.
    pub fn select(&mut self, x: i128, y: i128)
        requires
            old(self).wf(),
        ensures
            final(self).wf(),
            *final(self) == (TemplateApp { traces: final(self).traces, ..*old(self) }),
            final(self).traces@.len() == old(self).traces@.len(),
            forall|k: int|
                0 <= k < old(self).traces@.len() ==> #[trigger] final(self).traces@[k] == (Trace {
                    selected_bio: (match crate::store::last_bio_hit(
                        old(self).traces@[k].on_screen_bio@,
                        x as int,
                        y as int,
                    ) {
                        Some(h) => Some(h),
                        None => old(self).traces@[k].selected_bio,
                    }),
                    selected_syscall: (match crate::store::last_sys_hit(
                        old(self).traces@[k].on_screen_syscall@,
                        x as int,
                        y as int,
                    ) {
                        Some(h) => Some(h),
                        None => old(self).traces@[k].selected_syscall,
                    }),
                    ..old(self).traces@[k]
                }),
    {
        let n = self.traces.len();
        let mut k: usize = 0;
        while k < n
            invariant
                old(self).wf(),
                n == self.traces@.len(),
                n == old(self).traces@.len(),
                k <= n,
                *self == (TemplateApp { traces: self.traces, ..*old(self) }),
                forall|j: int| k <= j < n ==> #[trigger] self.traces@[j] == old(self).traces@[j],
                forall|j: int|
                    0 <= j < k ==> #[trigger] self.traces@[j] == (Trace {
                        selected_bio: (match crate::store::last_bio_hit(
                            old(self).traces@[j].on_screen_bio@,
                            x as int,
                            y as int,
                        ) {
                            Some(h) => Some(h),
                            None => old(self).traces@[j].selected_bio,
                        }),
                        selected_syscall: (match crate::store::last_sys_hit(
                            old(self).traces@[j].on_screen_syscall@,
                            x as int,
                            y as int,
                        ) {
                            Some(h) => Some(h),
                            None => old(self).traces@[j].selected_syscall,
                        }),
                        ..old(self).traces@[j]
                    }),
                forall|j: int| 0 <= j < n ==> (#[trigger] self.traces@[j]).wf(),
            decreases n - k,
        {
            self.traces[k].select_at(x, y);
            k = k + 1;
        }
    }
}

/// Multiplies two zoom rationals and reduces the product by its greatest
/// common divisor.
fn reduce_zoom(zn: u32, zd: u32, fnum: u32, fden: u32) -> (r: (u32, u32))
    requires
        1 <= zn,
        1 <= zd,
        1 <= fnum,
        1 <= fden,
        zoom_fits(zn as int, zd as int, fnum as int, fden as int),
    ensures
        r.0 == zoomed_num(zn as int, zd as int, fnum as int, fden as int),
        r.1 == zoomed_den(zn as int, zd as int, fnum as int, fden as int),
        1 <= r.0,
        1 <= r.1,
        r.0 * (zd * fden) == r.1 * (zn * fnum),
{
    proof {
        assert(1 <= (zn as int) * (fnum as int) < 0x1_0000_0000_0000_0000
            && 1 <= (zd as int) * (fden as int) < 0x1_0000_0000_0000_0000) by (nonlinear_arith)
            requires
                1 <= (zn as int) < 0x1_0000_0000,
                1 <= (fnum as int) < 0x1_0000_0000,
                1 <= (zd as int) < 0x1_0000_0000,
                1 <= (fden as int) < 0x1_0000_0000,
        ;
    }
    let p: u64 = (zn as u64) * (fnum as u64);
    let q: u64 = (zd as u64) * (fden as u64);
    let g = gcd_u64(p, q);
    let rn64 = p / g;
    let rd64 = q / g;
    proof {
        lemma_fundamental_div_mod(p as int, g as int);
        lemma_fundamental_div_mod(q as int, g as int);
        assert(p as int == (g as int) * (rn64 as int));
        assert(q as int == (g as int) * (rd64 as int));
        assert((rn64 as int) * (q as int) == (rd64 as int) * (p as int)) by (nonlinear_arith)
            requires
                p as int == (g as int) * (rn64 as int),
                q as int == (g as int) * (rd64 as int),
        ;
        assert(rn64 as int >= 1 && rd64 as int >= 1) by (nonlinear_arith)
            requires
                p as int == (g as int) * (rn64 as int),
                q as int == (g as int) * (rd64 as int),
                p as int >= 1,
                q as int >= 1,
                g as int >= 1,
        ;
    }
    (rn64 as u32, rd64 as u32)
}

impl TemplateApp {
    /// Zooms while holding the time under the anchor fixed on screen:
    /// the zoom is multiplied first, and the window then scrolls by the
    /// anchor's pre-zoom pixel offset times the factor's excess over one,
    /// converted at the new zoom.  The anchored timestamp therefore maps
    /// back to the anchor to within one nanosecond, the single truncation
    /// the conversion performs: the trace time under the anchor before
    /// and after differ by less than one (stated below with the two
    /// rational times cross-multiplied).  Without an anchor this is
    /// `change_zoom`.
    #[verifier::rlimit(100)]
    pub fn zoom_at(&mut self, fnum: u32, fden: u32, pos: Option<i64>)
        requires
            old(self).wf(),
            1 <= fnum,
            1 <= fden,
            zoom_fits(
                old(self).zoom_num as int,
                old(self).zoom_den as int,
                fnum as int,
                fden as int,
            ),
            match pos {
                Some(px) => {
                    &&& -MAX_CANVAS <= px as int <= MAX_CANVAS
                    &&& i64::MIN <= old(self).curr_time + zoom_at_delta(
                        px - old(self).rect.min_x,
                        old(self).zoom_num as int,
                        old(self).zoom_den as int,
                        fnum as int,
                        fden as int,
                    ) <= i64::MAX
                },
                None => true,
            },
        ensures
            final(self).wf(),
            final(self).zoom_num == zoomed_num(
                old(self).zoom_num as int,
                old(self).zoom_den as int,
                fnum as int,
                fden as int,
            ),
            final(self).zoom_den == zoomed_den(
                old(self).zoom_num as int,
                old(self).zoom_den as int,
                fnum as int,
                fden as int,
            ),
            match pos {
                Some(px) => final(self).curr_time == old(self).curr_time + zoom_at_delta(
                    px - old(self).rect.min_x,
                    old(self).zoom_num as int,
                    old(self).zoom_den as int,
                    fnum as int,
                    fden as int,
                ),
                None => final(self).curr_time == old(self).curr_time,
            },
            (pos is Some) ==> ({
                let p = pos->0 - old(self).rect.min_x;
                let tb = time_under_num(
                    old(self).curr_time as int,
                    old(self).zoom_num as int,
                    old(self).zoom_den as int,
                    p as int,
                );
                let ta = time_under_num(
                    final(self).curr_time as int,
                    final(self).zoom_num as int,
                    final(self).zoom_den as int,
                    p as int,
                );
                -((old(self).zoom_num as int) * (final(self).zoom_num as int)) < ta * (old(
                    self,
                ).zoom_num as int) - tb * (final(self).zoom_num as int) < (old(
                    self,
                ).zoom_num as int) * (final(self).zoom_num as int)
            }),
            app_laid(
                (TemplateApp {
                    zoom_num: final(self).zoom_num,
                    zoom_den: final(self).zoom_den,
                    curr_time: final(self).curr_time,
                    ..*old(self)
                }),
                *final(self),
            ),
    {
        match pos {
            None => {
                self.change_zoom(fnum, fden);
            },
            Some(px) => {
                let zn0 = self.zoom_num;
                let zd0 = self.zoom_den;
                let ct0 = self.curr_time;
                let (rn, rd) = reduce_zoom(zn0, zd0, fnum, fden);
                let p_rel: i128 = (px as i128) - self.rect.min_x;
                let fdiff: i128 = (fnum as i128) - (fden as i128);
                proof {
                    assert(-(0x4_0000_0000_0000_0000int) < (p_rel as int) * (fdiff as int)
                        < 0x4_0000_0000_0000_0000int) by (nonlinear_arith)
                        requires
                            -0x2_0000_0000 <= (p_rel as int) <= 0x2_0000_0000,
                            -0x1_0000_0000 < (fdiff as int) < 0x1_0000_0000,
                    ;
                    assert(-(0x4_0000_0000_0000_0000_0000_0000int)
                        < ((p_rel as int) * (fdiff as int)) * (zd0 as int)
                        < 0x4_0000_0000_0000_0000_0000_0000int) by (nonlinear_arith)
                        requires
                            -0x4_0000_0000_0000_0000 < (p_rel as int) * (fdiff as int)
                                < 0x4_0000_0000_0000_0000,
                            0 <= (zd0 as int) < 0x1_0000_0000,
                    ;
                    assert(1 <= (zn0 as int) * (fnum as int) < 0x1_0000_0000_0000_0000)
                        by (nonlinear_arith)
                        requires
                            1 <= (zn0 as int) < 0x1_0000_0000,
                            1 <= (fnum as int) < 0x1_0000_0000,
                    ;
                }
                let num: i128 = p_rel * fdiff * (zd0 as i128);
                let den: i128 = (zn0 as i128) * (fnum as i128);
                proof {
                    crate::viewport::lemma_div_trunc_in_range(num as int, den as int);
                }
                let dtv: i128 = crate::viewport::div_trunc_i128(num, den);
                let nt: i128 = (ct0 as i128) + dtv;
                self.zoom_num = rn;
                self.zoom_den = rd;
                self.curr_time = nt as i64;
                self.layout();
                proof {
                    let p = p_rel as int;
                    let znb = zn0 as int;
                    let zdb = zd0 as int;
                    let fnv = fnum as int;
                    let fdv = fden as int;
                    let zna = rn as int;
                    let zda = rd as int;
                    let d = dtv as int;
                    let x0 = p * (fnv - fdv) * zdb;
                    let y0 = znb * fnv;
                    assert(d == div_trunc(x0, y0));
                    crate::viewport::lemma_div_trunc_close(x0, y0);
                    let curr_b = ct0 as int;
                    let tb = time_under_num(curr_b, znb, zdb, p);
                    let ta = time_under_num(curr_b + d, zna, zda, p);
                    assert(zna * (zdb * fdv) == zda * (znb * fnv));
                    assert(ta * znb - tb * zna == d * (zna * znb) + p * (zda * znb - zdb * zna))
                        by (nonlinear_arith)
                        requires
                            ta == (curr_b + d) * zna + p * zda,
                            tb == curr_b * znb + p * zdb,
                    ;
                    assert((zda * znb - zdb * zna) * fnv == -(zna * (zdb * (fnv - fdv))))
                        by (nonlinear_arith)
                        requires
                            zna * (zdb * fdv) == zda * (znb * fnv),
                    ;
                    let xx = ta * znb - tb * zna;
                    let m = zda * znb - zdb * zna;
                    assert(xx * fnv == d * (zna * znb) * fnv + p * (m * fnv)) by (nonlinear_arith)
                        requires
                            xx == d * (zna * znb) + p * m,
                    ;
                    assert(d * (zna * znb) * fnv == zna * (d * y0)) by (nonlinear_arith)
                        requires
                            y0 == znb * fnv,
                    ;
                    assert(p * (m * fnv) == -(zna * x0)) by (nonlinear_arith)
                        requires
                            m * fnv == -(zna * (zdb * (fnv - fdv))),
                            x0 == p * (fnv - fdv) * zdb,
                    ;
                    assert(zna * (d * y0) - zna * x0 == zna * (d * y0 - x0)) by (nonlinear_arith);
                    assert((ta * znb - tb * zna) * fnv == zna * (d * y0 - x0));
                    assert(-y0 < d * y0 - x0 < y0);
                    assert(-(zna * y0) < zna * (d * y0 - x0) < zna * y0) by (nonlinear_arith)
                        requires
                            1 <= zna,
                            -y0 < d * y0 - x0 < y0,
                    ;
                    assert(-(zna * znb) < ta * znb - tb * zna < zna * znb) by (nonlinear_arith)
                        requires
                            (ta * znb - tb * zna) * fnv == zna * (d * y0 - x0),
                            -(zna * y0) < zna * (d * y0 - x0) < zna * y0,
                            y0 == znb * fnv,
                            1 <= fnv,
                            1 <= zna,
                            1 <= znb,
                    ;
                }
            },
        }
    }
}

} // verus!
