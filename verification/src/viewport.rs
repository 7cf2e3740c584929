//! Screen geometry and the arithmetic of the time axis.
//!
//! The zoom factor (screen pixels per nanosecond) is an exact rational
//! `zoom_num / zoom_den` with positive 32-bit components, and every screen
//! coordinate is an integer pixel value, so each conversion between trace
//! time and screen x is a single multiplication followed by one truncating
//! division.

use vstd::prelude::*;

verus! {

use vstd::arithmetic::div_mod::{
    lemma_fundamental_div_mod,
    lemma_div_pos_is_pos,
    lemma_div_nonincreasing,
    lemma_mod_self_0,
    lemma_mod_multiples_basic,
    lemma_mod_division_less_than_divisor,
};

/// Bound on the coordinates of the drawable canvas rectangle.
pub const MAX_CANVAS: i128 = 4294967296;

/// Bound on the absolute times the conversions accept: large enough for
/// any `i64` timestamp shifted by any `i64` time origin.
pub const MAX_ABS_TIME: i128 = 36893488147419103232;

/// A rectangle in screen space, as integer pixel coordinates; `min` is the
/// top-left corner and `max` the bottom-right one.
#[derive(Debug, Clone, Copy, PartialEq, Eq, Structural)]
pub struct ScreenRect {
    pub min_x: i128,
    pub min_y: i128,
    pub max_x: i128,
    pub max_y: i128,
}

impl ScreenRect {
    /// A point is inside the rectangle when it lies within both closed
    /// coordinate ranges.
    pub open spec fn spec_contains(self, x: int, y: int) -> bool {
        self.min_x <= x <= self.max_x && self.min_y <= y <= self.max_y
    }

    pub fn contains(&self, x: i128, y: i128) -> (r: bool)
        ensures
            r == self.spec_contains(x as int, y as int),
    {
        self.min_x <= x && x <= self.max_x && self.min_y <= y && y <= self.max_y
    }

    pub open spec fn spec_width(self) -> int {
        self.max_x - self.min_x
    }

    pub open spec fn spec_height(self) -> int {
        self.max_y - self.min_y
    }

    /// The sentinel value of a rectangle not laid out yet: empty, so that
    /// it contains no point.
    pub open spec fn spec_nothing() -> ScreenRect {
        ScreenRect { min_x: 0, min_y: 0, max_x: -1 as i128, max_y: -1 as i128 }
    }

    pub fn nothing() -> (r: ScreenRect)
        ensures
            r == Self::spec_nothing(),
            forall|x: int, y: int| !r.spec_contains(x, y),
    {
        ScreenRect { min_x: 0, min_y: 0, max_x: -1, max_y: -1 }
    }

    /// A drawable canvas rectangle: non-empty extents within the canvas
    /// coordinate bound.
    pub open spec fn canvas_wf(self) -> bool {
        &&& -MAX_CANVAS <= self.min_x <= self.max_x <= MAX_CANVAS
        &&& -MAX_CANVAS <= self.min_y <= self.max_y <= MAX_CANVAS
    }

    /// Whether the rectangle is accepted as a drawable canvas.
    pub fn is_canvas(&self) -> (r: bool)
        ensures
            r == self.canvas_wf(),
    {
        -MAX_CANVAS <= self.min_x && self.min_x <= self.max_x && self.max_x <= MAX_CANVAS
            && -MAX_CANVAS <= self.min_y && self.min_y <= self.max_y && self.max_y <= MAX_CANVAS
    }
}

/// Division with the quotient rounded toward zero, as Rust's `/` computes
/// it on machine integers; meaningful for a positive divisor.
pub open spec fn div_trunc(a: int, b: int) -> int {
    if a >= 0 {
        a / b
    } else {
        -((-a) / b)
    }
}

/// The truncated quotient differs from the exact one by less than one:
/// `div_trunc(a, b) * b` lies within an open `b`-neighbourhood of `a`.
pub proof fn lemma_div_trunc_close(a: int, b: int)
    requires
        1 <= b,
    ensures
        a - b < div_trunc(a, b) * b < a + b,
{
    if a >= 0 {
        lemma_fundamental_div_mod(a, b);
        lemma_mod_division_less_than_divisor(a, b);
        assert(div_trunc(a, b) * b == b * (a / b)) by (nonlinear_arith)
            requires
                div_trunc(a, b) == a / b,
        ;
    } else {
        lemma_fundamental_div_mod(-a, b);
        lemma_mod_division_less_than_divisor(-a, b);
        assert(div_trunc(a, b) * b == -(b * ((-a) / b))) by (nonlinear_arith)
            requires
                div_trunc(a, b) == -((-a) / b),
        ;
    }
}

/// Truncating division on `i128`, defined for a positive divisor.
pub fn div_trunc_i128(a: i128, b: i128) -> (r: i128)
    requires
        1 <= b,
    ensures
        r == div_trunc(a as int, b as int),
{
    proof {
        if a >= 0 {
            lemma_div_pos_is_pos(a as int, b as int);
            lemma_div_nonincreasing(a as int, b as int);
        } else {
            lemma_div_pos_is_pos(-(a as int), b as int);
            lemma_div_nonincreasing(-(a as int), b as int);
        }
    }
    match a.checked_div(b) {
        Some(q) => q,
        None => 0,
    }
}

/// Greatest common divisor by Euclid's algorithm.
pub open spec fn spec_gcd(a: nat, b: nat) -> nat
    decreases b,
{
    if b == 0 {
        a
    } else {
        spec_gcd(b, a % b)
    }
}

/// The gcd of a positive number with any other is positive and divides
/// both arguments.
pub proof fn lemma_gcd_divides(a: nat, b: nat)
    requires
        1 <= a,
    ensures
        1 <= spec_gcd(a, b),
        a % spec_gcd(a, b) == 0,
        b % spec_gcd(a, b) == 0,
    decreases b,
{
    let g = spec_gcd(a, b);
    if b == 0 {
        lemma_mod_self_0(a as int);
        assert(0int % (a as int) == 0) by {
            lemma_mod_multiples_basic(0, a as int);
        }
    } else {
        lemma_gcd_divides(b, a % b);
        let q = a as int / b as int;
        let r = (a % b) as int;
        lemma_fundamental_div_mod(a as int, b as int);
        // b and r are multiples of g, hence so is a = b * q + r.
        lemma_fundamental_div_mod(b as int, g as int);
        lemma_fundamental_div_mod(r, g as int);
        let kb = b as int / g as int;
        let kr = r / g as int;
        assert(a as int == g as int * (kb * q + kr)) by (nonlinear_arith)
            requires
                a as int == b as int * q + r,
                b as int == g as int * kb,
                r == g as int * kr,
        ;
        lemma_mod_multiples_basic(kb * q + kr, g as int);
    }
}

/// Euclid's algorithm on `u64`.
pub fn gcd_u64(a: u64, b: u64) -> (g: u64)
    requires
        1 <= a,
    ensures
        g == spec_gcd(a as nat, b as nat),
        1 <= g,
        a % g == 0,
        b % g == 0,
{
    let mut x = a;
    let mut y = b;
    while y != 0
        invariant
            1 <= x,
            spec_gcd(x as nat, y as nat) == spec_gcd(a as nat, b as nat),
        decreases y,
    {
        let r = x % y;
        x = y;
        y = r;
    }
    proof {
        lemma_gcd_divides(a as nat, b as nat);
    }
    x
}

/// The x-coordinate of an absolute time under the given view: the signed
/// distance from the left window edge, scaled by the zoom factor.
pub open spec fn x_of_time(t: int, curr: int, zn: int, zd: int) -> int {
    div_trunc((t - curr) * zn, zd)
}

pub fn time_to_x(t: i64, curr: i128, zn: u32, zd: u32) -> (x: i128)
    requires
        -MAX_ABS_TIME <= curr <= MAX_ABS_TIME,
        1 <= zd,
    ensures
        x == x_of_time(t as int, curr as int, zn as int, zd as int),
        -(2 * MAX_ABS_TIME * 0x1_0000_0000) <= x <= 2 * MAX_ABS_TIME * 0x1_0000_0000,
{
    proof {
        assert((t as int - curr as int) * (zn as int) <= MAX_ABS_TIME * 2 * 0x1_0000_0000
            && (t as int - curr as int) * (zn as int) >= -(MAX_ABS_TIME * 2 * 0x1_0000_0000))
            by (nonlinear_arith)
            requires
                -MAX_ABS_TIME - 0x8000_0000_0000_0000 <= t as int - curr as int
                    <= MAX_ABS_TIME + 0x8000_0000_0000_0000,
                0 <= (zn as int) < 0x1_0000_0000,
                MAX_ABS_TIME == 36893488147419103232,
        ;
    }
    let dt: i128 = (t as i128) - curr;
    let num: i128 = dt * (zn as i128);
    proof {
        lemma_div_trunc_in_range(num as int, zd as int);
    }
    div_trunc_i128(num, zd as i128)
}

/// The truncated quotient never exceeds the dividend in magnitude.
pub proof fn lemma_div_trunc_in_range(a: int, b: int)
    requires
        1 <= b,
    ensures
        a >= 0 ==> 0 <= div_trunc(a, b) <= a,
        a < 0 ==> a <= div_trunc(a, b) <= 0,
{
    if a >= 0 {
        lemma_div_pos_is_pos(a, b);
        lemma_div_nonincreasing(a, b);
    } else {
        lemma_div_pos_is_pos(-a, b);
        lemma_div_nonincreasing(-a, b);
    }
}

/// The width in pixels of a span of `dur` nanoseconds.
pub open spec fn width_of_duration(dur: int, zn: int, zd: int) -> int {
    div_trunc(dur * zn, zd)
}

pub fn duration_to_width(dur: i128, zn: u32, zd: u32) -> (w: i128)
    requires
        0 <= dur <= 2 * MAX_ABS_TIME,
        1 <= zd,
    ensures
        w == width_of_duration(dur as int, zn as int, zd as int),
        0 <= w <= 2 * MAX_ABS_TIME * 0x1_0000_0000,
{
    proof {
        assert(0 <= dur as int * (zn as int) <= 2 * MAX_ABS_TIME * 0x1_0000_0000)
            by (nonlinear_arith)
            requires
                0 <= (dur as int) <= 2 * MAX_ABS_TIME,
                0 <= (zn as int) < 0x1_0000_0000,
                MAX_ABS_TIME == 36893488147419103232,
        ;
        lemma_div_trunc_in_range(dur as int * (zn as int), zd as int);
    }
    div_trunc_i128(dur * (zn as i128), zd as i128)
}

/// The time delta corresponding to a pixel delta: the inverse scaling of
/// `x_of_time`, truncated toward zero.
pub open spec fn time_delta_of_px(px: int, zn: int, zd: int) -> int {
    div_trunc(px * zd, zn)
}

pub fn px_to_time_delta(px: i64, zn: u32, zd: u32) -> (dt: i128)
    requires
        1 <= zn,
    ensures
        dt == time_delta_of_px(px as int, zn as int, zd as int),
        -(0x8000_0000_0000_0000 * 0x1_0000_0000) <= dt <= 0x8000_0000_0000_0000 * 0x1_0000_0000,
{
    proof {
        assert(-(0x8000_0000_0000_0000 * 0x1_0000_0000) <= px as int * (zd as int)
            <= 0x8000_0000_0000_0000 * 0x1_0000_0000) by (nonlinear_arith)
            requires
                -0x8000_0000_0000_0000 <= (px as int) < 0x8000_0000_0000_0000,
                0 <= (zd as int) < 0x1_0000_0000,
        ;
        lemma_div_trunc_in_range((px as int) * (zd as int), zn as int);
    }
    div_trunc_i128((px as i128) * (zd as i128), zn as i128)
}

} // verus!
