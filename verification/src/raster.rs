//! Integer line rasterization.
//!
//! A segment between two integer points is turned into discrete pixels in one
//! of two interchangeable ways: the binary rasterizer yields exactly the
//! pixels of a classic integer (Bresenham-equivalent) line, each with weight
//! one; the anti-aliased rasterizer yields, per step along the major axis,
//! two vertically (or horizontally) adjacent pixels whose weights split a
//! fixed brightness constant by the exact fractional coverage.
//!
//! Both are specified in closed form: step `t` of a line with `s` major steps
//! sits at the rounded interpolation `p0 + round(t * d / s)` per axis.

use vstd::prelude::*;
use vstd::arithmetic::div_mod::{
    lemma_fundamental_div_mod, lemma_hoist_over_denominator, lemma_div_is_ordered,
    lemma_basic_div, lemma_mod_multiples_vanish, lemma_mod_division_less_than_divisor,
    lemma_div_pos_is_pos,
};

verus! {

/// Brightness constant for anti-aliased lines: the total weight one step
/// along the major axis spreads over its two pixels.  The residual scale is
/// chosen so this sits in the empirically observed 125..175 band.
pub const BRIGHTNESS: u32 = 166;

/// Absolute value.
pub open spec fn abs_of(x: int) -> int {
    if x >= 0 {
        x
    } else {
        -x
    }
}

/// The larger of two integers.
pub open spec fn max_of(x: int, y: int) -> int {
    if x >= y {
        x
    } else {
        y
    }
}

/// `num / den` rounded half up (toward positive infinity), for `den > 0`.
pub open spec fn rnd(num: int, den: int) -> int {
    (2 * num + den) / (2 * den)
}

/// Number of steps of the line from `(x0, y0)` to `(x1, y1)` along its major
/// axis; the line covers `line_steps + 1` pixels.
pub open spec fn line_steps(x0: int, y0: int, x1: int, y1: int) -> int {
    max_of(abs_of(x1 - x0), abs_of(y1 - y0))
}

/// Pixel `t` of the binary line from `(x0, y0)` to `(x1, y1)`: both axes
/// interpolate linearly over the major-axis steps, rounded to the nearest
/// grid cell (half rounds up).
pub open spec fn line_point(x0: int, y0: int, x1: int, y1: int, t: int) -> (int, int) {
    let s = line_steps(x0, y0, x1, y1);
    if s == 0 {
        (x0, y0)
    } else {
        (x0 + rnd(t * (x1 - x0), s), y0 + rnd(t * (y1 - y0), s))
    }
}

/// The full pixel sequence of the binary line from `(x0, y0)` to `(x1, y1)`.
pub open spec fn bin_raster(x0: int, y0: int, x1: int, y1: int) -> Seq<(int, int)> {
    Seq::new((line_steps(x0, y0, x1, y1) + 1) as nat, |t: int| line_point(x0, y0, x1, y1, t))
}

/// Shifting the numerator by a multiple of the denominator shifts the
/// rounded quotient by the same amount.
pub proof fn lemma_rnd_shift(a: int, k: int, d: int)
    requires
        d >= 1,
    ensures
        rnd(a + k * d, d) == rnd(a, d) + k,
{
    assert(2 * (a + k * d) + d == (2 * a + d) + k * (2 * d)) by (nonlinear_arith);
    lemma_hoist_over_denominator(2 * a + d, k, (2 * d) as nat);
}

/// Rounding is monotonic in the numerator.
pub proof fn lemma_rnd_mono(a1: int, a2: int, d: int)
    requires
        d >= 1,
        a1 <= a2,
    ensures
        rnd(a1, d) <= rnd(a2, d),
{
    lemma_div_is_ordered(2 * a1 + d, 2 * a2 + d, 2 * d);
}

/// Along a line, the rounded offset `rnd(t * d, s)` stays between `0` and
/// the full axis delta `d`, and reaches the ends exactly.
pub proof fn lemma_rnd_line_range(t: int, d: int, s: int)
    requires
        s >= 1,
        0 <= t <= s,
    ensures
        d >= 0 ==> 0 <= rnd(t * d, s) <= d,
        d < 0 ==> d <= rnd(t * d, s) <= 0,
        t == 0 ==> rnd(t * d, s) == 0,
        t == s ==> rnd(t * d, s) == d,
{
    assert(rnd(0, s) == 0) by {
        lemma_basic_div(s, 2 * s);
    }
    assert(rnd(s * d, s) == d) by {
        assert(s * d == 0 + d * s) by (nonlinear_arith);
        lemma_rnd_shift(0, d, s);
    }
    if d >= 0 {
        assert(0 <= t * d <= s * d) by (nonlinear_arith)
            requires
                0 <= t <= s,
                d >= 0,
        ;
        lemma_rnd_mono(0, t * d, s);
        lemma_rnd_mono(t * d, s * d, s);
    } else {
        assert(s * d <= t * d <= 0) by (nonlinear_arith)
            requires
                0 <= t <= s,
                d < 0,
        ;
        lemma_rnd_mono(s * d, t * d, s);
        lemma_rnd_mono(t * d, 0, s);
    }
    if t == 0 {
        assert(t * d == 0) by (nonlinear_arith)
            requires
                t == 0,
        ;
    }
    if t == s {
        assert(t * d == s * d);
    }
}

/// Every pixel of a binary line lies in the bounding box of its endpoints,
/// and the line starts and ends on them.
pub proof fn lemma_line_point_in_box(x0: int, y0: int, x1: int, y1: int, t: int)
    requires
        0 <= t <= line_steps(x0, y0, x1, y1),
    ensures
        min_of(x0, x1) <= line_point(x0, y0, x1, y1, t).0 <= max_of(x0, x1),
        min_of(y0, y1) <= line_point(x0, y0, x1, y1, t).1 <= max_of(y0, y1),
        t == 0 ==> line_point(x0, y0, x1, y1, t) == (x0, y0),
        t == line_steps(x0, y0, x1, y1) ==> line_point(x0, y0, x1, y1, t) == (x1, y1),
{
    let s = line_steps(x0, y0, x1, y1);
    if s != 0 {
        lemma_rnd_line_range(t, x1 - x0, s);
        lemma_rnd_line_range(t, y1 - y0, s);
    }
}

/// The smaller of two integers.
pub open spec fn min_of(x: int, y: int) -> int {
    if x <= y {
        x
    } else {
        y
    }
}

/// Rasterizing a segment in the opposite direction yields the same pixels in
/// reverse order, hence the same pixel set.
pub proof fn lemma_bin_raster_symmetric(x0: int, y0: int, x1: int, y1: int)
    ensures
        bin_raster(x1, y1, x0, y0).len() == bin_raster(x0, y0, x1, y1).len(),
        forall|t: int|
            0 <= t < bin_raster(x0, y0, x1, y1).len() ==> bin_raster(x1, y1, x0, y0)[t]
                == bin_raster(x0, y0, x1, y1)[bin_raster(x0, y0, x1, y1).len() - 1 - t],
        bin_raster(x1, y1, x0, y0).to_set() == bin_raster(x0, y0, x1, y1).to_set(),
{
    let s = line_steps(x0, y0, x1, y1);
    assert(line_steps(x1, y1, x0, y0) == s);
    let fwd = bin_raster(x0, y0, x1, y1);
    let bwd = bin_raster(x1, y1, x0, y0);
    assert forall|t: int| 0 <= t <= s implies bwd[t] == fwd[s - t] by {
        lemma_line_point_reverse(x0, y0, x1, y1, t);
    }
    assert forall|p: (int, int)| bwd.to_set().contains(p) implies fwd.to_set().contains(p) by {
        let t = choose|t: int| 0 <= t < bwd.len() && bwd[t] == p;
        assert(fwd[s - t] == p);
    }
    assert forall|p: (int, int)| fwd.to_set().contains(p) implies bwd.to_set().contains(p) by {
        let t = choose|t: int| 0 <= t < fwd.len() && fwd[t] == p;
        assert(bwd[s - t] == p);
    }
    assert(bwd.to_set() =~= fwd.to_set());
}

/// Step `t` of the reversed line is step `s - t` of the forward line.
proof fn lemma_line_point_reverse(x0: int, y0: int, x1: int, y1: int, t: int)
    requires
        0 <= t <= line_steps(x0, y0, x1, y1),
    ensures
        line_point(x1, y1, x0, y0, t) == line_point(x0, y0, x1, y1, line_steps(
            x0,
            y0,
            x1,
            y1,
        ) - t),
{
    let s = line_steps(x0, y0, x1, y1);
    assert(line_steps(x1, y1, x0, y0) == s);
    if s != 0 {
        lemma_axis_reverse(x0, x1, t, s);
        lemma_axis_reverse(y0, y1, t, s);
    }
}

/// One axis of the reversal argument: the rounded offset from the far end
/// with the negated delta lands on the same coordinate.
proof fn lemma_axis_reverse(c0: int, c1: int, t: int, s: int)
    requires
        s >= 1,
    ensures
        c1 + rnd(t * (c0 - c1), s) == c0 + rnd((s - t) * (c1 - c0), s),
{
    assert((s - t) * (c1 - c0) == t * (c0 - c1) + (c1 - c0) * s) by (nonlinear_arith);
    lemma_rnd_shift(t * (c0 - c1), c1 - c0, s);
}

/// The anti-aliased rasterizer is symmetric outright: its normalization
/// swaps the endpoints into one canonical order, so both directions emit
/// the same samples.
pub proof fn lemma_aa_raster_symmetric(x0: int, y0: int, x1: int, y1: int)
    ensures
        aa_raster(x1, y1, x0, y0) == aa_raster(x0, y0, x1, y1),
{
    assert(aa_norm(x1, y1, x0, y0) == aa_norm(x0, y0, x1, y1));
    assert(aa_raster(x1, y1, x0, y0) =~= aa_raster(x0, y0, x1, y1));
}

/// Exact rounded interpolation offset along one axis, computed with
/// non-negative intermediate values so that machine division matches the
/// mathematical (Euclidean) one.
fn rnd_offset(t: i64, d: i64, s: i64) -> (o: i64)
    requires
        1 <= s <= 0x1_0000_0000,
        -0x1_0000_0000 <= d <= 0x1_0000_0000,
        abs_of(d as int) <= s,
        0 <= t <= s,
    ensures
        o == rnd(t * d, s as int),
        d >= 0 ==> 0 <= o <= d,
        d < 0 ==> d <= o <= 0,
{
    proof {
        lemma_rnd_line_range(t as int, d as int, s as int);
    }
    let ad: i64 = if d >= 0 {
        d
    } else {
        -d
    };
    proof {
        lemma_axis_product_bounds(t as int, d as int, ad as int, s as int);
    }
    let shifted: i128 = 2 * ((t as i128) * (d as i128) + (s as i128) * (ad as i128)) + (s as i128);
    proof {
        assert(t * d + s * (ad as int) >= 0) by (nonlinear_arith)
            requires
                0 <= t <= s,
                abs_of(d as int) == ad,
                ad >= 0,
        ;
        assert(2 * (t * d) + s + (2 * s) * (ad as int) == shifted) by (nonlinear_arith)
            requires
                shifted == 2 * ((t as int) * (d as int) + (s as int) * (ad as int)) + s,
        ;
        lemma_hoist_over_denominator(2 * (t * d) + s, ad as int, (2 * s) as nat);
        assert((shifted as int) / (2 * (s as int)) == rnd(t * d, s as int) + ad);
    }
    let q: u128 = (shifted as u128) / ((2 * s) as u128);
    (q as i64) - ad
}

/// Binary rasterization: the pixels of the integer line from `start` to
/// `end`, in traversal order, matching the closed-form specification.
pub fn raster_line_binary(start: (i32, i32), end: (i32, i32)) -> (r: Vec<(i32, i32)>)
    ensures
        r@.len() == line_steps(start.0 as int, start.1 as int, end.0 as int, end.1 as int) + 1,
        forall|t: int|
            0 <= t < r@.len() ==> (r@[t].0 as int, r@[t].1 as int) == line_point(
                start.0 as int,
                start.1 as int,
                end.0 as int,
                end.1 as int,
                t,
            ),
{
    let (x0, y0) = start;
    let (x1, y1) = end;
    let dx: i64 = x1 as i64 - x0 as i64;
    let dy: i64 = y1 as i64 - y0 as i64;
    let adx: i64 = if dx >= 0 {
        dx
    } else {
        -dx
    };
    let ady: i64 = if dy >= 0 {
        dy
    } else {
        -dy
    };
    let s: i64 = if adx >= ady {
        adx
    } else {
        ady
    };
    let mut r: Vec<(i32, i32)> = Vec::new();
    if s == 0 {
        r.push((x0, y0));
        return r;
    }
    let mut t: i64 = 0;
    while t <= s
        invariant
            1 <= s <= 0x1_0000_0000,
            s == line_steps(x0 as int, y0 as int, x1 as int, y1 as int),
            dx == x1 - x0,
            dy == y1 - y0,
            0 <= t <= s + 1,
            r@.len() == t,
            forall|u: int|
                0 <= u < r@.len() ==> (r@[u].0 as int, r@[u].1 as int) == line_point(
                    x0 as int,
                    y0 as int,
                    x1 as int,
                    y1 as int,
                    u,
                ),
        decreases s + 1 - t,
    {
        let ox = rnd_offset(t, dx, s);
        let oy = rnd_offset(t, dy, s);
        let px: i64 = x0 as i64 + ox;
        let py: i64 = y0 as i64 + oy;
        r.push((px as i32, py as i32));
        t = t + 1;
    }
    r
}

/// Intermediate products of the interpolation fit comfortably in 128 bits.
proof fn lemma_axis_product_bounds(t: int, d: int, ad: int, s: int)
    requires
        1 <= s <= 0x1_0000_0000,
        -0x1_0000_0000 <= d <= 0x1_0000_0000,
        0 <= ad <= 0x1_0000_0000,
        0 <= t <= s,
    ensures
        -0x1_0000_0000_0000_0000 <= t * d <= 0x1_0000_0000_0000_0000,
        0 <= s * ad <= 0x1_0000_0000_0000_0000,
{
    assert(-0x1_0000_0000_0000_0000 <= t * d <= 0x1_0000_0000_0000_0000) by (nonlinear_arith)
        requires
            0 <= t <= 0x1_0000_0000,
            -0x1_0000_0000 <= d <= 0x1_0000_0000,
    ;
    assert(0 <= s * ad <= 0x1_0000_0000_0000_0000) by (nonlinear_arith)
        requires
            0 <= s <= 0x1_0000_0000,
            0 <= ad <= 0x1_0000_0000,
    ;
}

/// Position `t` along the anti-aliased line's major axis splits the
/// brightness between the two flanking pixels; this is the share of the
/// farther (higher-minor) pixel, `0` when the line passes exactly through a
/// cell center.
pub open spec fn aa_low_weight(t: int, dmin: int, s: int) -> int {
    (BRIGHTNESS as int) * ((t * dmin) % s) / s
}

/// Normalized endpoints of the anti-aliased line: axes swapped so the major
/// axis comes first, then ordered so the major coordinate does not decrease.
/// Returns `(u0, v0, u1, v1, steep)`.
pub open spec fn aa_norm(x0: int, y0: int, x1: int, y1: int) -> (int, int, int, int, bool) {
    let steep = abs_of(y1 - y0) > abs_of(x1 - x0);
    let (a0, b0, a1, b1) = if steep {
        (y0, x0, y1, x1)
    } else {
        (x0, y0, x1, y1)
    };
    if a0 > a1 {
        (a1, b1, a0, b0, steep)
    } else {
        (a0, b0, a1, b1, steep)
    }
}

/// Number of emitted (pixel, weight) samples of the anti-aliased line: two
/// per major-axis step.
pub open spec fn aa_len(x0: int, y0: int, x1: int, y1: int) -> int {
    2 * (line_steps(x0, y0, x1, y1) + 1)
}

/// Sample `i` of the anti-aliased line: for major-axis step `t = i / 2`, the
/// even sample is the near pixel with the remaining brightness, the odd
/// sample the adjacent pixel with the fractional share.
pub open spec fn aa_sample(x0: int, y0: int, x1: int, y1: int, i: int) -> ((int, int), int) {
    let (u0, v0, u1, v1, steep) = aa_norm(x0, y0, x1, y1);
    let s = u1 - u0;
    let t = i / 2;
    let low = i % 2 == 1;
    let u = u0 + t;
    if s == 0 {
        let v = if low {
            v0 + 1
        } else {
            v0
        };
        let w = if low {
            0
        } else {
            BRIGHTNESS as int
        };
        (pix_unswap(u, v, steep), w)
    } else {
        let dmin = v1 - v0;
        let vfloor = v0 + (t * dmin) / s;
        let wl = aa_low_weight(t, dmin, s);
        let v = if low {
            vfloor + 1
        } else {
            vfloor
        };
        let w = if low {
            wl
        } else {
            BRIGHTNESS as int - wl
        };
        (pix_unswap(u, v, steep), w)
    }
}

/// Undo the axis swap of the steep normalization for an emitted pixel.
pub open spec fn pix_unswap(u: int, v: int, steep: bool) -> (int, int) {
    if steep {
        (v, u)
    } else {
        (u, v)
    }
}

/// The whole anti-aliased sample sequence of the segment.
pub open spec fn aa_raster(x0: int, y0: int, x1: int, y1: int) -> Seq<((int, int), int)> {
    Seq::new(aa_len(x0, y0, x1, y1) as nat, |i: int| aa_sample(x0, y0, x1, y1, i))
}

/// Anti-aliased weights stay within the brightness constant.
pub proof fn lemma_aa_weight_range(x0: int, y0: int, x1: int, y1: int, i: int)
    requires
        0 <= i < aa_len(x0, y0, x1, y1),
    ensures
        0 <= aa_sample(x0, y0, x1, y1, i).1 <= BRIGHTNESS as int,
{
    let (u0, v0, u1, v1, steep) = aa_norm(x0, y0, x1, y1);
    let s = u1 - u0;
    if s != 0 {
        let t = i / 2;
        let dmin = v1 - v0;
        lemma_aa_low_weight_range(t, dmin, s);
    }
}

/// The fractional brightness share lies in `[0, BRIGHTNESS)`.
proof fn lemma_aa_low_weight_range(t: int, dmin: int, s: int)
    requires
        s >= 1,
    ensures
        0 <= aa_low_weight(t, dmin, s) < BRIGHTNESS as int,
{
    let rem = (t * dmin) % s;
    lemma_mod_division_less_than_divisor(t * dmin, s);
    let b = BRIGHTNESS as int;
    assert(0 <= b * rem) by (nonlinear_arith)
        requires
            rem >= 0,
            b >= 0,
    ;
    lemma_div_pos_is_pos(b * rem, s);
    assert(b * rem <= b * (s - 1)) by (nonlinear_arith)
        requires
            rem <= s - 1,
            b >= 0,
    ;
    lemma_div_is_ordered(b * rem, b * (s - 1), s);
    assert((b * (s - 1)) / s <= b - 1) by {
        assert(b * (s - 1) == (-b) + b * s) by (nonlinear_arith);
        lemma_hoist_over_denominator(-b, b, s as nat);
        assert((-b) / s <= -1) by {
            lemma_fundamental_div_mod(-b, s);
            lemma_mod_division_less_than_divisor(-b, s);
            let q = (-b) / s;
            if q >= 0 {
                assert(s * q >= 0) by (nonlinear_arith)
                    requires
                        s >= 1,
                        q >= 0,
                ;
            }
        }
    }
}

/// Exact floor quotient and remainder of `t * d` by `s`, computed with
/// non-negative intermediates.
fn floor_div_rem(t: i64, d: i64, s: i64) -> (r: (i64, i64))
    requires
        1 <= s <= 0x1_0000_0000,
        -0x1_0000_0000 <= d <= 0x1_0000_0000,
        abs_of(d as int) <= s,
        0 <= t <= s,
    ensures
        r.0 == (t * d) / (s as int),
        r.1 == (t * d) % (s as int),
        d >= 0 ==> 0 <= r.0 <= d,
        d < 0 ==> d <= r.0 <= 0,
        0 <= r.1 < s,
{
    let ad: i64 = if d >= 0 {
        d
    } else {
        -d
    };
    proof {
        lemma_axis_product_bounds(t as int, d as int, ad as int, s as int);
    }
    let shifted: i128 = (t as i128) * (d as i128) + (s as i128) * (ad as i128);
    proof {
        assert(t * d + s * (ad as int) >= 0) by (nonlinear_arith)
            requires
                0 <= t <= s,
                abs_of(d as int) == ad,
                ad >= 0,
        ;
        assert(t * d + (ad as int) * s == shifted) by (nonlinear_arith)
            requires
                shifted == (t as int) * (d as int) + (s as int) * (ad as int),
        ;
        lemma_hoist_over_denominator(t * d, ad as int, s as nat);
        assert((shifted as int) / (s as int) == (t * d) / (s as int) + ad);
        lemma_mod_multiples_vanish(ad as int, t * d, s as int);
        assert((t * d) % (s as int) == (shifted as int) % (s as int));
        lemma_mod_division_less_than_divisor(t * d, s as int);
        lemma_floor_quotient_range(t as int, d as int, s as int);
    }
    let q: u128 = (shifted as u128) / (s as u128);
    let rem: u128 = (shifted as u128) % (s as u128);
    ((q as i64) - ad, rem as i64)
}

/// The floor quotient along a line axis stays between `0` and the delta.
proof fn lemma_floor_quotient_range(t: int, d: int, s: int)
    requires
        s >= 1,
        abs_of(d) <= s,
        0 <= t <= s,
    ensures
        d >= 0 ==> 0 <= (t * d) / s <= d,
        d < 0 ==> d <= (t * d) / s <= 0,
{
    if d >= 0 {
        assert(0 <= t * d <= s * d) by (nonlinear_arith)
            requires
                0 <= t <= s,
                d >= 0,
        ;
        lemma_div_pos_is_pos(t * d, s);
        lemma_div_is_ordered(t * d, s * d, s);
        assert(s * d == d * s) by (nonlinear_arith);
        vstd::arithmetic::div_mod::lemma_div_multiples_vanish(d, s);
    } else {
        assert(s * d <= t * d <= 0) by (nonlinear_arith)
            requires
                0 <= t <= s,
                d < 0,
        ;
        lemma_div_is_ordered(s * d, t * d, s);
        lemma_div_is_ordered(t * d, 0, s);
        lemma_basic_div(0, s);
        assert(s * d == d * s) by (nonlinear_arith);
        vstd::arithmetic::div_mod::lemma_div_multiples_vanish(d, s);
    }
}

/// Anti-aliased rasterization: the (pixel, weight) samples of the segment
/// from `start` to `end`, matching the closed-form specification; weights
/// stay within the brightness constant.  The coordinate bound keeps the
/// pixel one past the line inside the coordinate type.
pub fn raster_line_aa(start: (i32, i32), end: (i32, i32)) -> (r: Vec<((i32, i32), u32)>)
    requires
        -0x4000_0000 <= start.0 <= 0x4000_0000,
        -0x4000_0000 <= start.1 <= 0x4000_0000,
        -0x4000_0000 <= end.0 <= 0x4000_0000,
        -0x4000_0000 <= end.1 <= 0x4000_0000,
    ensures
        r@.len() == aa_len(start.0 as int, start.1 as int, end.0 as int, end.1 as int),
        forall|i: int|
            0 <= i < r@.len() ==> ((r@[i].0.0 as int, r@[i].0.1 as int), r@[i].1 as int)
                == aa_sample(start.0 as int, start.1 as int, end.0 as int, end.1 as int, i),
        forall|i: int| 0 <= i < r@.len() ==> r@[i].1 <= BRIGHTNESS,
{
    let sx0 = start.0;
    let sy0 = start.1;
    let sx1 = end.0;
    let sy1 = end.1;
    let ghost gx0 = sx0 as int;
    let ghost gy0 = sy0 as int;
    let ghost gx1 = sx1 as int;
    let ghost gy1 = sy1 as int;
    // Normalize exactly as the specification does.
    let dxa: i64 = sx1 as i64 - sx0 as i64;
    let dya: i64 = sy1 as i64 - sy0 as i64;
    let adx: i64 = if dxa >= 0 {
        dxa
    } else {
        -dxa
    };
    let ady: i64 = if dya >= 0 {
        dya
    } else {
        -dya
    };
    let steep = ady > adx;
    let (mut a0, mut b0, mut a1, mut b1): (i64, i64, i64, i64) = if steep {
        (sy0 as i64, sx0 as i64, sy1 as i64, sx1 as i64)
    } else {
        (sx0 as i64, sy0 as i64, sx1 as i64, sy1 as i64)
    };
    if a0 > a1 {
        let tmp_a = a0;
        let tmp_b = b0;
        a0 = a1;
        b0 = b1;
        a1 = tmp_a;
        b1 = tmp_b;
    }
    proof {
        assert((a0 as int, b0 as int, a1 as int, b1 as int, steep) == aa_norm(gx0, gy0, gx1, gy1));
    }
    let s: i64 = a1 - a0;
    proof {
        assert(s == line_steps(gx0, gy0, gx1, gy1));
    }
    let mut r: Vec<((i32, i32), u32)> = Vec::new();
    if s == 0 {
        let p_hi: (i32, i32) = if steep {
            (b0 as i32, a0 as i32)
        } else {
            (a0 as i32, b0 as i32)
        };
        let p_lo: (i32, i32) = if steep {
            ((b0 + 1) as i32, a0 as i32)
        } else {
            (a0 as i32, (b0 + 1) as i32)
        };
        r.push((p_hi, BRIGHTNESS));
        r.push((p_lo, 0));
        return r;
    }
    let dmin: i64 = b1 - b0;
    let mut t: i64 = 0;
    while t <= s
        invariant
            1 <= s <= 0x1_0000_0000,
            (a0 as int, b0 as int, a1 as int, b1 as int, steep) == aa_norm(gx0, gy0, gx1, gy1),
            s == a1 - a0,
            s == line_steps(gx0, gy0, gx1, gy1),
            dmin == b1 - b0,
            abs_of(dmin as int) <= s,
            -0x1_0000_0000 <= dmin <= 0x1_0000_0000,
            -0x4000_0000 <= a0 <= 0x4000_0000,
            -0x4000_0000 <= b0 <= 0x4000_0000,
            -0x4000_0000 <= a1 <= 0x4000_0000,
            -0x4000_0000 <= b1 <= 0x4000_0000,
            0 <= t <= s + 1,
            r@.len() == 2 * t,
            forall|i: int|
                0 <= i < r@.len() ==> ((r@[i].0.0 as int, r@[i].0.1 as int), r@[i].1 as int)
                    == aa_sample(gx0, gy0, gx1, gy1, i),
            forall|i: int| 0 <= i < r@.len() ==> r@[i].1 <= BRIGHTNESS,
        decreases s + 1 - t,
    {
        let (fl, rem) = floor_div_rem(t, dmin, s);
        let wl64: u64 = (BRIGHTNESS as u64) * (rem as u64) / (s as u64);
        proof {
            assert((BRIGHTNESS as u64) * (rem as u64) == (BRIGHTNESS as int) * ((t * dmin) % (
            s as int))) by (nonlinear_arith)
                requires
                    0 <= rem < s,
                    rem == (t * dmin) % (s as int),
            ;
            lemma_aa_low_weight_range(t as int, dmin as int, s as int);
            assert(wl64 == aa_low_weight(t as int, dmin as int, s as int));
        }
        let wl: u32 = wl64 as u32;
        let wh: u32 = BRIGHTNESS - wl;
        let u: i64 = a0 + t;
        let vf: i64 = b0 + fl;
        let p_hi: (i32, i32) = if steep {
            (vf as i32, u as i32)
        } else {
            (u as i32, vf as i32)
        };
        let p_lo: (i32, i32) = if steep {
            ((vf + 1) as i32, u as i32)
        } else {
            (u as i32, (vf + 1) as i32)
        };
        let ghost i_hi = 2 * t as int;
        proof {
            assert(i_hi / 2 == t as int && i_hi % 2 == 0 && (i_hi + 1) / 2 == t as int && (i_hi + 1)
                % 2 == 1) by (nonlinear_arith)
                requires
                    i_hi == 2 * (t as int),
                    t >= 0,
            ;
        }
        r.push((p_hi, wh));
        r.push((p_lo, wl));
        t = t + 1;
    }
    r
}

/// Pixel indices of the binary line on a square canvas of the given side
/// length, counting `y * side + x` row by row: the covered cells of the
/// segment, in traversal order.
pub fn get_line_pixels(start: (i32, i32), end: (i32, i32), side: u32) -> (r: Vec<u32>)
    requires
        1 <= side,
        side * side <= u32::MAX,
        0 <= start.0 < side,
        0 <= start.1 < side,
        0 <= end.0 < side,
        0 <= end.1 < side,
    ensures
        r@.len() == line_steps(start.0 as int, start.1 as int, end.0 as int, end.1 as int) + 1,
        forall|t: int|
            0 <= t < r@.len() ==> #[trigger] r@[t] == {
                let p = line_point(start.0 as int, start.1 as int, end.0 as int, end.1 as int, t);
                p.1 * side + p.0
            },
{
    let pts = raster_line_binary(start, end);
    let mut r: Vec<u32> = Vec::new();
    let mut t: usize = 0;
    while t < pts.len()
        invariant
            t <= pts@.len(),
            r@.len() == t,
            1 <= side,
            side * side <= u32::MAX,
            0 <= start.0 < side,
            0 <= start.1 < side,
            0 <= end.0 < side,
            0 <= end.1 < side,
            pts@.len() == line_steps(start.0 as int, start.1 as int, end.0 as int, end.1 as int)
                + 1,
            forall|u: int|
                0 <= u < pts@.len() ==> (pts@[u].0 as int, pts@[u].1 as int) == line_point(
                    start.0 as int,
                    start.1 as int,
                    end.0 as int,
                    end.1 as int,
                    u,
                ),
            forall|u: int|
                0 <= u < r@.len() ==> #[trigger] r@[u] == {
                    let p = line_point(
                        start.0 as int,
                        start.1 as int,
                        end.0 as int,
                        end.1 as int,
                        u,
                    );
                    p.1 * side + p.0
                },
        decreases pts@.len() - t,
    {
        let (x, y) = pts[t];
        proof {
            lemma_line_point_in_box(
                start.0 as int,
                start.1 as int,
                end.0 as int,
                end.1 as int,
                t as int,
            );
            assert(y * side + x < side * side) by (nonlinear_arith)
                requires
                    0 <= x < side,
                    0 <= y < side,
            ;
        }
        r.push((y as u32) * side + (x as u32));
        t = t + 1;
    }
    r
}

/// Uniform view of the two rasterization policies as (pixel, weight)
/// samples: binary pixels carry weight one.
pub open spec fn mode_samples(antialias: bool, x0: int, y0: int, x1: int, y1: int) -> Seq<
    ((int, int), int),
> {
    if antialias {
        aa_raster(x0, y0, x1, y1)
    } else {
        bin_raster(x0, y0, x1, y1).map(|t: int, p: (int, int)| (p, 1int))
    }
}

/// Weight that a sample sequence assigns to the pixel coordinate `c`: the
/// last sample naming `c` wins, pixels never named weigh nothing.
pub open spec fn weight_at(samples: Seq<((int, int), int)>, c: (int, int)) -> int
    decreases samples.len(),
{
    if samples.len() == 0 {
        0
    } else if samples.last().0 == c {
        samples.last().1
    } else {
        weight_at(samples.drop_last(), c)
    }
}

/// All weights a sample sequence can assign lie between zero and the largest
/// sample weight bound that holds for each sample.
pub proof fn lemma_weight_at_bound(samples: Seq<((int, int), int)>, c: (int, int), bound: int)
    requires
        bound >= 0,
        forall|i: int| 0 <= i < samples.len() ==> 0 <= #[trigger] samples[i].1 <= bound,
    ensures
        0 <= weight_at(samples, c) <= bound,
    decreases samples.len(),
{
    if samples.len() > 0 && samples.last().0 != c {
        lemma_weight_at_bound(samples.drop_last(), c, bound);
    }
}

} // verus!
