//! What the canvas shows is to scale: on canvases of ordinary size, everything stands
//! where it should to within a quarter of a pixel, single precision or not.

use crate::alignment::lemma_constants;
use crate::binary64::{lemma_signed, one_units, Binary64};
use crate::canvas::{
    absolute_point, along, distance, fraction_across, fraction_along, gap_at, guide_line, in_reach, inset, middle,
    on_screen, ScreenPoint, ScreenRect, GRAB_PX, GUIDE_PX,
};
use crate::conversion::{narrow_code, narrow_scale, narrow_steps};
use crate::dividers::{Axis, Divider};
use crate::measuring::{lemma_over_near, lemma_slack, lemma_times_near};
use crate::precision::{apart, lemma_plus_near, lemma_representable, lemma_small_minus, lemma_whole, slack};
use crate::rect::{ZoneRect, EPSILON, ONE, TWO, ZERO};
use crate::rounding::{lemma_code_parts, rounded, scale, units, STEPS};
use crate::tolerance::{lemma_magnitudes, lemma_valid_zone, tolerance};
use vstd::arithmetic::div_mod::lemma_fundamental_div_mod;
use vstd::arithmetic::power2::{lemma2_to64, lemma_pow2_adds, lemma_pow2_pos, lemma_pow2_strictly_increases, pow2};
use vstd::prelude::*;

verus! {

/// Whether a number is near to one given in units of units.
pub open spec fn is_near(x: Binary64, n: int, e: int) -> bool {
    x.is_finite() && apart(x.value() * one_units(), n) <= e * one_units()
}

/// A number in single precision is within half a step of the number.
pub proof fn lemma_narrowed(x: Binary64, k: nat)
    requires
        x.is_finite(),
        949 <= k <= 1190,
        apart(x.value(), 0) <= pow2(k),
    ensures
        x.narrowed().is_finite(),
        apart(x.narrowed().value(), x.value()) <= pow2((k - 23) as nat),
{
    reveal(Binary64::spec_narrowed);
    let code = x.code();
    let u = units(code);
    let e = scale(code);
    let f = narrow_scale(code);
    let step = pow2(f);
    lemma_code_parts(code);
    lemma_pow2_pos(f);
    lemma_pow2_pos(e);
    lemma2_to64();
    vstd::arithmetic::power2::lemma2_to64_rest();
    let q = u / step;
    let r = u % step;
    lemma_fundamental_div_mod(u as int, step as int);
    assert(step * q == q * step) by (nonlinear_arith);
    let n = narrow_steps(code);
    let v = n * step;
    assert((q + 1) * step == q * step + step) by (nonlinear_arith);
    assert(2 * apart(v as int, u as int) <= step);
    let m = (code - e * STEPS) as nat;
    assert(u == m * pow2(e));
    // A step is no longer than that of the bound.
    assert(f <= k - 23) by {
        if f != 925 {
            assert(f == e + 29);
            lemma_pow2_adds(52, e);
            assert(u >= STEPS * pow2(e)) by (nonlinear_arith)
                requires
                    u == m * pow2(e),
                    m >= STEPS,
            ;
            if e + 52 > k {
                lemma_pow2_strictly_increases(k, e + 52);
            }
        }
    }
    if f < k - 23 {
        lemma_pow2_strictly_increases(f, (k - 23) as nat);
    }
    lemma_pow2_adds(2, (k - 1) as nat);
    lemma_pow2_adds(1, (k - 1) as nat);
    lemma_pow2_strictly_increases((k - 23) as nat, k);
    lemma_pow2_strictly_increases((k + 1) as nat, 1202);
    assert(n < 2 * STEPS) by {
        assert(m < 2 * STEPS);
        assert(u < 2 * STEPS * pow2(e)) by (nonlinear_arith)
            requires
                u == m * pow2(e),
                m < 2 * STEPS,
                pow2(e) > 0,
        ;
        if e < f {
            lemma_pow2_strictly_increases(e, f);
            lemma_pow2_adds(1, (f - 1) as nat);
            if e < f - 1 {
                lemma_pow2_strictly_increases(e, (f - 1) as nat);
            }
        }
        assert(2 * pow2(e) <= step);
        assert(q < STEPS) by (nonlinear_arith)
            requires
                q * step <= u,
                u < 2 * STEPS * pow2(e),
                2 * pow2(e) <= step,
                step > 0,
        ;
    }
    lemma_representable(n, f);
    assert(narrow_code(code) == rounded(v, 1));
    lemma_signed(x.is_negative(), rounded(v, 1));
}

/// A number near to another one is so in single precision.
proof fn lemma_near_narrowed(x: Binary64, n: int, e: int, k: nat)
    requires
        is_near(x, n, e),
        949 <= k <= 1190,
        apart(n, 0) + e * one_units() <= pow2(k) * one_units(),
    ensures
        is_near(x.narrowed(), n, e + pow2((k - 23) as nat)),
{
    let one = one_units() as int;
    lemma_pow2_pos(1074);
    let v = x.value();
    let b = pow2(k) as int;
    assert(apart(v, 0) <= b) by (nonlinear_arith)
        requires
            apart(v * one, 0) <= b * one,
            one > 0,
    ;
    lemma_narrowed(x, k);
    let w = x.narrowed().value();
    let off = apart(w, v);
    let p = pow2((k - 23) as nat) as int;
    assert(apart(w * one, v * one) <= p * one) by (nonlinear_arith)
        requires
            apart(w, v) <= p,
            one > 0,
    ;
    assert((e + p) * one == e * one + p * one) by (nonlinear_arith);
}

/// Sums of numbers that are near are near.
proof fn lemma_near_plus(a: Binary64, n: int, e: int, b: Binary64, m: int, d: int)
    requires
        is_near(a, n, e),
        is_near(b, m, d),
        apart(n + m, 0) + (e + d) * one_units() <= pow2(1100) * one_units(),
    ensures
        is_near(a.plus(b), n + m, e + d + pow2(1047)),
{
    let one = one_units() as int;
    lemma_pow2_pos(1074);
    let v = a.value() + b.value();
    assert(v * one == a.value() * one + b.value() * one) by (nonlinear_arith)
        requires
            v == a.value() + b.value(),
    ;
    assert((e + d) * one == e * one + d * one) by (nonlinear_arith);
    let big = pow2(1100) as int;
    assert(apart(v, 0) <= big) by (nonlinear_arith)
        requires
            apart(v * one, 0) <= big * one,
            one > 0,
    ;
    lemma_pow2_strictly_increases(1100, 1990);
    lemma_plus_near(a, b);
    lemma2_to64();
    vstd::arithmetic::power2::lemma2_to64_rest();
    lemma_pow2_adds(53, 1047);
    let p = pow2(1047) as int;
    let off = apart(a.plus(b).value(), v);
    assert(off <= p) by (nonlinear_arith)
        requires
            2 * STEPS * off <= 2 * STEPS * p,
    ;
    let w = a.plus(b).value();
    assert(apart(w * one, v * one) <= p * one) by (nonlinear_arith)
        requires
            apart(w, v) <= p,
            one > 0,
    ;
    assert((e + d + p) * one == e * one + d * one + p * one) by (nonlinear_arith);
}

/// Differences of numbers that are near are near.
proof fn lemma_near_minus(a: Binary64, n: int, e: int, b: Binary64, m: int, d: int)
    requires
        is_near(a, n, e),
        is_near(b, m, d),
        apart(n - m, 0) + (e + d) * one_units() <= pow2(1100) * one_units(),
    ensures
        is_near(a.minus(b), n - m, e + d + pow2(1047)),
{
    crate::precision::lemma_negated(b);
    let one = one_units() as int;
    let v = b.value();
    assert((-v) * one == -(v * one)) by (nonlinear_arith);
    lemma_near_plus(a, n, e, b.negated(), -m, d);
}

/// A number is as near to itself as can be.
proof fn lemma_near_itself(x: Binary64)
    requires
        x.is_finite(),
    ensures
        is_near(x, x.value() * one_units(), 0),
{
    assert(0 * one_units() == 0);
}

/// The magnitudes that errors are told in, and how they add up.
proof fn lemma_errors()
    ensures
        pow2(1072) * 4 == one_units(),
        pow2(1071) * 2 == pow2(1072),
        pow2(1070) * 2 == pow2(1071),
        pow2(1069) * 2 == pow2(1070),
        pow2(1068) * 2 == pow2(1069),
        pow2(1062) * 64 == pow2(1068),
        pow2(1052) * 0x1_0000 == pow2(1068),
        pow2(1047) * 0x1000 < pow2(1068),
        pow2(1041) * 0x1000 < pow2(1068),
        pow2(1041) == 0x8_0000 * slack(),
        pow2(1075) == 2 * one_units(),
        pow2(1076) == 4 * one_units(),
        pow2(1085) == 0x800 * one_units(),
        pow2(1092) == 0x4_0000 * one_units(),
        pow2(1093) == 0x8_0000 * one_units(),
        pow2(1100) == 0x400_0000 * one_units(),
        0 < pow2(1041),
        0 < pow2(1047),
{
    lemma2_to64();
    lemma_pow2_adds(2, 1072);
    lemma_pow2_adds(1, 1071);
    lemma_pow2_adds(1, 1070);
    lemma_pow2_adds(1, 1069);
    lemma_pow2_adds(1, 1068);
    lemma_pow2_adds(6, 1062);
    lemma_pow2_adds(16, 1052);
    lemma_pow2_adds(12, 1047);
    lemma_pow2_adds(12, 1041);
    lemma_pow2_adds(19, 1022);
    lemma_pow2_adds(1, 1074);
    lemma_pow2_adds(2, 1074);
    lemma_pow2_adds(11, 1074);
    lemma_pow2_adds(18, 1074);
    lemma_pow2_adds(19, 1074);
    lemma_pow2_adds(26, 1074);
    lemma_pow2_strictly_increases(1059, 1068);
    lemma_pow2_strictly_increases(1053, 1068);
    lemma_pow2_pos(1041);
    lemma_pow2_pos(1047);
}

/// A fraction of a length on the screen.
proof fn lemma_near_product(a: Binary64, v: int, e: int, b: Binary64)
    requires
        a.is_finite(),
        b.is_finite(),
        apart(a.value(), v) <= e,
        0 <= e <= one_units(),
        apart(v, 0) <= 4 * one_units(),
        0 <= b.value() <= 0x1_0000 * one_units(),
    ensures
        is_near(a.times(b), v * b.value(), e * 0x1_0000 + pow2(1041)),
{
    let one = one_units() as int;
    let s = slack();
    let x = a.value();
    let l = b.value();
    lemma_slack();
    lemma_errors();
    assert(apart(x * l, 0) <= (0x5_0000 * one) * one) by (nonlinear_arith)
        requires
            apart(x, 0) <= 5 * one,
            0 <= l <= 0x1_0000 * one,
            one > 0,
    ;
    lemma_pow2_strictly_increases(1100, 1990);
    let big = pow2(1990) as int;
    assert((0x5_0000 * one) * one <= one * big) by (nonlinear_arith)
        requires
            0x5_0000 * one <= big,
            one > 0,
    ;
    lemma_times_near(a, b);
    let t = a.times(b).value();
    let off = apart(t * one, x * l);
    let p = pow2(1041) as int;
    assert(off <= p * one) by (nonlinear_arith)
        requires
            2 * STEPS * off <= (0x5_0000 * one) * one + STEPS * one,
            one == STEPS * s,
            STEPS == 0x10_0000_0000_0000,
            p == 0x8_0000 * s,
            s > 1,
            one > 0,
    ;
    assert(apart(x * l, v * l) <= (e * 0x1_0000) * one) by (nonlinear_arith)
        requires
            apart(x, v) <= e,
            0 <= l <= 0x1_0000 * one,
            e >= 0,
            one > 0,
    ;
    assert((e * 0x1_0000 + p) * one == (e * 0x1_0000) * one + p * one) by (nonlinear_arith);
}

/// Whether a canvas is of ordinary size and in an ordinary place.
pub open spec fn is_canvas(bounds: ScreenRect) -> bool {
    &&& is_on_screen(bounds.x)
    &&& is_on_screen(bounds.y)
    &&& is_length(bounds.width)
    &&& is_length(bounds.height)
}

/// Whether a coordinate is an ordinary one.
pub open spec fn is_on_screen(x: Binary64) -> bool {
    x.is_finite() && apart(x.value(), 0) <= 0x1_0000 * one_units()
}

/// Whether a length is an ordinary one, of a pixel at least.
pub open spec fn is_length(x: Binary64) -> bool {
    x.is_finite() && one_units() <= x.value() <= 0x1_0000 * one_units()
}

/// Whether a number is a fraction, within the unit square or not far from it.
pub open spec fn is_fraction(x: Binary64) -> bool {
    x.is_finite() && apart(x.value(), 0) <= 2 * one_units()
}

/// Whether a number is so many units of units, to within a quarter of a pixel.
pub open spec fn is_drawn_at(x: Binary64, n: int) -> bool {
    x.is_finite() && 4 * apart(x.value() * one_units(), n) <= one_units() * one_units()
}

proof fn lemma_drawn(x: Binary64, n: int, e: int)
    requires
        is_near(x, n, e),
        e <= pow2(1072),
    ensures
        is_drawn_at(x, n),
{
    let one = one_units() as int;
    lemma_errors();
    lemma_pow2_pos(1074);
    assert(4 * (e * one) <= one * one) by (nonlinear_arith)
        requires
            4 * e <= one,
            one > 0,
    ;
}

/// A length of the screen that a fraction of it comes to.
proof fn lemma_length(f: Binary64, length: Binary64)
    requires
        is_fraction(f),
        is_length(length),
    ensures
        is_near(f.narrowed().times(length).narrowed(), f.value() * length.value(), pow2(1070) as int),
        apart(f.value() * length.value(), 0) <= (0x2_0000 * one_units()) * one_units(),
{
    let one = one_units() as int;
    let v = f.value();
    let l = length.value();
    lemma_slack();
    lemma_errors();
    lemma_narrowed(f, 1075);
    let g = f.narrowed();
    let e = pow2(1052) as int;
    lemma_near_product(g, v, e, length);
    let d = e * 0x1_0000 + pow2(1041);
    assert(apart(v * l, 0) <= (0x2_0000 * one) * one) by (nonlinear_arith)
        requires
            apart(v, 0) <= 2 * one,
            0 <= l <= 0x1_0000 * one,
            one > 0,
    ;
    let b = pow2(1092) as int;
    assert((0x2_0000 * one) * one + d * one <= b * one) by (nonlinear_arith)
        requires
            0x2_0000 * one + d <= b,
            one > 0,
    ;
    lemma_near_narrowed(g.times(length), v * l, d, 1092);
    lemma_widened(g.times(length).narrowed(), v * l, d + pow2(1069), pow2(1070) as int);
}

/// What is near is so with a larger error.
proof fn lemma_widened(x: Binary64, n: int, e: int, d: int)
    requires
        is_near(x, n, e),
        e <= d,
    ensures
        is_near(x, n, d),
{
    let one = one_units() as int;
    assert(e * one <= d * one) by (nonlinear_arith)
        requires
            e <= d,
            one >= 0,
    ;
}

/// A place on the screen that a fraction comes to.
proof fn lemma_along(origin: Binary64, f: Binary64, length: Binary64)
    requires
        is_on_screen(origin),
        is_fraction(f),
        is_length(length),
    ensures
        is_near(along(origin, f, length), origin.value() * one_units() + f.value() * length.value(), pow2(1071) as int),
        apart(origin.value() * one_units() + f.value() * length.value(), 0) <= (0x3_0000 * one_units()) * one_units(),
{
    let one = one_units() as int;
    let o = origin.value();
    let n = f.value() * length.value();
    lemma_slack();
    lemma_errors();
    lemma_length(f, length);
    lemma_near_itself(origin);
    assert(apart(o * one, 0) <= (0x1_0000 * one) * one) by (nonlinear_arith)
        requires
            apart(o, 0) <= 0x1_0000 * one,
            one > 0,
    ;
    assert((0x1_0000 * one) * one + (0x2_0000 * one) * one == (0x3_0000 * one) * one) by (nonlinear_arith);
    let e = pow2(1070) as int;
    let b = pow2(1092) as int;
    let p = f.narrowed().times(length).narrowed();
    assert((0x3_0000 * one) * one + (e + pow2(1047)) * one <= b * one) by (nonlinear_arith)
        requires
            0x3_0000 * one + e + pow2(1047) <= b,
            one > 0,
    ;
    let c = pow2(1100) as int;
    assert((0x3_0000 * one) * one + (0 + e) * one <= c * one) by (nonlinear_arith)
        requires
            0x3_0000 * one + e <= c,
            one > 0,
    ;
    lemma_near_plus(origin, o * one, 0, p, n, e);
    lemma_near_narrowed(origin.plus(p), o * one + n, 0 + e + pow2(1047), 1092);
    lemma_widened(along(origin, f, length), o * one + n, 0 + e + pow2(1047) + pow2(1069), pow2(1071) as int);
}

/// Zones are drawn to scale: each edge stands at its fraction of the canvas, and each
/// side is that fraction of the canvas long.
pub proof fn zones_are_drawn_to_scale(zone: ZoneRect, bounds: ScreenRect, drawn: ScreenRect)
    requires
        is_fraction(zone.x),
        is_fraction(zone.y),
        is_fraction(zone.w),
        is_fraction(zone.h),
        is_canvas(bounds),
        drawn == on_screen(zone, bounds),
    ensures
        is_drawn_at(drawn.x, bounds.x.value() * one_units() + zone.x.value() * bounds.width.value()),
        is_drawn_at(drawn.y, bounds.y.value() * one_units() + zone.y.value() * bounds.height.value()),
        is_drawn_at(drawn.width, zone.w.value() * bounds.width.value()),
        is_drawn_at(drawn.height, zone.h.value() * bounds.height.value()),
{
    lemma_errors();
    lemma_along(bounds.x, zone.x, bounds.width);
    lemma_along(bounds.y, zone.y, bounds.height);
    lemma_length(zone.w, bounds.width);
    lemma_length(zone.h, bounds.height);
    lemma_drawn(drawn.x, bounds.x.value() * one_units() + zone.x.value() * bounds.width.value(), pow2(1071) as int);
    lemma_drawn(drawn.y, bounds.y.value() * one_units() + zone.y.value() * bounds.height.value(), pow2(1071) as int);
    lemma_drawn(drawn.width, zone.w.value() * bounds.width.value(), pow2(1070) as int);
    lemma_drawn(drawn.height, zone.h.value() * bounds.height.value(), pow2(1070) as int);
}

/// How far a place on the screen is from where a fraction comes to.
proof fn lemma_distance(origin: Binary64, f: Binary64, length: Binary64, place: Binary64)
    requires
        is_on_screen(origin),
        is_fraction(f),
        is_length(length),
        is_on_screen(place),
    ensures
        is_drawn_at(
            along(origin, f, length).minus(place).narrowed().absolute(),
            apart(origin.value() * one_units() + f.value() * length.value(), place.value() * one_units()),
        ),
{
    let one = one_units() as int;
    let n = origin.value() * one + f.value() * length.value();
    let c = place.value();
    lemma_slack();
    lemma_errors();
    lemma_along(origin, f, length);
    lemma_near_itself(place);
    assert(apart(c * one, 0) <= (0x1_0000 * one) * one) by (nonlinear_arith)
        requires
            apart(c, 0) <= 0x1_0000 * one,
            one > 0,
    ;
    assert((0x1_0000 * one) * one + (0x3_0000 * one) * one == (0x4_0000 * one) * one) by (nonlinear_arith);
    let e = pow2(1071) as int;
    let b = pow2(1093) as int;
    assert((0x4_0000 * one) * one + (e + pow2(1047)) * one <= b * one) by (nonlinear_arith)
        requires
            0x4_0000 * one + e + pow2(1047) <= b,
            one > 0,
    ;
    let top = pow2(1100) as int;
    assert((0x4_0000 * one) * one + (e + 0) * one <= top * one) by (nonlinear_arith)
        requires
            0x4_0000 * one + e <= top,
            one > 0,
    ;
    let at = along(origin, f, length);
    lemma_near_minus(at, n, e, place, c * one, 0);
    lemma_near_narrowed(at.minus(place), n - c * one, e + 0 + pow2(1047), 1093);
    let d = at.minus(place).narrowed();
    lemma_drawn(d, n - c * one, e + 0 + pow2(1047) + pow2(1070));
    lemma_signed(false, d.code());
    let v = d.value();
    assert((-v) * one == -(v * one)) by (nonlinear_arith);
    assert(v >= 0 ==> v * one >= 0) by (nonlinear_arith)
        requires
            one > 0,
    ;
    assert(v < 0 ==> v * one < 0) by (nonlinear_arith)
        requires
            one > 0,
    ;
}

/// How far a boundary is from the cursor: as far as its fraction of the canvas is,
/// across for an upright boundary and down for a level one.
pub proof fn distances_are_measured_across_the_boundary(divider: Divider, bounds: ScreenRect, cursor: ScreenPoint)
    requires
        is_fraction(divider.position),
        is_canvas(bounds),
        is_on_screen(cursor.x),
        is_on_screen(cursor.y),
    ensures
        divider.axis == Axis::Vertical ==> is_drawn_at(
            distance(divider, bounds, cursor),
            apart(
                bounds.x.value() * one_units() + divider.position.value() * bounds.width.value(),
                cursor.x.value() * one_units(),
            ),
        ),
        divider.axis == Axis::Horizontal ==> is_drawn_at(
            distance(divider, bounds, cursor),
            apart(
                bounds.y.value() * one_units() + divider.position.value() * bounds.height.value(),
                cursor.y.value() * one_units(),
            ),
        ),
{
    lemma_distance(bounds.x, divider.position, bounds.width, cursor.x);
    lemma_distance(bounds.y, divider.position, bounds.height, cursor.y);
}

/// A boundary can be grabbed from up to eight pixels away, to within a quarter of one.
pub proof fn boundaries_are_grabbed_from_eight_pixels_away(
    divider: Divider,
    bounds: ScreenRect,
    cursor: ScreenPoint,
    place: int,
    at: int,
)
    requires
        is_fraction(divider.position),
        is_canvas(bounds),
        is_on_screen(cursor.x),
        is_on_screen(cursor.y),
        divider.axis == Axis::Vertical ==> place == bounds.x.value() * one_units() + divider.position.value()
            * bounds.width.value() && at == cursor.x.value() * one_units(),
        divider.axis == Axis::Horizontal ==> place == bounds.y.value() * one_units() + divider.position.value()
            * bounds.height.value() && at == cursor.y.value() * one_units(),
    ensures
        4 * apart(place, at) <= 31 * (one_units() * one_units()) ==> in_reach(divider, bounds, cursor),
        in_reach(divider, bounds, cursor) ==> 4 * apart(place, at) <= 33 * (one_units() * one_units()),
{
    distances_are_measured_across_the_boundary(divider, bounds, cursor);
    let d = distance(divider, bounds, cursor);
    let reach = Binary64 { bits: GRAB_PX };
    let one = one_units() as int;
    lemma_slack();
    assert(reach.value() == 8 * one && reach.is_finite()) by {
        lemma2_to64();
        vstd::arithmetic::power2::lemma2_to64_rest();
        assert(scale(GRAB_PX as nat) == 1025);
        assert(GRAB_PX - 1025 * STEPS == STEPS);
        lemma_pow2_adds(52, 1025);
        lemma_pow2_adds(3, 1074);
    }
    let v = d.value();
    assert(v <= 8 * one <==> v * one <= 8 * (one * one)) by (nonlinear_arith)
        requires
            one > 0,
    ;
}

/// What fraction of a length on the screen a place is at.
proof fn lemma_fraction_at(place: Binary64, origin: Binary64, length: Binary64)
    requires
        is_on_screen(place),
        is_on_screen(origin),
        is_length(length),
        apart(place.value(), origin.value()) <= 2 * length.value(),
    ensures
        fraction_along(place, origin, length).is_finite(),
        4 * apart(
            fraction_along(place, origin, length).value() * length.value(),
            (place.value() - origin.value()) * one_units(),
        ) <= one_units() * one_units(),
{
    let one = one_units() as int;
    let s = slack();
    let d = place.value() - origin.value();
    let l = length.value();
    lemma_slack();
    lemma_errors();
    lemma_constants();
    lemma_near_itself(place);
    lemma_near_itself(origin);
    assert(place.value() * one - origin.value() * one == d * one) by (nonlinear_arith)
        requires
            d == place.value() - origin.value(),
    ;
    assert(apart(d * one, 0) <= (0x2_0000 * one) * one) by (nonlinear_arith)
        requires
            apart(d, 0) <= 0x2_0000 * one,
            one > 0,
    ;
    let top = pow2(1100) as int;
    let p = pow2(1047) as int;
    assert((0x2_0000 * one) * one + (0 + 0) * one <= top * one) by (nonlinear_arith)
        requires
            0x2_0000 * one <= top,
            one > 0,
    ;
    lemma_near_minus(place, place.value() * one, 0, origin, origin.value() * one, 0);
    let b = pow2(1092) as int;
    assert((0x2_0000 * one) * one + (0 + 0 + p) * one <= b * one) by (nonlinear_arith)
        requires
            0x2_0000 * one + p <= b,
            one > 0,
    ;
    lemma_near_narrowed(place.minus(origin), d * one, 0 + 0 + p, 1092);
    let part = place.minus(origin).narrowed();
    let x = part.value();
    let e = 0 + 0 + p + pow2(1069);
    assert(apart(x, d) <= e) by (nonlinear_arith)
        requires
            apart(x * one, d * one) <= e * one,
            one > 0,
    ;
    assert(length.greatest(Binary64 { bits: ONE }) == length);
    lemma_pow2_strictly_increases(1092, 1990);
    let big = pow2(1990) as int;
    assert(apart(x * one, 0) <= (0x3_0000 * one) * one) by (nonlinear_arith)
        requires
            apart(x, 0) <= 0x3_0000 * one,
            one > 0,
    ;
    assert((0x3_0000 * one) * one <= l * big) by (nonlinear_arith)
        requires
            0x3_0000 * one <= big,
            one <= l,
            one > 0,
    ;
    lemma_over_near(part, length);
    let share = part.over(length);
    let q = share.value();
    let near = apart(q * l, x * one);
    let small = pow2(1041) as int;
    assert(near <= small * one) by (nonlinear_arith)
        requires
            2 * STEPS * near <= (0x3_0000 * one) * one + STEPS * l,
            l <= 0x1_0000 * one,
            one == STEPS * s,
            STEPS == 0x10_0000_0000_0000,
            small == 0x8_0000 * s,
            s > 1,
            one > 0,
    ;
    assert(apart(q, 0) <= 4 * one) by {
        assert(apart(x * one, d * one) <= e * one);
        assert(apart(d * one, 0) <= (2 * l) * one) by (nonlinear_arith)
            requires
                apart(d, 0) <= 2 * l,
                one > 0,
        ;
        assert(apart(q * l, 0) <= (2 * l) * one + e * one + small * one);
        assert((2 * l) * one + e * one + small * one <= (4 * one) * l) by (nonlinear_arith)
            requires
                e + small <= one,
                one <= l,
                one > 0,
        ;
        assert(apart(q, 0) <= 4 * one) by (nonlinear_arith)
            requires
                apart(q * l, 0) <= (4 * one) * l,
                l > 0,
        ;
    }
    lemma_narrowed(share, 1076);
    let r = share.narrowed().value();
    lemma_pow2_adds(1, 1052);
    lemma2_to64();
    let h = pow2(1053) as int;
    assert(apart(r * l, q * l) <= (h * 0x1_0000) * one) by (nonlinear_arith)
        requires
            apart(r, q) <= h,
            0 <= l <= 0x1_0000 * one,
            h >= 0,
            one > 0,
    ;
    assert(h * 0x1_0000 == pow2(1069));
    let sum = pow2(1069) + small + e;
    assert(apart(r * l, d * one) <= sum * one) by {
        assert(sum * one == (h * 0x1_0000) * one + small * one + e * one) by (nonlinear_arith)
            requires
                sum == h * 0x1_0000 + small + e,
        ;
    }
    assert(4 * (sum * one) <= one * one) by (nonlinear_arith)
        requires
            4 * sum <= one,
            one > 0,
    ;
}

/// Fractions measure the canvas: the fraction across an upright boundary times the
/// width is the distance of the cursor from the left, the fraction across a level one
/// times the height its distance from the top, to within a quarter of a pixel.
pub proof fn fractions_measure_the_canvas(bounds: ScreenRect, cursor: ScreenPoint)
    requires
        is_canvas(bounds),
        is_on_screen(cursor.x),
        is_on_screen(cursor.y),
        apart(cursor.x.value(), bounds.x.value()) <= 2 * bounds.width.value(),
        apart(cursor.y.value(), bounds.y.value()) <= 2 * bounds.height.value(),
    ensures
        4 * apart(
            fraction_across(Axis::Vertical, bounds, cursor).value() * bounds.width.value(),
            (cursor.x.value() - bounds.x.value()) * one_units(),
        ) <= one_units() * one_units(),
        4 * apart(
            fraction_across(Axis::Horizontal, bounds, cursor).value() * bounds.height.value(),
            (cursor.y.value() - bounds.y.value()) * one_units(),
        ) <= one_units() * one_units(),
        fraction_along(cursor.x, bounds.x, bounds.width) == fraction_across(Axis::Vertical, bounds, cursor),
        fraction_along(cursor.y, bounds.y, bounds.height) == fraction_across(Axis::Horizontal, bounds, cursor),
{
    lemma_fraction_at(cursor.x, bounds.x, bounds.width);
    lemma_fraction_at(cursor.y, bounds.y, bounds.height);
}

/// The place of the cursor in the coordinates of the bounds is as far from them as it
/// is told to be.
pub proof fn cursors_are_told_from_the_bounds(bounds: ScreenRect, position: ScreenPoint, cursor: ScreenPoint)
    requires
        is_canvas(bounds),
        is_on_screen(position.x),
        is_on_screen(position.y),
        cursor == absolute_point(bounds, position),
    ensures
        is_drawn_at(cursor.x, (bounds.x.value() + position.x.value()) * one_units()),
        is_drawn_at(cursor.y, (bounds.y.value() + position.y.value()) * one_units()),
{
    lemma_sum(bounds.x, position.x);
    lemma_sum(bounds.y, position.y);
}

proof fn lemma_sum(a: Binary64, b: Binary64)
    requires
        is_on_screen(a),
        is_on_screen(b),
    ensures
        is_drawn_at(a.plus(b).narrowed(), (a.value() + b.value()) * one_units()),
{
    let one = one_units() as int;
    lemma_slack();
    lemma_errors();
    lemma_near_itself(a);
    lemma_near_itself(b);
    let v = a.value() + b.value();
    assert(a.value() * one + b.value() * one == v * one) by (nonlinear_arith)
        requires
            v == a.value() + b.value(),
    ;
    assert(apart(v * one, 0) <= (0x2_0000 * one) * one) by (nonlinear_arith)
        requires
            apart(v, 0) <= 0x2_0000 * one,
            one > 0,
    ;
    let top = pow2(1100) as int;
    let p = pow2(1047) as int;
    assert((0x2_0000 * one) * one + (0 + 0) * one <= top * one) by (nonlinear_arith)
        requires
            0x2_0000 * one <= top,
            one > 0,
    ;
    lemma_near_plus(a, a.value() * one, 0, b, b.value() * one, 0);
    let c = pow2(1092) as int;
    assert((0x2_0000 * one) * one + (0 + 0 + p) * one <= c * one) by (nonlinear_arith)
        requires
            0x2_0000 * one + p <= c,
            one > 0,
    ;
    lemma_near_narrowed(a.plus(b), v * one, 0 + 0 + p, 1092);
    lemma_drawn(a.plus(b).narrowed(), v * one, 0 + 0 + p + pow2(1069));
}

/// The bits of two stand for two.
proof fn lemma_two()
    ensures
        (Binary64 { bits: TWO }).is_finite(),
        (Binary64 { bits: TWO }).value() == 2 * one_units(),
{
    lemma2_to64();
    vstd::arithmetic::power2::lemma2_to64_rest();
    assert(scale(TWO as nat) == 1023);
    assert(TWO - 1023 * STEPS == STEPS);
    lemma_pow2_adds(52, 1023);
    lemma_pow2_adds(1, 1074);
}

/// Half of a length on the screen.
proof fn lemma_half(x: Binary64)
    requires
        x.is_finite(),
        0 <= x.value() <= 0x2_0000 * one_units(),
    ensures
        x.over(Binary64 { bits: TWO }).narrowed().is_finite(),
        apart(2 * x.over(Binary64 { bits: TWO }).narrowed().value(), x.value()) <= pow2(1070),
        is_near(x.over(Binary64 { bits: TWO }).narrowed(), x.value() * (one_units() / 2), pow2(1069) as int),
{
    let one = one_units() as int;
    let s = slack();
    let two = Binary64 { bits: TWO };
    let v = x.value();
    lemma_slack();
    lemma_errors();
    lemma_two();
    lemma_pow2_strictly_increases(1092, 1990);
    let big = pow2(1990) as int;
    assert(0 <= v * one <= (2 * one) * big) by (nonlinear_arith)
        requires
            0 <= v <= big,
            one > 0,
    ;
    lemma_over_near(x, two);
    let q = x.over(two).value();
    let off = apart(2 * q, v);
    assert(apart(q * (2 * one), v * one) == off * one) by (nonlinear_arith)
        requires
            off == apart(2 * q, v),
            one > 0,
    ;
    assert(v * one <= (0x2_0000 * one) * one) by (nonlinear_arith)
        requires
            v <= 0x2_0000 * one,
            one > 0,
    ;
    assert(off <= pow2(1041)) by (nonlinear_arith)
        requires
            2 * STEPS * (off * one) <= (0x2_0000 * one) * one + STEPS * (2 * one),
            one == STEPS * s,
            STEPS == 0x10_0000_0000_0000,
            pow2(1041) == 0x8_0000 * s,
            s > 1,
            one > 0,
    ;
    lemma_pow2_adds(17, 1074);
    lemma2_to64();
    assert(pow2(1091) == 0x2_0000 * one);
    lemma_narrowed(x.over(two), 1091);
    let r = x.over(two).narrowed().value();
    assert(apart(2 * r, v) <= 2 * pow2(1068) + pow2(1041));
    let half = one / 2;
    assert(one == 2 * half) by {
        lemma_pow2_adds(1, 1073);
    }
    let e = pow2(1069) as int;
    assert(apart(r * one, v * half) <= e * one) by (nonlinear_arith)
        requires
            apart(2 * r, v) <= 2 * e,
            one == 2 * half,
            one > 0,
    ;
}

/// The middle of a rectangle is as far from its left as from its right, and as far
/// from its top as from its bottom, to within a pixel.
pub proof fn middles_are_in_the_middle(rect: ScreenRect, place: ScreenPoint)
    requires
        is_canvas(rect),
        place == middle(rect),
    ensures
        place.x.is_finite(),
        place.y.is_finite(),
        apart(
            place.x.value() - rect.x.value(),
            rect.x.value() + rect.width.value() - place.x.value(),
        ) <= one_units(),
        apart(
            place.y.value() - rect.y.value(),
            rect.y.value() + rect.height.value() - place.y.value(),
        ) <= one_units(),
{
    lemma_middle(rect.x, rect.width);
    lemma_middle(rect.y, rect.height);
}

proof fn lemma_middle(start: Binary64, length: Binary64)
    requires
        is_on_screen(start),
        is_length(length),
    ensures
        ({
            let place = start.plus(length.over(Binary64 { bits: TWO }).narrowed()).narrowed();
            &&& place.is_finite()
            &&& apart(
                place.value() - start.value(),
                start.value() + length.value() - place.value(),
            ) <= one_units()
        }),
{
    let one = one_units() as int;
    lemma_slack();
    lemma_errors();
    lemma_half(length);
    let half = length.over(Binary64 { bits: TWO }).narrowed();
    assert(is_on_screen(half));
    lemma_sum(start, half);
    let place = start.plus(half).narrowed();
    let v = start.value() + half.value();
    let off = apart(place.value(), v);
    assert(4 * off <= one) by (nonlinear_arith)
        requires
            4 * apart(place.value() * one, v * one) <= one * one,
            off == apart(place.value(), v),
            one > 0,
    ;
}

/// The line over a boundary runs from one side of the canvas to the other, with the
/// boundary in the middle of its four pixels: upright over an upright boundary, level
/// over a level one.
pub proof fn guides_run_along_the_boundary(divider: Divider, bounds: ScreenRect, line: ScreenRect)
    requires
        is_fraction(divider.position),
        is_canvas(bounds),
        line == guide_line(divider, bounds),
    ensures
        divider.axis == Axis::Vertical ==> {
            &&& is_drawn_at(
                line.x,
                divider.position.value() * bounds.width.value() - 2 * (one_units() * one_units()),
            )
            &&& line.width.value() == 4 * one_units()
            &&& line.y.value() == 0
            &&& line.height == bounds.height
        },
        divider.axis == Axis::Horizontal ==> {
            &&& is_drawn_at(
                line.y,
                divider.position.value() * bounds.height.value() - 2 * (one_units() * one_units()),
            )
            &&& line.height.value() == 4 * one_units()
            &&& line.x.value() == 0
            &&& line.width == bounds.width
        },
{
    lemma_guide(divider.position, bounds.width);
    lemma_guide(divider.position, bounds.height);
    lemma_constants();
    lemma2_to64();
    vstd::arithmetic::power2::lemma2_to64_rest();
    assert(scale(GUIDE_PX as nat) == 1024);
    assert(GUIDE_PX - 1024 * STEPS == STEPS);
    lemma_pow2_adds(52, 1024);
    lemma_pow2_adds(2, 1074);
}

proof fn lemma_guide(f: Binary64, length: Binary64)
    requires
        is_fraction(f),
        is_length(length),
    ensures
        is_drawn_at(
            f.narrowed().times(length).narrowed().minus(Binary64 { bits: TWO }).narrowed(),
            f.value() * length.value() - 2 * (one_units() * one_units()),
        ),
{
    let one = one_units() as int;
    let two = Binary64 { bits: TWO };
    lemma_slack();
    lemma_errors();
    lemma_two();
    lemma_length(f, length);
    lemma_near_itself(two);
    let n = f.value() * length.value();
    let m = 2 * (one * one);
    assert((2 * one) * one == m) by (nonlinear_arith)
        requires
            m == 2 * (one * one),
    ;
    assert(0 <= m <= (0x1_0000 * one) * one) by (nonlinear_arith)
        requires
            m == 2 * (one * one),
            one > 0,
    ;
    let p = f.narrowed().times(length).narrowed();
    lemma_near_difference(p, n, pow2(1070) as int, two, m, 0);
    lemma_drawn(p.minus(two).narrowed(), n - m, pow2(1070) + 0int + pow2(1047) + pow2(1069));
}

/// The difference of two places on the screen, in single precision.
proof fn lemma_near_difference(a: Binary64, n: int, e: int, b: Binary64, m: int, d: int)
    requires
        is_near(a, n, e),
        is_near(b, m, d),
        apart(n, 0) <= (0x2_0000 * one_units()) * one_units(),
        apart(m, 0) <= (0x1_0000 * one_units()) * one_units(),
        0 <= e,
        0 <= d,
        e + d <= one_units(),
    ensures
        is_near(a.minus(b).narrowed(), n - m, e + d + pow2(1047) + pow2(1069)),
{
    let one = one_units() as int;
    lemma_slack();
    lemma_errors();
    assert((0x2_0000 * one) * one + (0x1_0000 * one) * one == (0x3_0000 * one) * one) by (nonlinear_arith);
    let top = pow2(1100) as int;
    let c = pow2(1092) as int;
    let p = pow2(1047) as int;
    assert((0x3_0000 * one) * one + (e + d) * one <= top * one) by (nonlinear_arith)
        requires
            0x3_0000 * one + e + d <= top,
            one > 0,
    ;
    lemma_near_minus(a, n, e, b, m, d);
    assert((0x3_0000 * one) * one + (e + d + p) * one <= c * one) by (nonlinear_arith)
        requires
            0x3_0000 * one + e + d + p <= c,
            one > 0,
    ;
    lemma_near_narrowed(a.minus(b), n - m, e + d + p, 1092);
}

/// The sum of two places on the screen, in single precision.
proof fn lemma_near_sum(a: Binary64, n: int, e: int, b: Binary64, m: int, d: int)
    requires
        is_near(a, n, e),
        is_near(b, m, d),
        apart(n, 0) <= (0x2_0000 * one_units()) * one_units(),
        apart(m, 0) <= (0x1_0000 * one_units()) * one_units(),
        0 <= e,
        0 <= d,
        e + d <= one_units(),
    ensures
        is_near(a.plus(b).narrowed(), n + m, e + d + pow2(1047) + pow2(1069)),
{
    crate::precision::lemma_negated(b);
    let one = one_units() as int;
    let v = b.value();
    assert((-v) * one == -(v * one)) by (nonlinear_arith);
    lemma_near_difference(a, n, e, b.negated(), -m, d);
    crate::precision::lemma_negated(b.negated());
    assert(b.negated().negated() == b) by {
        lemma_signed(!b.is_negative(), b.code());
    }
}

/// A gap, all of it or half of it, in units of units.
pub open spec fn gap_share(gap: Binary64, whole: bool) -> int {
    if whole {
        gap.value() * one_units()
    } else {
        gap.value() * (one_units() / 2)
    }
}

/// Whether a gap is an ordinary one.
pub open spec fn is_gap(gap: Binary64) -> bool {
    gap.is_finite() && 0 <= gap.value() <= 0x1000 * one_units()
}

proof fn lemma_gap(gap: Binary64, whole: bool)
    requires
        is_gap(gap),
    ensures
        is_near(gap_at(gap, whole), gap_share(gap, whole), pow2(1069) as int),
        0 <= gap_share(gap, whole) <= (0x1000 * one_units()) * one_units(),
{
    let one = one_units() as int;
    lemma_slack();
    lemma_errors();
    lemma_half(gap);
    lemma_near_itself(gap);
    let v = gap.value();
    let half = one / 2;
    lemma_widened(gap, v * one, 0, pow2(1069) as int);
    assert(0 <= v * one <= (0x1000 * one) * one) by (nonlinear_arith)
        requires
            0 <= v <= 0x1000 * one,
            one > 0,
    ;
    assert(0 <= v * half <= v * one) by (nonlinear_arith)
        requires
            0 <= v,
            0 <= half <= one,
    ;
}

/// One axis of a zone that is drawn without the gap around it.
proof fn lemma_inset(f: Binary64, extent: Binary64, length: Binary64, gap: Binary64, first: bool, last: bool)
    requires
        is_fraction(f),
        is_fraction(extent),
        0 <= extent.value(),
        is_length(length),
        is_gap(gap),
    ensures
        is_drawn_at(
            along(Binary64 { bits: ZERO }, f, length).plus(gap_at(gap, first)).narrowed(),
            f.value() * length.value() + gap_share(gap, first),
        ),
        ({
            let n = extent.value() * length.value() - gap_share(gap, first) - gap_share(gap, last);
            let drawn = extent.narrowed().times(length).narrowed().minus(gap_at(gap, first)).narrowed().minus(
                gap_at(gap, last),
            ).narrowed().greatest(Binary64 { bits: ONE });
            &&& n >= one_units() * one_units() ==> is_drawn_at(drawn, n)
            &&& n < one_units() * one_units() ==> is_drawn_at(drawn, (one_units() * one_units()) as int)
        }),
{
    let one = one_units() as int;
    lemma_slack();
    lemma_errors();
    lemma_constants();
    let zero = Binary64 { bits: ZERO };
    let e = pow2(1069) as int;
    let t = pow2(1047) as int;
    lemma_along(zero, f, length);
    lemma_length(f, length);
    lemma_gap(gap, first);
    lemma_gap(gap, last);
    assert(0 * one == 0);
    let n = f.value() * length.value();
    let a = gap_share(gap, first);
    let b = gap_share(gap, last);
    assert((0x1000 * one) * one <= (0x1_0000 * one) * one) by (nonlinear_arith)
        requires
            one > 0,
    ;
    lemma_near_sum(along(zero, f, length), n, pow2(1071) as int, gap_at(gap, first), a, e);
    lemma_drawn(
        along(zero, f, length).plus(gap_at(gap, first)).narrowed(),
        n + a,
        pow2(1071) + e + t + pow2(1069),
    );
    lemma_length(extent, length);
    let m = extent.value() * length.value();
    assert(m >= 0) by (nonlinear_arith)
        requires
            m == extent.value() * length.value(),
            0 <= extent.value(),
            0 <= length.value(),
    ;
    let p = extent.narrowed().times(length).narrowed();
    lemma_near_difference(p, m, pow2(1070) as int, gap_at(gap, first), a, e);
    let q = p.minus(gap_at(gap, first)).narrowed();
    let c = pow2(1070) + e + t + pow2(1069);
    assert((0x1000 * one) * one <= (0x2_0000 * one) * one) by (nonlinear_arith)
        requires
            one > 0,
    ;
    lemma_near_difference(q, m - a, c, gap_at(gap, last), b, e);
    let r = q.minus(gap_at(gap, last)).narrowed();
    lemma_drawn(r, m - a - b, c + e + t + pow2(1069));
    let v = r.value();
    assert(v >= one ==> v * one >= one * one) by (nonlinear_arith)
        requires
            one > 0,
    ;
    assert(v < one ==> v * one < one * one) by (nonlinear_arith)
        requires
            one > 0,
    ;
}

/// Zones are drawn with the gap that windows in them will have: each edge of a zone
/// stands at its fraction of the canvas, all of the gap away from it at an edge of the
/// canvas and half of it anywhere else. No zone is drawn shorter than a pixel.
pub proof fn zones_are_drawn_with_their_gap(
    zone: ZoneRect,
    bounds: ScreenRect,
    gap: Binary64,
    left: bool,
    right: bool,
    top: bool,
    bottom: bool,
    drawn: ScreenRect,
)
    requires
        zone.is_valid(),
        is_canvas(bounds),
        is_gap(gap),
        drawn == inset(zone, bounds, gap),
        left <==> zone.x.value() <= tolerance(),
        top <==> zone.y.value() <= tolerance(),
        right ==> zone.right().value() >= one_units() - tolerance() + slack(),
        !right ==> zone.right().value() < one_units() - tolerance() - slack(),
        bottom ==> zone.bottom().value() >= one_units() - tolerance() + slack(),
        !bottom ==> zone.bottom().value() < one_units() - tolerance() - slack(),
    ensures
        is_drawn_at(drawn.x, zone.x.value() * bounds.width.value() + gap_share(gap, left)),
        is_drawn_at(drawn.y, zone.y.value() * bounds.height.value() + gap_share(gap, top)),
        ({
            let n = zone.w.value() * bounds.width.value() - gap_share(gap, left) - gap_share(gap, right);
            let pixel = (one_units() * one_units()) as int;
            is_drawn_at(
                drawn.width,
                if n >= pixel {
                    n
                } else {
                    pixel
                },
            )
        }),
        ({
            let n = zone.h.value() * bounds.height.value() - gap_share(gap, top) - gap_share(gap, bottom);
            let pixel = (one_units() * one_units()) as int;
            is_drawn_at(
                drawn.height,
                if n >= pixel {
                    n
                } else {
                    pixel
                },
            )
        }),
{
    lemma_magnitudes();
    lemma_constants();
    lemma_valid_zone(zone);
    lemma_small_minus(Binary64 { bits: ONE }, Binary64 { bits: EPSILON });
    lemma_inset(zone.x, zone.w, bounds.width, gap, left, right);
    lemma_inset(zone.y, zone.h, bounds.height, gap, top, bottom);
}

/// A whole number of pixels is drawn as such.
pub proof fn lemma_whole_is_drawn(pixels: i32)
    requires
        0 <= pixels <= 0x1_0000,
    ensures
        is_drawn_at(Binary64::spec_whole(pixels).narrowed(), pixels * (one_units() * one_units())),
{
    let one = one_units() as int;
    let x = Binary64::spec_whole(pixels);
    let n = pixels as int;
    lemma_whole(pixels);
    lemma_slack();
    lemma_errors();
    lemma_near_itself(x);
    assert((n * one) * one == n * (one * one)) by (nonlinear_arith);
    assert(0 <= n * (one * one) <= (0x1_0000 * one) * one) by (nonlinear_arith)
        requires
            0 <= n <= 0x1_0000,
            one > 0,
    ;
    let b = pow2(1092) as int;
    assert((0x1_0000 * one) * one + 0 * one <= b * one) by (nonlinear_arith)
        requires
            0x1_0000 * one <= b,
            one > 0,
    ;
    lemma_near_narrowed(x, n * (one * one), 0, 1092);
    lemma_drawn(x.narrowed(), n * (one * one), 0int + pow2(1069));
}

} // verus!
