//! Layouts stay tiled: what edits, unions and clamping do to the edges of zones.

use crate::alignment::lemma_constants;
use crate::binary64::{lemma_signed, nearest, one_units, Binary64};
use crate::config::ZonesConfig;
use crate::dividers::{
    begins_at, close, continues, ends_at, halves, high, low, move_result, moved, moved_zone, pinned, Axis, Divider,
    MIN_FRACTION,
};
use crate::precision::{
    apart, lemma_finite_below, lemma_minus_near, lemma_negated, lemma_nearest_monotone, lemma_small_minus,
    lemma_small_plus, lemma_small_times, slack,
};
use crate::rect::{ZoneRect, ONE, QUARTER, ZERO};
use crate::rounding::{lemma_rounded_limit, lemma_rounded_parts, lemma_units_small, rounded, scale, units, STEPS};
use crate::tolerance::{lemma_magnitudes, lemma_reach, lemma_valid_zone, tolerance, within};
use vstd::arithmetic::power2::{lemma2_to64, lemma_pow2_adds, lemma_pow2_pos, lemma_pow2_strictly_increases, pow2};
use vstd::prelude::*;

verus! {

/// What is not more than another number does not differ from it by more than
/// nothing.
pub proof fn lemma_difference_sign(a: Binary64, b: Binary64)
    requires
        a.is_finite(),
        b.is_finite(),
        a.value() <= b.value(),
    ensures
        !a.minus(b).is_nan(),
        a.minus(b).value() <= 0,
{
    reveal(Binary64::spec_plus);
    lemma_negated(b);
    let zero = a.is_negative() && b.negated().is_negative();
    lemma_nearest_monotone(a.value() - b.value(), 0, zero, false);
    lemma_units_small(0);
    lemma_signed(false, 0);
}

/// The value of the smallest fraction that a zone may have.
pub proof fn lemma_min_fraction()
    ensures
        (Binary64 { bits: MIN_FRACTION }).is_finite(),
        16 * tolerance() < (Binary64 { bits: MIN_FRACTION }).value(),
        4 * (Binary64 { bits: MIN_FRACTION }).value() < one_units(),
{
    lemma_constants();
    lemma2_to64();
    vstd::arithmetic::power2::lemma2_to64_rest();
    lemma_pow2_adds(52, 1017);
    lemma_pow2_adds(53, 1017);
    lemma_pow2_adds(4, 1055);
    lemma_pow2_adds(2, 1070);
    lemma_pow2_strictly_increases(1059, 1069);
    lemma_pow2_strictly_increases(1072, 1074);
    lemma_pow2_pos(1017);
    assert(scale(MIN_FRACTION as nat) == 1017);
    assert(MIN_FRACTION - 1017 * STEPS == 0x19_9999_9999_999a);
    let p = pow2(1017);
    assert(0x10_0000_0000_0000nat * p < 0x19_9999_9999_999anat * p < 0x20_0000_0000_0000nat * p) by (nonlinear_arith)
        requires
            p > 0,
    ;
}

/// A place that was pinned stays where it is.
pub proof fn lemma_pinned_again(to: Binary64)
    ensures
        pinned(pinned(to)) == pinned(to),
{
    lemma_min_fraction();
    lemma_magnitudes();
    lemma_small_minus(Binary64 { bits: ONE }, Binary64 { bits: MIN_FRACTION });
}

/// Where a zone was split is a finite place.
pub proof fn lemma_split_place(zone: ZoneRect, at: Binary64, axis: Axis)
    requires
        zone.is_valid(),
        !at.is_nan(),
        halves(zone, at, axis) is Some,
    ensures
        at.is_finite(),
{
    lemma_valid_zone(zone);
    lemma_min_fraction();
    lemma_magnitudes();
    if !at.is_finite() {
        reveal(Binary64::spec_plus);
        lemma_negated(at);
        lemma_negated(low(zone, axis));
        lemma_units_small(0);
        crate::rounding::lemma_units_ordered(0, at.code());
        if at.is_negative() {
            assert(at.minus(low(zone, axis)) == at);
        } else {
            assert(high(zone, axis).minus(at) == at.negated());
        }
    }
}

/// Splitting a zone makes two zones that meet where it was split, up to what
/// rounding loses, and together reach exactly as far as the zone did.
pub proof fn split_halves_meet(zone: ZoneRect, at: Binary64, axis: Axis)
    requires
        zone.is_valid(),
        !at.is_nan(),
        halves(zone, at, axis) is Some,
    ensures
        ({
            let (first, second) = halves(zone, at, axis)->0;
            &&& low(first, axis) == low(zone, axis)
            &&& low(second, axis) == at
            &&& apart(high(first, axis).value(), at.value()) <= 2 * slack()
            &&& apart(high(second, axis).value(), high(zone, axis).value()) <= 2 * slack()
            &&& axis == Axis::Vertical ==> first.y == zone.y && first.h == zone.h && second.y == zone.y && second.h
                == zone.h
            &&& axis == Axis::Horizontal ==> first.x == zone.x && first.w == zone.w && second.x == zone.x && second.w
                == zone.w
        }),
{
    lemma_split_place(zone, at, axis);
    lemma_valid_zone(zone);
    lemma_magnitudes();
    lemma_min_fraction();
    let from = low(zone, axis);
    let to = high(zone, axis);
    if at.value() < from.value() {
        lemma_difference_sign(at, from);
    }
    if to.value() < at.value() {
        lemma_difference_sign(to, at);
    }
    lemma_reach(from, at);
    lemma_reach(at, to);
}

/// The areas of the two halves of a zone add up to its area, up to what rounding
/// loses.
pub proof fn split_halves_fill_the_zone(zone: ZoneRect, at: Binary64, axis: Axis)
    requires
        zone.is_valid(),
        !at.is_nan(),
        halves(zone, at, axis) is Some,
    ensures
        ({
            let (first, second) = halves(zone, at, axis)->0;
            apart(first.area().value() + second.area().value(), zone.area().value()) <= 18 * slack()
        }),
{
    lemma_split_place(zone, at, axis);
    lemma_valid_zone(zone);
    lemma_magnitudes();
    lemma_min_fraction();
    let from = low(zone, axis);
    let to = high(zone, axis);
    if at.value() < from.value() {
        lemma_difference_sign(at, from);
    }
    if to.value() < at.value() {
        lemma_difference_sign(to, at);
    }
    lemma_reach(from, at);
    lemma_reach(at, to);
    let (first, second) = halves(zone, at, axis)->0;
    lemma_small_times(first.w, first.h);
    lemma_small_times(second.w, second.h);
    lemma_small_times(zone.w, zone.h);
    let (f, s, w, h) = match axis {
        Axis::Vertical => (first.w.value(), second.w.value(), zone.w.value(), zone.h.value()),
        Axis::Horizontal => (first.h.value(), second.h.value(), zone.h.value(), zone.w.value()),
    };
    lemma_areas_add_up(
        f,
        s,
        w,
        h,
        first.area().value(),
        second.area().value(),
        zone.area().value(),
        slack(),
        one_units() as int,
        axis,
    );
}

proof fn lemma_areas_add_up(
    f: int,
    s: int,
    w: int,
    h: int,
    first: int,
    second: int,
    whole: int,
    slack: int,
    one: int,
    axis: Axis,
)
    requires
        one > 0,
        slack > 0,
        0 <= h <= 2 * one,
        apart(f + s, w) <= 3 * slack,
        axis == Axis::Vertical ==> apart(first * one, f * h) <= (4 * slack) * one && apart(second * one, s * h) <= (4
            * slack) * one && apart(whole * one, w * h) <= (4 * slack) * one,
        axis == Axis::Horizontal ==> apart(first * one, h * f) <= (4 * slack) * one && apart(second * one, h * s) <= (4
            * slack) * one && apart(whole * one, h * w) <= (4 * slack) * one,
    ensures
        apart(first + second, whole) <= 18 * slack,
{
    assert(h * f == f * h) by (nonlinear_arith);
    assert(h * s == s * h) by (nonlinear_arith);
    assert(h * w == w * h) by (nonlinear_arith);
    let d = f + s - w;
    assert(f * h + s * h - w * h == d * h) by (nonlinear_arith)
        requires
            d == f + s - w,
    ;
    assert(-(6 * slack * one) <= d * h <= 6 * slack * one) by (nonlinear_arith)
        requires
            -(3 * slack) <= d <= 3 * slack,
            0 <= h <= 2 * one,
            slack > 0,
            one > 0,
    ;
    let total = first + second - whole;
    assert(first * one + second * one - whole * one == total * one) by (nonlinear_arith)
        requires
            total == first + second - whole,
    ;
    assert((4 * slack) * one == 4 * (slack * one)) by (nonlinear_arith);
    assert(6 * slack * one == 6 * (slack * one)) by (nonlinear_arith);
    assert(-(18 * (slack * one)) <= total * one <= 18 * (slack * one));
    assert(-(18 * slack) <= total <= 18 * slack) by (nonlinear_arith)
        requires
            -(18 * (slack * one)) <= total * one <= 18 * (slack * one),
            one > 0,
    ;
}

/// Where a boundary may be dragged to lies well within the screen.
pub proof fn dragged_boundaries_stay_on_screen(to: Binary64)
    requires
        !to.is_nan(),
    ensures
        pinned(to).is_finite(),
        tolerance() < pinned(to).value() < one_units() - tolerance(),
{
    lemma_min_fraction();
    lemma_magnitudes();
    let one = Binary64 { bits: ONE };
    let min = Binary64 { bits: MIN_FRACTION };
    lemma_small_minus(one, min);
    lemma_finite_below(pinned(to), one);
}

/// Moving a boundary moves the edge of every zone at it to the same place, up to
/// what rounding loses, and leaves the other edges where they were: zones that met
/// at the boundary meet again, without a gap and without overlapping.
pub proof fn moved_zones_meet(zone: ZoneRect, divider: Divider, to: Binary64)
    requires
        zone.is_valid(),
        !to.is_nan(),
    ensures
        ({
            let at = pinned(to);
            let after = moved_zone(zone, divider, at);
            &&& ends_at(zone, divider) ==> {
                &&& low(after, divider.axis) == low(zone, divider.axis)
                &&& apart(high(after, divider.axis).value(), at.value()) <= 2 * slack()
            }
            &&& begins_at(zone, divider) && !ends_at(zone, divider) ==> {
                &&& low(after, divider.axis) == at
                &&& apart(high(after, divider.axis).value(), high(zone, divider.axis).value()) <= 2 * slack()
            }
        }),
{
    lemma_valid_zone(zone);
    lemma_magnitudes();
    dragged_boundaries_stay_on_screen(to);
    let at = pinned(to);
    lemma_reach(low(zone, divider.axis), at);
    lemma_reach(at, high(zone, divider.axis));
}

/// The union of two zones is the smallest rectangle around both: it begins where
/// the first of them begins and ends, up to what rounding loses, where the last of
/// them ends.
pub proof fn a_union_is_the_smallest_container(a: ZoneRect, b: ZoneRect)
    requires
        a.is_valid(),
        b.is_valid(),
    ensures
        ({
            let u = a.union(&b);
            &&& u.x == a.x || u.x == b.x
            &&& u.x.value() <= a.x.value() && u.x.value() <= b.x.value()
            &&& u.y == a.y || u.y == b.y
            &&& u.y.value() <= a.y.value() && u.y.value() <= b.y.value()
            &&& apart(
                u.right().value(),
                if a.right().value() >= b.right().value() {
                    a.right().value()
                } else {
                    b.right().value()
                },
            ) <= 2 * slack()
            &&& apart(
                u.bottom().value(),
                if a.bottom().value() >= b.bottom().value() {
                    a.bottom().value()
                } else {
                    b.bottom().value()
                },
            ) <= 2 * slack()
        }),
{
    lemma_valid_zone(a);
    lemma_valid_zone(b);
    lemma_magnitudes();
    let x = a.x.least(b.x);
    let y = a.y.least(b.y);
    lemma_reach(x, a.right().greatest(b.right()));
    lemma_reach(y, a.bottom().greatest(b.bottom()));
}

/// What is at most half a step above one rounds to one.
proof fn lemma_rounds_to_one(v: int)
    requires
        one_units() <= v <= one_units() + pow2(1021),
    ensures
        nearest(v, false) == (Binary64 { bits: ONE }),
{
    lemma2_to64();
    vstd::arithmetic::power2::lemma2_to64_rest();
    lemma_pow2_adds(52, 1022);
    lemma_pow2_adds(1, 1021);
    lemma_pow2_pos(1021);
    lemma_pow2_pos(1074);
    let p = pow2(1022);
    let r = (v - one_units()) as nat;
    assert(1 * p == p);
    lemma_rounded_parts(v as nat, 1, 1022, STEPS as nat, r);
}

/// One axis of clamping.
proof fn lemma_clamped_axis(at: Binary64, length: Binary64)
    requires
        !at.is_nan(),
        !length.is_nan(),
    ensures
        ({
            let zero = Binary64 { bits: ZERO };
            let one = Binary64 { bits: ONE };
            let x = at.bounded(zero, one);
            let w = length.bounded(zero, one.minus(x));
            &&& 0 <= x.value() <= one_units()
            &&& 0 <= w.value()
            &&& x.is_finite()
            &&& w.is_finite()
            &&& x.plus(w).value() <= one_units()
        }),
{
    lemma_constants();
    lemma_units_small(0);
    let zero = Binary64 { bits: ZERO };
    let one = Binary64 { bits: ONE };
    let x = at.bounded(zero, one);
    lemma_finite_below(x, one);
    let limit = one.minus(x);
    lemma_pow2_strictly_increases(1074, 1990);
    lemma_minus_near(one, x);
    lemma_pow2_adds(53, 1021);
    lemma2_to64();
    vstd::arithmetic::power2::lemma2_to64_rest();
    let off = apart(limit.value(), one.value() - x.value());
    let bound = pow2(1021);
    assert(off <= bound) by (nonlinear_arith)
        requires
            2 * STEPS * off <= 2 * STEPS * bound,
    ;
    lemma_negated(x);
    assert(limit.value() >= 0) by {
        reveal(Binary64::spec_plus);
        let sign = one.is_negative() && x.negated().is_negative();
        lemma_nearest_monotone(0, one.value() - x.value(), false, sign);
        lemma_signed(false, 0);
    }
    let w = length.bounded(zero, limit);
    lemma_finite_below(w, limit);
    reveal(Binary64::spec_plus);
    let top = one_units() + bound;
    lemma_pow2_pos(1021);
    lemma_rounds_to_one(top as int);
    lemma_nearest_monotone(x.value() + w.value(), top as int, x.is_negative() && w.is_negative(), false);
}

/// Clamping pulls a rectangle into the unit square.
pub proof fn clamping_pulls_into_the_unit_square(rect: ZoneRect)
    requires
        !rect.x.is_nan(),
        !rect.y.is_nan(),
        !rect.w.is_nan(),
        !rect.h.is_nan(),
    ensures
        ({
            let c = rect.clamped();
            &&& 0 <= c.x.value() && c.right().value() <= one_units()
            &&& 0 <= c.y.value() && c.bottom().value() <= one_units()
            &&& 0 <= c.w.value()
            &&& 0 <= c.h.value()
        }),
{
    lemma_clamped_axis(rect.x, rect.w);
    lemma_clamped_axis(rect.y, rect.h);
}

/// Growing a zone by a distance on every side makes it contain only what is within
/// that distance of it, up to what rounding loses.
pub proof fn inflated_zones_reach_no_further(zone: ZoneRect, d: Binary64, x: Binary64, y: Binary64)
    requires
        zone.is_valid(),
        d.is_finite(),
        0 <= d.value(),
        4 * d.value() <= one_units(),
        zone.inflated(d).contains(x, y),
    ensures
        zone.x.value() - d.value() - slack() <= x.value() < zone.right().value() + d.value() + 8 * slack(),
        zone.y.value() - d.value() - slack() <= y.value() < zone.bottom().value() + d.value() + 8 * slack(),
{
    lemma_valid_zone(zone);
    lemma_inflated_axis(zone.x, zone.w, d);
    lemma_inflated_axis(zone.y, zone.h, d);
}

/// What lies within a distance of a zone, but for what rounding loses, is contained
/// in the zone once it is grown by that distance.
pub proof fn inflated_zones_reach_that_far(zone: ZoneRect, d: Binary64, x: Binary64, y: Binary64)
    requires
        zone.is_valid(),
        d.is_finite(),
        0 <= d.value(),
        4 * d.value() <= one_units(),
        x.is_finite(),
        y.is_finite(),
        zone.x.value() - d.value() + slack() <= x.value() < zone.right().value() + d.value() - 8 * slack(),
        zone.y.value() - d.value() + slack() <= y.value() < zone.bottom().value() + d.value() - 8 * slack(),
    ensures
        zone.inflated(d).contains(x, y),
{
    lemma_valid_zone(zone);
    lemma_inflated_axis(zone.x, zone.w, d);
    lemma_inflated_axis(zone.y, zone.h, d);
}

/// One axis of a zone that is grown.
proof fn lemma_inflated_axis(from: Binary64, length: Binary64, d: Binary64)
    requires
        within(from, length),
        d.is_finite(),
        0 <= d.value(),
        4 * d.value() <= one_units(),
    ensures
        ({
            let both = d.times(Binary64 { bits: crate::rect::TWO });
            let start = from.minus(d);
            let end = start.plus(length.plus(both));
            &&& start.is_finite()
            &&& end.is_finite()
            &&& apart(start.value(), from.value() - d.value()) <= slack()
            &&& apart(end.value(), from.plus(length).value() + d.value()) <= 8 * slack()
        }),
{
    lemma_magnitudes();
    lemma_constants();
    let two = Binary64 { bits: crate::rect::TWO };
    assert(two.value() == 2 * one_units() && two.is_finite()) by {
        lemma2_to64();
        vstd::arithmetic::power2::lemma2_to64_rest();
        assert(scale(crate::rect::TWO as nat) == 1023);
        assert(crate::rect::TWO - 1023 * STEPS == STEPS);
        lemma_pow2_adds(52, 1023);
        lemma_pow2_adds(1, 1074);
    }
    lemma_small_minus(from, d);
    lemma_small_times(d, two);
    let both = d.times(two);
    let one = one_units() as int;
    let s = slack();
    lemma_pow2_pos(1074);
    assert(apart(both.value(), 2 * d.value()) <= 4 * s) by {
        let b = both.value();
        let v = d.value();
        assert(v * (2 * one) == (2 * v) * one) by (nonlinear_arith);
        let off = b - 2 * v;
        assert(b * one - (2 * v) * one == off * one) by (nonlinear_arith)
            requires
                off == b - 2 * v,
        ;
        assert(-(4 * s) <= off <= 4 * s) by (nonlinear_arith)
            requires
                -((4 * s) * one) <= off * one <= (4 * s) * one,
                one > 0,
        ;
    }
    lemma_small_plus(length, both);
    lemma_small_plus(from.minus(d), length.plus(both));
}

/// Whatever the size of an output, even none at all, the span threshold is a finite
/// fraction, at most a quarter.
pub proof fn thresholds_are_fractions(config: ZonesConfig, width: i32, height: i32)
    ensures
        config.threshold(width, height).is_finite(),
        0 <= config.threshold(width, height).value(),
        4 * config.threshold(width, height).value() <= one_units(),
{
    lemma_constants();
    lemma_units_small(0);
    let quarter = Binary64 { bits: QUARTER };
    assert(4 * quarter.value() == one_units() && quarter.is_finite()) by {
        lemma2_to64();
        vstd::arithmetic::power2::lemma2_to64_rest();
        assert(scale(QUARTER as nat) == 1020);
        assert(QUARTER - 1020 * STEPS == STEPS);
        lemma_pow2_adds(52, 1020);
        lemma_pow2_adds(2, 1072);
    }
    if config.spanning {
        let least = if width <= height {
            width
        } else {
            height
        };
        let axis = if least >= 1 {
            least
        } else {
            1
        };
        let distance = Binary64::spec_count(config.adjacent_highlight_distance as u64);
        let length = Binary64::spec_whole(axis);
        crate::precision::lemma_whole(axis);
        lemma_pow2_pos(1074);
        assert(axis * one_units() > 0) by (nonlinear_arith)
            requires
                axis >= 1,
                one_units() > 0,
        ;
        assert(length.code() != 0);
        let n = config.adjacent_highlight_distance as nat;
        crate::precision::lemma_representable(n, 1074);
        lemma_signed(false, rounded(n * one_units(), 1));
        reveal(Binary64::spec_over);
        lemma_rounded_limit(units(distance.code()) * one_units(), units(length.code()));
        lemma_signed(false, rounded(units(distance.code()) * one_units(), units(length.code())));
        let share = distance.over(length);
        assert(!share.is_nan());
        assert(!share.is_negative());
        lemma_finite_below(config.threshold(width, height), quarter);
    }
}

/// The threshold is the configured distance on the smaller side of the output, whichever
/// that is, up to a quarter of it. Without spanning it is nothing.
pub proof fn thresholds_measure_the_smaller_side(config: ZonesConfig, width: i32, height: i32, least: i32)
    requires
        least == width && least <= height || least == height && least <= width,
        least >= 1,
    ensures
        config.threshold(width, height) == config.threshold(height, width),
        !config.spanning ==> config.threshold(width, height).value() == 0,
        config.spanning && 4 * config.adjacent_highlight_distance <= least ==> apart(
            config.threshold(width, height).value() * least,
            config.adjacent_highlight_distance * one_units(),
        ) <= least * slack(),
        config.spanning && 4 * config.adjacent_highlight_distance > least ==> 4 * config.threshold(
            width,
            height,
        ).value() == one_units(),
{
    lemma_constants();
    let one = one_units();
    let quarter = Binary64 { bits: QUARTER };
    assert(4 * quarter.value() == one && quarter.is_finite() && !quarter.is_negative()) by {
        lemma2_to64();
        vstd::arithmetic::power2::lemma2_to64_rest();
        assert(scale(QUARTER as nat) == 1020);
        assert(QUARTER - 1020 * STEPS == STEPS);
        lemma_pow2_adds(52, 1020);
        lemma_pow2_adds(2, 1072);
    }
    let distance = config.adjacent_highlight_distance;
    let q = Binary64::spec_count(distance as u64).over(Binary64::spec_whole(least));
    if config.spanning && 4 * distance <= least {
        let part = distance as i32;
        assert(Binary64::spec_count(distance as u64) == Binary64::spec_whole(part));
        crate::measuring::lemma_share_of(part, least);
        let a = quarter.value();
        assert(distance * one <= a * least) by (nonlinear_arith)
            requires
                4 * a == one,
                4 * distance <= least,
                one > 0,
        ;
        if quarter.below(q) {
            let b = q.value();
            assert(a * least <= b * least) by (nonlinear_arith)
                requires
                    a <= b,
                    least > 0,
            ;
        }
    }
    if config.spanning && 4 * distance > least {
        lemma_over_a_quarter(distance, least);
    }
}

/// What is more than a quarter of a length is at least a quarter of it, rounded.
proof fn lemma_over_a_quarter(distance: u32, length: i32)
    requires
        length >= 1,
        4 * distance > length,
    ensures
        ({
            let q = Binary64::spec_count(distance as u64).over(Binary64::spec_whole(length));
            !q.is_nan() && 4 * q.value() >= one_units()
        }),
{
    let one = one_units();
    let a = Binary64::spec_count(distance as u64);
    let b = Binary64::spec_whole(length);
    let k = distance as nat;
    crate::precision::lemma_whole(length);
    crate::precision::lemma_representable(k, 1074);
    lemma_signed(false, rounded(k * one, 1));
    reveal(Binary64::spec_over);
    lemma_units_small(0);
    lemma_pow2_pos(1074);
    lemma_pow2_pos(1072);
    let d = length as nat * one;
    assert(d > 0) by (nonlinear_arith)
        requires
            d == length as nat * one,
            length >= 1,
            one > 0,
    ;
    let n = (k * one) * one;
    let p = pow2(1072);
    lemma_pow2_adds(2, 1072);
    lemma2_to64();
    let square = one * one;
    let l = length as nat;
    assert(4 * (p * d) == l * square) by (nonlinear_arith)
        requires
            d == l * one,
            4 * p == one,
            square == one * one,
    ;
    assert(4 * n == (4 * k) * square) by (nonlinear_arith)
        requires
            n == (k * one) * one,
            square == one * one,
    ;
    assert(l * square <= (4 * k) * square) by (nonlinear_arith)
        requires
            l <= 4 * k,
    ;
    crate::precision::lemma_rounded_monotone(p * d, n, d);
    crate::rounding::lemma_rounded_scaled(p, 1, d);
    assert(1 * d == d);
    crate::precision::lemma_representable(1, 1072);
    assert(1 * p == p);
    lemma_rounded_limit(n, d);
    lemma_signed(false, rounded(n, d));
    crate::rounding::lemma_units_ordered(rounded(p, 1), rounded(n, d));
}

/// Places that differ by no more than what rounding loses are the same boundary.
pub proof fn lemma_close(a: Binary64, b: Binary64)
    requires
        a.is_finite(),
        b.is_finite(),
        apart(a.value(), b.value()) <= 4 * slack(),
    ensures
        close(a, b),
{
    reveal(close);
    lemma_magnitudes();
    lemma_small_minus(a, b);
    let d = a.minus(b);
    lemma_signed(false, d.code());
    assert(d.absolute().value() == apart(d.value(), 0));
}

/// A boundary that was moved can be moved again from where it was put: zones that
/// ended there end there, and zones that began there begin there.
pub proof fn moved_boundaries_can_be_moved_again(zone: ZoneRect, divider: Divider, to: Binary64)
    requires
        zone.is_valid(),
        !to.is_nan(),
    ensures
        ({
            let at = Divider { axis: divider.axis, position: pinned(to) };
            let after = moved_zone(zone, divider, pinned(to));
            &&& ends_at(zone, divider) ==> ends_at(after, at)
            &&& begins_at(zone, divider) && !ends_at(zone, divider) ==> begins_at(after, at)
        }),
{
    lemma_valid_zone(zone);
    lemma_magnitudes();
    dragged_boundaries_stay_on_screen(to);
    moved_zones_meet(zone, divider, to);
    let at = pinned(to);
    lemma_reach(low(zone, divider.axis), at);
    let after = moved_zone(zone, divider, at);
    if ends_at(zone, divider) {
        lemma_close(high(after, divider.axis), at);
    }
    lemma_close(at, at);
}

/// Removing the boundary along which a zone was split undoes the split: the two
/// halves line up across it, and their union is the zone again, up to what rounding
/// loses.
pub proof fn merging_undoes_splitting(zone: ZoneRect, at: Binary64, axis: Axis)
    requires
        zone.is_valid(),
        !at.is_nan(),
        halves(zone, at, axis) is Some,
    ensures
        ({
            let (first, second) = halves(zone, at, axis)->0;
            let divider = Divider { axis, position: at };
            let whole = first.union(&second);
            &&& ends_at(first, divider)
            &&& continues(first, second, divider)
            &&& low(whole, axis) == low(zone, axis)
            &&& apart(high(whole, axis).value(), high(zone, axis).value()) <= 4 * slack()
            &&& axis == Axis::Vertical ==> whole.y == zone.y && apart(
                whole.bottom().value(),
                zone.bottom().value(),
            ) <= 2 * slack()
            &&& axis == Axis::Horizontal ==> whole.x == zone.x && apart(
                whole.right().value(),
                zone.right().value(),
            ) <= 2 * slack()
        }),
{
    lemma_split_place(zone, at, axis);
    lemma_valid_zone(zone);
    lemma_magnitudes();
    lemma_min_fraction();
    let from = low(zone, axis);
    let to = high(zone, axis);
    if at.value() < from.value() {
        lemma_difference_sign(at, from);
    }
    if to.value() < at.value() {
        lemma_difference_sign(to, at);
    }
    lemma_reach(from, at);
    lemma_reach(at, to);
    let (first, second) = halves(zone, at, axis)->0;
    let min = Binary64 { bits: MIN_FRACTION };
    assert(min.value() <= at.minus(from).value());
    assert(min.value() <= to.minus(at).value());
    lemma_close(high(first, axis), at);
    lemma_close(at, at);
    lemma_close(zone.x, zone.x);
    lemma_close(zone.y, zone.y);
    lemma_close(zone.w, zone.w);
    lemma_close(zone.h, zone.h);
    assert(high(first, axis).value() < high(second, axis).value());
    lemma_reach(from, high(second, axis));
    match axis {
        Axis::Vertical => {
            lemma_reach(zone.y, zone.bottom());
        },
        Axis::Horizontal => {
            lemma_reach(zone.x, zone.right());
        },
    }
}

/// Zones that meet still meet after a boundary moved, if it takes the edges of both
/// or of neither: those at the boundary meet at its new place, and those away from
/// it stay where they were, up to what rounding loses.
pub proof fn moving_keeps_neighbours_together(
    zones: Seq<ZoneRect>,
    divider: Divider,
    to: Binary64,
    i: int,
    j: int,
    gap: int,
)
    requires
        0 <= i < zones.len(),
        0 <= j < zones.len(),
        zones[i].is_valid(),
        zones[j].is_valid(),
        !to.is_nan(),
        apart(high(zones[i], divider.axis).value(), low(zones[j], divider.axis).value()) <= gap,
        ends_at(zones[i], divider) <==> begins_at(zones[j], divider) && !ends_at(zones[j], divider),
    ensures
        ({
            let after = moved(zones, divider, to);
            apart(high(after[i], divider.axis).value(), low(after[j], divider.axis).value()) <= gap + 2 * slack()
        }),
{
    lemma_magnitudes();
    moved_zones_meet(zones[i], divider, to);
    moved_zones_meet(zones[j], divider, to);
}

/// The smallest side that a zone may be left with is a twentieth of the screen, but for
/// what rounding loses.
proof fn lemma_twentieth()
    ensures
        one_units() <= 20 * (Binary64 { bits: MIN_FRACTION }).value() < one_units() + slack(),
{
    lemma2_to64();
    vstd::arithmetic::power2::lemma2_to64_rest();
    assert(scale(MIN_FRACTION as nat) == 1017);
    assert(MIN_FRACTION - 1017 * STEPS == 0x19_9999_9999_999a);
    lemma_pow2_adds(57, 1017);
    lemma_pow2_adds(5, 1017);
    lemma_pow2_pos(1017);
    let p = pow2(1017);
    assert(20 * (0x19_9999_9999_999anat * p) == 0x200_0000_0000_0000nat * p + 8 * p) by (nonlinear_arith);
}

/// A boundary moves exactly where that leaves every zone a twentieth of the screen wide
/// and tall: no side of a zone is left shorter, and where the boundary is held, some side
/// would have been, but for what rounding loses.
pub proof fn moves_leave_every_zone_a_twentieth(zones: Seq<ZoneRect>, divider: Divider, to: Binary64, i: int)
    requires
        0 <= i < zones.len(),
    ensures
        move_result(zones, divider, to) matches Some(after) ==> {
            &&& after.len() == zones.len()
            &&& !after[i].w.is_nan() ==> 20 * after[i].w.value() >= one_units()
            &&& !after[i].h.is_nan() ==> 20 * after[i].h.value() >= one_units()
        },
        move_result(zones, divider, to) is None ==> exists|j: int|
            {
                let zone = #[trigger] moved(zones, divider, to)[j];
                0 <= j < zones.len() && (20 * zone.w.value() < one_units() + slack() || 20 * zone.h.value()
                    < one_units() + slack())
            },
{
    lemma_twentieth();
    lemma_min_fraction();
    let after = moved(zones, divider, to);
    if move_result(zones, divider, to) is Some {
        assert(!crate::dividers::is_sliver(after[i]));
    } else {
        let j = choose|j: int| 0 <= j < zones.len() && crate::dividers::is_sliver(#[trigger] after[j]);
        let zone = after[j];
    }
}

/// One axis of a split: where it is refused.
proof fn lemma_split_axis(from: Binary64, to: Binary64, at: Binary64)
    requires
        from.is_finite(),
        to.is_finite(),
        at.is_finite(),
        apart(at.value() - from.value(), 0) <= 2 * one_units(),
        apart(to.value() - at.value(), 0) <= 2 * one_units(),
    ensures
        ({
            let min = Binary64 { bits: MIN_FRACTION };
            let refused = at.minus(from).below(min) || to.minus(at).below(min);
            &&& !refused ==> 20 * (at.value() - from.value()) >= one_units() - 20 * slack() && 20 * (to.value()
                - at.value()) >= one_units() - 20 * slack()
            &&& refused ==> 20 * (at.value() - from.value()) < one_units() + 21 * slack() || 20 * (to.value()
                - at.value()) < one_units() + 21 * slack()
        }),
{
    lemma_twentieth();
    lemma_min_fraction();
    lemma_small_minus(at, from);
    lemma_small_minus(to, at);
}

/// A zone is split exactly where that leaves both halves a twentieth of the screen: side
/// by side if the boundary is upright, one above the other if it is level. But for what
/// rounding loses.
pub proof fn splits_leave_both_halves_a_twentieth(zone: ZoneRect, at: Binary64, axis: Axis)
    requires
        zone.is_valid(),
        at.is_finite(),
        0 <= at.value() <= one_units(),
    ensures
        ({
            let (from, to) = if axis == Axis::Vertical {
                (zone.x.value(), zone.right().value())
            } else {
                (zone.y.value(), zone.bottom().value())
            };
            &&& halves(zone, at, axis) is Some ==> 20 * (at.value() - from) >= one_units() - 20 * slack() && 20 * (to
                - at.value()) >= one_units() - 20 * slack()
            &&& halves(zone, at, axis) is None ==> 20 * (at.value() - from) < one_units() + 21 * slack() || 20 * (to
                - at.value()) < one_units() + 21 * slack()
        }),
{
    lemma_valid_zone(zone);
    lemma_magnitudes();
    lemma_split_axis(zone.x, zone.right(), at);
    lemma_split_axis(zone.y, zone.bottom(), at);
}

/// A boundary follows the cursor as long as it stays a twentieth of the screen away from
/// its edges, and stops there otherwise.
pub proof fn boundaries_follow_the_cursor(to: Binary64)
    requires
        to.is_finite(),
    ensures
        one_units() + slack() <= 20 * to.value() <= 19 * one_units() - 40 * slack() ==> pinned(to) == to,
        20 * to.value() <= one_units() ==> one_units() <= 20 * pinned(to).value() < one_units() + slack(),
        20 * to.value() >= 19 * one_units() + 20 * slack() ==> apart(
            20 * pinned(to).value(),
            19 * one_units() as int,
        ) <= 40 * slack(),
{
    lemma_twentieth();
    lemma_min_fraction();
    lemma_constants();
    lemma_magnitudes();
    lemma_small_minus(Binary64 { bits: ONE }, Binary64 { bits: MIN_FRACTION });
}

/// One axis of a rectangle that is clamped, within the unit square.
proof fn lemma_clamped_within(from: Binary64, length: Binary64)
    requires
        from.is_finite(),
        length.is_finite(),
        0 <= from.value(),
        0 <= length.value(),
        from.value() + length.value() <= one_units(),
    ensures
        ({
            let zero = Binary64 { bits: ZERO };
            let one = Binary64 { bits: ONE };
            let start = from.bounded(zero, one);
            start == from && length.bounded(zero, one.minus(start)) == length
        }),
{
    lemma_constants();
    let one = Binary64 { bits: ONE };
    lemma_negated(from);
    lemma_units_small(0);
    crate::precision::lemma_plus_monotone(length, Binary64 { bits: ZERO }, one, from.negated());
    crate::precision::lemma_plus_exact(length, Binary64 { bits: ZERO }, length.code());
}

/// Clamping leaves a rectangle alone that lies within the unit square.
pub proof fn clamping_leaves_what_lies_within(rect: ZoneRect)
    requires
        rect.x.is_finite(),
        rect.y.is_finite(),
        rect.w.is_finite(),
        rect.h.is_finite(),
        0 <= rect.x.value(),
        0 <= rect.y.value(),
        0 <= rect.w.value(),
        0 <= rect.h.value(),
        rect.x.value() + rect.w.value() <= one_units(),
        rect.y.value() + rect.h.value() <= one_units(),
    ensures
        rect.clamped() == rect,
{
    lemma_clamped_within(rect.x, rect.w);
    lemma_clamped_within(rect.y, rect.h);
}

} // verus!
