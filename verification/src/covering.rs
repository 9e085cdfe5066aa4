//! What it means that a layout is tiled, and what that says of its area.

use crate::binary64::one_units;
use crate::counting::{areas, disjoint, is_covered, lemma_covering_area, lemma_disjoint_area, Patch};
use crate::dividers::{high, low, Axis};
use crate::precision::{apart, lemma_small_times, slack};
use crate::rect::ZoneRect;
use crate::tolerance::{lemma_magnitudes, lemma_valid_zone, tolerance};
use vstd::arithmetic::power2::lemma_pow2_pos;
use vstd::prelude::*;

verus! {

/// Whether a zone ends before another one begins, up to a distance.
pub open spec fn beside(a: ZoneRect, b: ZoneRect, axis: Axis, off: int) -> bool {
    high(a, axis).value() <= low(b, axis).value() + off
}

/// Whether one of two zones ends before the other one begins, up to a distance.
pub open spec fn separate_across(a: ZoneRect, b: ZoneRect, axis: Axis, off: int) -> bool {
    beside(a, b, axis, off) || beside(b, a, axis, off)
}

/// Whether two zones do not overlap, up to a distance.
pub open spec fn separate(a: ZoneRect, b: ZoneRect, off: int) -> bool {
    separate_across(a, b, Axis::Vertical, off) || separate_across(a, b, Axis::Horizontal, off)
}

/// Whether no two zones overlap, up to a distance.
pub open spec fn without_overlaps(zones: Seq<ZoneRect>, off: int) -> bool {
    forall|i: int, j: int|
        #![trigger zones[i], zones[j]]
        0 <= i < zones.len() && 0 <= j < zones.len() && i != j ==> separate(zones[i], zones[j], off)
}

/// Whether a zone holds a place across an axis, up to a distance.
pub open spec fn holds_across(zone: ZoneRect, axis: Axis, at: int, off: int) -> bool {
    low(zone, axis).value() - off <= at < high(zone, axis).value() + off
}

/// Whether a zone holds a point, up to a distance.
pub open spec fn holds_point(zone: ZoneRect, x: int, y: int, off: int) -> bool {
    holds_across(zone, Axis::Vertical, x, off) && holds_across(zone, Axis::Horizontal, y, off)
}

/// Whether one of some zones holds a point, up to a distance.
pub open spec fn is_reached(zones: Seq<ZoneRect>, x: int, y: int, off: int) -> bool {
    exists|i: int| 0 <= i < zones.len() && holds_point(#[trigger] zones[i], x, y, off)
}

/// Whether the zones leave no gap on the screen, up to a distance.
pub open spec fn without_gaps(zones: Seq<ZoneRect>, off: int) -> bool {
    forall|x: int, y: int|
        0 <= x < one_units() && 0 <= y < one_units() ==> #[trigger] is_reached(zones, x, y, off)
}

/// Whether a zone lies on the screen, up to a distance.
pub open spec fn is_on_screen(zone: ZoneRect, off: int) -> bool {
    &&& -off <= low(zone, Axis::Vertical).value()
    &&& high(zone, Axis::Vertical).value() <= one_units() + off
    &&& -off <= low(zone, Axis::Horizontal).value()
    &&& high(zone, Axis::Horizontal).value() <= one_units() + off
}

/// Whether a layout is tiled, up to a distance: its zones lie on the screen, leave
/// no gap and do not overlap.
pub open spec fn is_tiled(zones: Seq<ZoneRect>, off: int) -> bool {
    &&& forall|i: int| 0 <= i < zones.len() ==> is_on_screen(#[trigger] zones[i], off)
    &&& without_gaps(zones, off)
    &&& without_overlaps(zones, off)
}

/// Whether every zone of a layout is usable.
pub open spec fn all_valid(zones: Seq<ZoneRect>) -> bool {
    forall|i: int| 0 <= i < zones.len() ==> (#[trigger] zones[i]).is_valid()
}

/// The areas of the zones of a layout, added up, in units.
pub open spec fn area_sum(zones: Seq<ZoneRect>) -> int
    decreases zones.len(),
{
    if zones.len() == 0 {
        0
    } else {
        area_sum(zones.drop_last()) + zones.last().area().value()
    }
}

/// Zones that are separate do not overlap.
pub proof fn separate_zones_do_not_overlap(a: ZoneRect, b: ZoneRect)
    requires
        separate(a, b, 0),
    ensures
        !a.overlaps(&b),
{
}

/// A zone grown on every side.
spec fn grown(zone: ZoneRect, off: int) -> Patch {
    Patch {
        left: zone.x.value() - off,
        right: zone.right().value() + off,
        top: zone.y.value() - off,
        bottom: zone.bottom().value() + off,
    }
}

/// A zone without what another one may overlap.
spec fn trimmed(zone: ZoneRect, off: int) -> Patch {
    Patch {
        left: zone.x.value() + off,
        right: zone.right().value(),
        top: zone.y.value() + off,
        bottom: zone.bottom().value(),
    }
}

spec fn all_grown(zones: Seq<ZoneRect>, off: int) -> Seq<Patch> {
    Seq::new(zones.len(), |i: int| grown(zones[i], off))
}

spec fn all_trimmed(zones: Seq<ZoneRect>, off: int) -> Seq<Patch> {
    Seq::new(zones.len(), |i: int| trimmed(zones[i], off))
}

/// What a little more or less on every side adds to or takes from a product.
proof fn lemma_products(big: int, tall: int, w: int, h: int, area: int, off: int, one: int)
    requires
        0 < off,
        32 * off <= one,
        0 <= big <= one + 2 * off,
        0 <= tall <= one + 2 * off,
        -off <= big - w <= off,
        -off <= tall - h <= off,
        -((4 * off) * one) <= area * one - w * h <= (4 * off) * one,
    ensures
        (big + 2 * off) * (tall + 2 * off) <= (area + 12 * off) * one,
        (big - off) * (tall - off) >= (area - 12 * off) * one,
{
    let p = big - w;
    let q = tall - h;
    assert(big * tall == w * h + w * q + p * tall) by (nonlinear_arith)
        requires
            p == big - w,
            q == tall - h,
    ;
    let b = one + 3 * off;
    assert(-(off * b) <= w * q <= off * b) by (nonlinear_arith)
        requires
            -off <= w <= b,
            off <= b,
            -off <= q <= off,
            off > 0,
    ;
    assert(-(off * b) <= p * tall <= off * b) by (nonlinear_arith)
        requires
            0 <= tall <= b,
            -off <= p <= off,
            off > 0,
    ;
    let s = big + tall;
    assert((big + 2 * off) * (tall + 2 * off) == big * tall + 2 * (off * s) + 4 * (off * off)) by (nonlinear_arith)
        requires
            s == big + tall,
    ;
    assert((big - off) * (tall - off) == big * tall - off * s + off * off) by (nonlinear_arith)
        requires
            s == big + tall,
    ;
    assert(0 <= off * s <= off * (2 * one + 4 * off)) by (nonlinear_arith)
        requires
            0 <= s <= 2 * one + 4 * off,
            off > 0,
    ;
    assert(off * (2 * one + 4 * off) == 2 * (off * one) + 4 * (off * off)) by (nonlinear_arith);
    assert(off * b == off * one + 3 * (off * off)) by (nonlinear_arith)
        requires
            b == one + 3 * off,
    ;
    assert(32 * (off * off) <= off * one) by (nonlinear_arith)
        requires
            32 * off <= one,
            off > 0,
    ;
    assert((4 * off) * one == 4 * (off * one)) by (nonlinear_arith);
    assert((area + 12 * off) * one == area * one + 12 * (off * one)) by (nonlinear_arith);
    assert((area - 12 * off) * one == area * one - 12 * (off * one)) by (nonlinear_arith);
    assert(off * off >= 0) by (nonlinear_arith);
}

proof fn lemma_patches_of(zone: ZoneRect, off: int)
    requires
        zone.is_valid(),
        is_on_screen(zone, off),
        slack() <= off,
        2 * off <= tolerance(),
    ensures
        grown(zone, off).lies_in(-2 * off, one_units() + 2 * off),
        grown(zone, off).area() <= (zone.area().value() + 12 * off) * one_units(),
        trimmed(zone, off).lies_in(-off, one_units() + off),
        trimmed(zone, off).area() >= (zone.area().value() - 12 * off) * one_units(),
{
    lemma_valid_zone(zone);
    lemma_magnitudes();
    lemma_small_times(zone.w, zone.h);
    lemma_pow2_pos(1074);
    let one = one_units() as int;
    let s = slack();
    assert((4 * s) * one <= (4 * off) * one) by (nonlinear_arith)
        requires
            s <= off,
            one > 0,
    ;
    lemma_products(
        zone.right().value() - zone.x.value(),
        zone.bottom().value() - zone.y.value(),
        zone.w.value(),
        zone.h.value(),
        zone.area().value(),
        off,
        one,
    );
}

proof fn lemma_patch_areas(zones: Seq<ZoneRect>, off: int)
    requires
        all_valid(zones),
        forall|i: int| 0 <= i < zones.len() ==> is_on_screen(#[trigger] zones[i], off),
        slack() <= off,
        2 * off <= tolerance(),
    ensures
        areas(all_grown(zones, off)) <= (area_sum(zones) + (12 * zones.len()) * off) * one_units(),
        areas(all_trimmed(zones, off)) >= (area_sum(zones) - (12 * zones.len()) * off) * one_units(),
    decreases zones.len(),
{
    let one = one_units() as int;
    if zones.len() > 0 {
        let rest = zones.drop_last();
        let last = zones.last();
        assert forall|i: int| 0 <= i < rest.len() implies (#[trigger] rest[i]).is_valid() && is_on_screen(
            rest[i],
            off,
        ) by {
            assert(rest[i] == zones[i]);
        }
        assert(last == zones[zones.len() - 1]);
        lemma_patch_areas(rest, off);
        lemma_patches_of(last, off);
        assert(all_grown(zones, off).drop_last() =~= all_grown(rest, off));
        assert(all_trimmed(zones, off).drop_last() =~= all_trimmed(rest, off));
        let n = rest.len() as int;
        let a = area_sum(rest);
        let b = last.area().value();
        assert((12 * (n + 1)) * off == (12 * n) * off + 12 * off) by (nonlinear_arith);
        let e = (12 * n) * off;
        assert((a + e) * one + (b + 12 * off) * one == (a + b + (e + 12 * off)) * one) by (nonlinear_arith);
        assert((a - e) * one + (b - 12 * off) * one == (a + b - (e + 12 * off)) * one) by (nonlinear_arith);
    } else {
        let n = zones.len() as int;
        let e = (12 * n) * off;
        assert(e == 0) by (nonlinear_arith)
            requires
                n == 0,
                e == (12 * n) * off,
        ;
        assert((0 + e) * one == 0 && (0 - e) * one == 0) by (nonlinear_arith)
            requires
                e == 0,
        ;
    }
}

/// The zones of a tiled layout add up to the whole screen, up to what the zones may
/// overlap or leave between them.
pub proof fn tiled_layouts_cover_the_whole_screen(zones: Seq<ZoneRect>, off: int)
    requires
        all_valid(zones),
        is_tiled(zones, off),
        slack() <= off,
        2 * off <= tolerance(),
    ensures
        apart(area_sum(zones), one_units() as int) <= (12 * zones.len() + 5) * off,
{
    lemma_magnitudes();
    lemma_pow2_pos(1074);
    let one = one_units() as int;
    let n = zones.len() as int;
    lemma_patch_areas(zones, off);
    let more = all_grown(zones, off);
    let less = all_trimmed(zones, off);
    assert forall|i: int| 0 <= i < more.len() implies (#[trigger] more[i]).lies_in(-2 * off, one + 2 * off) by {
        assert(zones[i].is_valid() && is_on_screen(zones[i], off));
        lemma_patches_of(zones[i], off);
    }
    assert forall|i: int| 0 <= i < less.len() implies (#[trigger] less[i]).lies_in(-off, one + off) by {
        assert(zones[i].is_valid() && is_on_screen(zones[i], off));
        lemma_patches_of(zones[i], off);
    }
    assert forall|x: int, y: int| 0 <= x < one && 0 <= y < one implies #[trigger] is_covered(more, x, y) by {
        assert(is_reached(zones, x, y, off));
        let i = choose|i: int| 0 <= i < zones.len() && holds_point(#[trigger] zones[i], x, y, off);
        assert(more[i].holds(x, y));
    }
    lemma_covering_area(more, one, -2 * off, one + 2 * off);
    assert(disjoint(less)) by {
        assert forall|i: int, j: int, x: int, y: int|
            #![trigger less[i].holds(x, y), less[j].holds(x, y)]
            0 <= i < j < less.len() implies !(less[i].holds(x, y) && less[j].holds(x, y)) by {
            assert(separate(zones[i], zones[j], off));
        }
    }
    lemma_disjoint_area(less, -off, one + off);
    let total = area_sum(zones);
    let e = (12 * n) * off;
    let side = one + 2 * off;
    assert(side * side <= (one + 5 * off) * one) by (nonlinear_arith)
        requires
            side == one + 2 * off,
            32 * off <= one,
            off > 0,
    ;
    assert(one <= total + e) by (nonlinear_arith)
        requires
            one * one <= (total + e) * one,
            one > 0,
    ;
    assert(total - e <= one + 5 * off) by (nonlinear_arith)
        requires
            (total - e) * one <= (one + 5 * off) * one,
            one > 0,
    ;
    assert((12 * n + 5) * off == e + 5 * off) by (nonlinear_arith)
        requires
            e == (12 * n) * off,
    ;
}

} // verus!
