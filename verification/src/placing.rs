//! Zones and pixels agree: where a zone comes to lie on the screen, and which zone a
//! pixel lies in.

use crate::alignment::lemma_constants;
use crate::binary64::{one_units, Binary64};
use crate::layout::{containing, lemma_containing, targets};
use crate::measuring::{lemma_fraction_of, lemma_round_near, lemma_share_of, lemma_slack};
use crate::pixel::{zone_extent, zone_pixels, PixelPoint, PixelRect};
use crate::precision::{apart, lemma_small_minus, slack};
use crate::rect::{ZoneRect, EPSILON, ONE, ZERO};
use crate::rounding::STEPS;
use crate::targeting::near_a_shared_edge_every_neighbour_is_targeted;
use crate::tiling::inflated_zones_reach_that_far;
use crate::tolerance::{lemma_magnitudes, lemma_valid_zone, tolerance, within};
use crate::zones::{fraction_in, ZoneContext, ZoneHit};
use vstd::prelude::*;

verus! {

/// Whether an area is well within what 32 bits can tell.
pub open spec fn is_ordinary(area: PixelRect) -> bool {
    &&& -0x4000_0000 <= area.loc.x <= 0x4000_0000
    &&& -0x4000_0000 <= area.loc.y <= 0x4000_0000
    &&& 0 < area.size.w <= 0x1000_0000
    &&& 0 < area.size.h <= 0x1000_0000
}

/// How far a pixel is from a fraction of a length that it stands for: half a pixel at
/// most, but for what rounding loses.
pub open spec fn is_nearest_pixel(pixel: int, fraction: Binary64, size: int) -> bool {
    2 * apart(pixel * one_units(), fraction.value() * size) <= one_units() + 2 * (size * slack())
}

/// The pixel of an edge.
proof fn lemma_edge(f: Binary64, size: i32)
    requires
        f.is_finite(),
        apart(f.value(), 0) <= 2 * one_units(),
        0 < size <= 0x1000_0000,
    ensures
        is_nearest_pixel(f.times(Binary64::spec_whole(size)).round_i32() as int, f, size as int),
        apart(f.times(Binary64::spec_whole(size)).round_i32() as int, 0) <= 2 * size + 1,
{
    let one = one_units();
    let s = slack();
    lemma_slack();
    lemma_fraction_of(f, size);
    let t = f.times(Binary64::spec_whole(size));
    let x = f.value();
    assert(apart(x * size, 0) <= 2 * one * size) by (nonlinear_arith)
        requires
            apart(x, 0) <= 2 * one,
            size >= 0,
    ;
    assert(2 * one * size + size * s <= 0x7fff_ffff * one) by (nonlinear_arith)
        requires
            0 < size <= 0x1000_0000,
            one == STEPS * s,
            STEPS == 0x10_0000_0000_0000,
            s > 0,
    ;
    lemma_round_near(t);
    let p = t.round_i32() as int;
    assert(apart(p * one, 0) == apart(p, 0) * one) by (nonlinear_arith)
        requires
            one > 0,
    ;
    assert(apart(p, 0) <= 2 * size + 1) by (nonlinear_arith)
        requires
            2 * (apart(p, 0) * one) <= 2 * (2 * one * size + size * s) + one,
            0 < size <= 0x1000_0000,
            one == STEPS * s,
            STEPS == 0x10_0000_0000_0000,
            s > 0,
    ;
}

/// The pixels that a zone takes up on one axis.
proof fn lemma_extent(low: Binary64, length: Binary64, origin: int, size: i32, gap: int)
    requires
        within(low, length),
        0 < size <= 0x1000_0000,
        0 <= gap,
    ensures
        ({
            let high = low.plus(length);
            let e = zone_extent(low, high, origin, size, gap);
            let before = e.start - origin;
            let after = e.start + e.length - origin;
            &&& is_nearest_pixel(
                before - if low.value() <= tolerance() {
                    gap
                } else {
                    gap / 2
                },
                low,
                size as int,
            )
            &&& high.value() >= one_units() - tolerance() + slack() ==> is_nearest_pixel(after + gap, high, size as int)
            &&& high.value() < one_units() - tolerance() - slack() ==> is_nearest_pixel(
                after + gap / 2,
                high,
                size as int,
            )
            &&& apart(before, 0) <= 2 * size + 1 + gap
            &&& apart(after, 0) <= 2 * size + 1 + gap
        }),
{
    lemma_magnitudes();
    lemma_constants();
    let high = low.plus(length);
    lemma_edge(low, size);
    lemma_edge(high, size);
    lemma_small_minus(Binary64 { bits: ONE }, Binary64 { bits: EPSILON });
}

/// Zones are laid out to scale. Each edge of a zone comes to lie on the pixel nearest
/// to its fraction of the area, the gap away from it: all of the gap at an edge of the
/// area, half of it anywhere else.
pub proof fn zones_are_laid_out_to_scale(zone: ZoneRect, area: PixelRect, gap: i32, pixels: PixelRect)
    requires
        zone.is_valid(),
        is_ordinary(area),
        0 <= gap <= 0x1000_0000,
        pixels == zone_pixels(zone, area, gap),
    ensures
        is_nearest_pixel(
            pixels.loc.x - area.loc.x - if zone.x.value() <= tolerance() {
                gap as int
            } else {
                gap as int / 2
            },
            zone.x,
            area.size.w as int,
        ),
        is_nearest_pixel(
            pixels.loc.y - area.loc.y - if zone.y.value() <= tolerance() {
                gap as int
            } else {
                gap as int / 2
            },
            zone.y,
            area.size.h as int,
        ),
        zone.right().value() >= one_units() - tolerance() + slack() ==> is_nearest_pixel(
            pixels.loc.x + pixels.size.w - area.loc.x + gap,
            zone.right(),
            area.size.w as int,
        ),
        zone.right().value() < one_units() - tolerance() - slack() ==> is_nearest_pixel(
            pixels.loc.x + pixels.size.w - area.loc.x + gap as int / 2,
            zone.right(),
            area.size.w as int,
        ),
        zone.bottom().value() >= one_units() - tolerance() + slack() ==> is_nearest_pixel(
            pixels.loc.y + pixels.size.h - area.loc.y + gap,
            zone.bottom(),
            area.size.h as int,
        ),
        zone.bottom().value() < one_units() - tolerance() - slack() ==> is_nearest_pixel(
            pixels.loc.y + pixels.size.h - area.loc.y + gap as int / 2,
            zone.bottom(),
            area.size.h as int,
        ),
{
    lemma_valid_zone(zone);
    lemma_extent(zone.x, zone.w, area.loc.x as int, area.size.w, gap as int);
    lemma_extent(zone.y, zone.h, area.loc.y as int, area.size.h, gap as int);
}

/// Fractions measure the area: the fraction across times the width is the distance
/// from the left of the area, and the fraction down times the height the distance from
/// its top, but for what rounding loses.
pub proof fn fractions_measure_the_area(area: PixelRect, point: PixelPoint)
    requires
        area.contains(point),
    ensures
        fraction_in(area, point) matches Some((fx, fy)) && {
            &&& apart(fx.value() * area.size.w, (point.x - area.loc.x) * one_units()) <= area.size.w * slack()
            &&& apart(fy.value() * area.size.h, (point.y - area.loc.y) * one_units()) <= area.size.h * slack()
        },
{
    lemma_share_of((point.x - area.loc.x) as i32, area.size.w);
    lemma_share_of((point.y - area.loc.y) as i32, area.size.h);
}

/// A pixel between those of two edges is a fraction between those of the edges.
proof fn lemma_between(low: Binary64, high: Binary64, f: Binary64, first: int, last: int, at: int, size: int)
    requires
        0 < size <= 0x1000_0000,
        is_nearest_pixel(first, low, size),
        is_nearest_pixel(last, high, size),
        apart(f.value() * size, at * one_units()) <= size * slack(),
        first < at < last,
    ensures
        low.value() + 8 * slack() < f.value(),
        f.value() + 8 * slack() < high.value(),
{
    lemma_slack();
    let one = one_units() as int;
    let s = slack();
    let a = low.value();
    let b = high.value();
    let c = f.value();
    assert(first * one + one <= at * one) by (nonlinear_arith)
        requires
            first + 1 <= at,
            one > 0,
    ;
    assert(at * one + one <= last * one) by (nonlinear_arith)
        requires
            at + 1 <= last,
            one > 0,
    ;
    if c <= a + 8 * s {
        assert(c * size <= a * size + 8 * (s * size)) by (nonlinear_arith)
            requires
                c <= a + 8 * s,
                size > 0,
        ;
        assert(20 * (size * s) < one) by (nonlinear_arith)
            requires
                0 < size <= 0x1000_0000,
                one == STEPS * s,
                STEPS == 0x10_0000_0000_0000,
                s > 0,
        ;
        assert(s * size == size * s) by (nonlinear_arith);
        assert(false);
    }
    if b <= c + 8 * s {
        assert(b * size <= c * size + 8 * (s * size)) by (nonlinear_arith)
            requires
                b <= c + 8 * s,
                size > 0,
        ;
        assert(20 * (size * s) < one) by (nonlinear_arith)
            requires
                0 < size <= 0x1000_0000,
                one == STEPS * s,
                STEPS == 0x10_0000_0000_0000,
                s > 0,
        ;
        assert(s * size == size * s) by (nonlinear_arith);
        assert(false);
    }
}

/// Where a pixel lies that is within those of a zone without gaps, and neither in
/// its first column nor in its first row.
proof fn lemma_pixel_in_zone(zone: ZoneRect, area: PixelRect, point: PixelPoint)
    requires
        zone.is_valid(),
        is_ordinary(area),
        area.contains(point),
        zone_pixels(zone, area, 0).loc.x < point.x < zone_pixels(zone, area, 0).loc.x + zone_pixels(
            zone,
            area,
            0,
        ).size.w,
        zone_pixels(zone, area, 0).loc.y < point.y < zone_pixels(zone, area, 0).loc.y + zone_pixels(
            zone,
            area,
            0,
        ).size.h,
    ensures
        fraction_in(area, point) matches Some((fx, fy)) && {
            &&& fx.is_finite()
            &&& fy.is_finite()
            &&& zone.x.value() + 8 * slack() < fx.value()
            &&& fx.value() + 8 * slack() < zone.right().value()
            &&& zone.y.value() + 8 * slack() < fy.value()
            &&& fy.value() + 8 * slack() < zone.bottom().value()
        },
{
    lemma_magnitudes();
    lemma_valid_zone(zone);
    lemma_extent(zone.x, zone.w, area.loc.x as int, area.size.w, 0);
    lemma_extent(zone.y, zone.h, area.loc.y as int, area.size.h, 0);
    lemma_edge(zone.right(), area.size.w);
    lemma_edge(zone.bottom(), area.size.h);
    lemma_share_of((point.x - area.loc.x) as i32, area.size.w);
    lemma_share_of((point.y - area.loc.y) as i32, area.size.h);
    let (fx, fy) = fraction_in(area, point)->0;
    let pixels = zone_pixels(zone, area, 0);
    lemma_between(
        zone.x,
        zone.right(),
        fx,
        pixels.loc.x - area.loc.x,
        pixels.loc.x + pixels.size.w - area.loc.x,
        point.x - area.loc.x,
        area.size.w as int,
    );
    lemma_between(
        zone.y,
        zone.bottom(),
        fy,
        pixels.loc.y - area.loc.y,
        pixels.loc.y + pixels.size.h - area.loc.y,
        point.y - area.loc.y,
        area.size.h as int,
    );
}

/// A pixel that lies within those of a zone without gaps lies in the zone, unless it
/// is in the first column or the first row.
pub proof fn pixels_of_a_zone_lie_in_it(zone: ZoneRect, area: PixelRect, point: PixelPoint, pixels: PixelRect)
    requires
        zone.is_valid(),
        is_ordinary(area),
        area.contains(point),
        pixels == zone_pixels(zone, area, 0),
        pixels.loc.x < point.x < pixels.loc.x + pixels.size.w,
        pixels.loc.y < point.y < pixels.loc.y + pixels.size.h,
    ensures
        fraction_in(area, point) matches Some((fx, fy)) && zone.contains(fx, fy),
{
    lemma_slack();
    lemma_valid_zone(zone);
    lemma_pixel_in_zone(zone, area, point);
}

/// A cursor on a pixel that lies within those of a zone without gaps hits that zone,
/// unless it is in the first column or the first row. With a threshold of zero it
/// hits nothing else.
pub proof fn pixels_of_a_zone_hit_it(
    context: ZoneContext,
    i: int,
    point: PixelPoint,
    pixels: PixelRect,
    hit: Option<ZoneHit>,
)
    requires
        is_ordinary(context.area),
        context.area.contains(point),
        context.edge_threshold.is_finite(),
        0 <= context.edge_threshold.value(),
        4 * context.edge_threshold.value() <= one_units(),
        context.layout.zones@.len() <= usize::MAX,
        forall|a: int, b: int|
            #![trigger context.layout.zones@[a], context.layout.zones@[b]]
            0 <= a < b < context.layout.zones@.len() ==> !context.layout.zones@[a].overlaps(
                &context.layout.zones@[b],
            ),
        0 <= i < context.layout.zones@.len(),
        context.layout.zones@[i].is_valid(),
        pixels == zone_pixels(context.layout.zones@[i], context.area, 0),
        pixels.loc.x < point.x < pixels.loc.x + pixels.size.w,
        pixels.loc.y < point.y < pixels.loc.y + pixels.size.h,
        context.hits(point, hit),
    ensures
        hit matches Some(h) && h.zones@.contains(i as usize),
        context.edge_threshold.value() == 0 ==> hit->0.zones@ == seq![i as usize],
{
    let zones = context.layout.zones@;
    let zone = zones[i];
    let d = context.edge_threshold;
    lemma_constants();
    lemma_slack();
    lemma_valid_zone(zone);
    lemma_pixel_in_zone(zone, context.area, point);
    let (fx, fy) = fraction_in(context.area, point)->0;
    assert(zone.contains(fx, fy));
    assert forall|a: int, b: int|
        #![trigger zones[a], zones[b]]
        0 <= a < b < zones.len() implies !(zones[a].contains(fx, fy) && zones[b].contains(fx, fy)) by {
        if zones[a].contains(fx, fy) && zones[b].contains(fx, fy) {
            assert(zones[a].overlaps(&zones[b]));
        }
    }
    let found = match hit {
        Some(h) => Some((h.zones@, h.rect)),
        None => None,
    };
    assert(targets(zones, fx, fy, d, found));
    lemma_containing(zones, zones.len(), fx, fy);
    let strict = containing(zones, zones.len(), fx, fy);
    assert(strict.contains(i as usize));
    assert(strict.len() == 1) by {
        if strict.len() > 1 {
            let s = strict[0];
            let t = strict[1];
            assert(zones[s as int].contains(fx, fy) && zones[t as int].contains(fx, fy));
        }
    }
    assert(strict[0] == i);
    if d.at_most(Binary64 { bits: ZERO }) {
        assert(strict =~= seq![i as usize]);
        assert(strict.contains(i as usize));
    } else {
        inflated_zones_reach_that_far(zone, d, fx, fy);
        near_a_shared_edge_every_neighbour_is_targeted(zones, fx, fy, d, found, i);
    }
}

} // verus!
