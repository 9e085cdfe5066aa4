//! Zone-snapped and corner-snapped windows line up, and so do neighbouring zones.

use crate::binary64::{one_units, Binary64};
use crate::pixel::{halved, zone_extent, zone_pixels, PixelRect, TiledCorners};
use crate::precision::{
    apart, lemma_minus_near, lemma_representable, lemma_round_whole, lemma_times_exact, lemma_whole,
};
use crate::rect::{ZoneRect, EPSILON, HALF, ONE, ZERO};
use crate::rounding::{lemma_units_small, rounded, scale, units, STEPS};
use vstd::arithmetic::power2::{lemma2_to64, lemma_pow2_adds, lemma_pow2_pos, lemma_pow2_strictly_increases, pow2};
use vstd::prelude::*;

verus! {

/// The share of an output that a half or a quarter is.
pub open spec fn share_of(corner: TiledCorners) -> ZoneRect {
    let zero = Binary64 { bits: ZERO };
    let half = Binary64 { bits: HALF };
    let one = Binary64 { bits: ONE };
    let (x, w) = match corner {
        TiledCorners::Top | TiledCorners::Bottom => (zero, one),
        TiledCorners::Left | TiledCorners::TopLeft | TiledCorners::BottomLeft => (zero, half),
        TiledCorners::Right | TiledCorners::TopRight | TiledCorners::BottomRight => (half, half),
    };
    let (y, h) = match corner {
        TiledCorners::Left | TiledCorners::Right => (zero, one),
        TiledCorners::Top | TiledCorners::TopLeft | TiledCorners::TopRight => (zero, half),
        TiledCorners::Bottom | TiledCorners::BottomLeft | TiledCorners::BottomRight => (half, half),
    };
    ZoneRect { x, y, w, h }
}

/// Values of the constants, in units.
pub proof fn lemma_constants()
    ensures
        (Binary64 { bits: ZERO }).value() == 0,
        (Binary64 { bits: ZERO }).is_finite(),
        (Binary64 { bits: HALF }).value() == pow2(1073),
        (Binary64 { bits: HALF }).is_finite(),
        (Binary64 { bits: ONE }).value() == pow2(1074),
        (Binary64 { bits: ONE }).is_finite(),
        pow2(1054) < (Binary64 { bits: EPSILON }).value() < pow2(1055),
        (Binary64 { bits: EPSILON }).is_finite(),
        pow2(1074) == 2 * pow2(1073),
        pow2(1055) < pow2(1073),
        0 < pow2(1073),
{
    lemma_units_small(0);
    lemma_pow2_adds(52, 1021);
    lemma_pow2_adds(52, 1022);
    lemma_pow2_adds(52, 1002);
    lemma_pow2_adds(1, 1073);
    lemma_pow2_adds(1, 1054);
    lemma_pow2_strictly_increases(1055, 1073);
    lemma_pow2_pos(1002);
    lemma_pow2_pos(1073);
    lemma2_to64();
    vstd::arithmetic::power2::lemma2_to64_rest();
    assert(scale(HALF as nat) == 1021);
    assert(scale(ONE as nat) == 1022);
    assert(scale(EPSILON as nat) == 1002);
    assert(HALF - 1021 * STEPS == STEPS);
    assert(ONE - 1022 * STEPS == STEPS);
    assert(EPSILON - 1002 * STEPS == 0x10_c6f7_a0b5_ed8d);
    let p = pow2(1002);
    assert(0x10_0000_0000_0000nat * p < 0x10_c6f7_a0b5_ed8dnat * p < 0x20_0000_0000_0000nat * p) by (nonlinear_arith)
        requires
            p > 0,
    ;
    assert(pow2(52) == STEPS);
    assert(0x20_0000_0000_0000nat * p == 2 * (0x10_0000_0000_0000nat * p)) by (nonlinear_arith);
}

/// Where nothing, half and all of an even number of pixels come to lie.
proof fn lemma_shares_in_pixels(size: i32)
    requires
        size >= 0,
        size % 2 == 0,
    ensures
        (Binary64 { bits: ZERO }).times(Binary64::spec_whole(size)).round_i32() == 0,
        (Binary64 { bits: HALF }).times(Binary64::spec_whole(size)).round_i32() == size / 2,
        (Binary64 { bits: ONE }).times(Binary64::spec_whole(size)).round_i32() == size,
{
    lemma_constants();
    lemma_whole(size);
    let zero = Binary64 { bits: ZERO };
    let half = Binary64 { bits: HALF };
    let one = Binary64 { bits: ONE };
    let w = Binary64::spec_whole(size);
    let big = one_units();
    let h = pow2(1073);
    let k = (size / 2) as nat;
    lemma_units_small(0);
    assert(units(zero.code()) * units(w.code()) == units(0) * big) by (nonlinear_arith)
        requires
            units(zero.code()) == 0,
            units(0) == 0,
    ;
    lemma_times_exact(zero, w, 0);
    lemma_round_whole(zero.times(w), 0);
    lemma_representable(k, 1074);
    let code = rounded(k * pow2(1074), 1);
    assert(units(half.code()) * units(w.code()) == units(code) * big) by (nonlinear_arith)
        requires
            units(half.code()) == h,
            units(w.code()) == size * big,
            units(code) == k * big,
            big == 2 * h,
            size == 2 * k,
    ;
    lemma_times_exact(half, w, code);
    lemma_round_whole(half.times(w), (size / 2) as i32);
    assert(units(one.code()) * units(w.code()) == units(w.code()) * big) by (nonlinear_arith)
        requires
            units(one.code()) == big,
    ;
    lemma_times_exact(one, w, w.code());
    lemma_round_whole(one.times(w), size);
}

/// Nothing, a half and one, added up.
proof fn lemma_share_sums()
    ensures
        (Binary64 { bits: ZERO }).plus(Binary64 { bits: HALF }) == (Binary64 { bits: HALF }),
        (Binary64 { bits: HALF }).plus(Binary64 { bits: HALF }) == (Binary64 { bits: ONE }),
        (Binary64 { bits: ZERO }).plus(Binary64 { bits: ONE }) == (Binary64 { bits: ONE }),
{
    lemma_constants();
    reveal(Binary64::spec_plus);
    crate::rounding::lemma_rounded_exact(HALF as nat);
    crate::rounding::lemma_rounded_exact(ONE as nat);
}

/// Which of nothing, a half and one lie against an end of the axis.
proof fn lemma_share_ends()
    ensures
        (Binary64 { bits: ZERO }).at_most(Binary64 { bits: EPSILON }),
        !(Binary64 { bits: HALF }).at_most(Binary64 { bits: EPSILON }),
        !(Binary64 { bits: ONE }).minus(Binary64 { bits: EPSILON }).at_most(Binary64 { bits: HALF }),
        (Binary64 { bits: ONE }).minus(Binary64 { bits: EPSILON }).at_most(Binary64 { bits: ONE }),
{
    lemma_constants();
    let one = Binary64 { bits: ONE };
    let eps = Binary64 { bits: EPSILON };
    lemma_pow2_strictly_increases(1074, 1990);
    lemma_minus_near(one, eps);
    lemma_pow2_adds(53, 1021);
    lemma_power_of_steps();
    lemma_pow2_strictly_increases(1021, 1054);
    lemma_pow2_strictly_increases(1055, 1072);
    lemma_pow2_adds(1, 1072);
    lemma2_to64();
    let off = apart(one.minus(eps).value(), one.value() - eps.value());
    let slack = pow2(1021);
    assert(off <= slack) by (nonlinear_arith)
        requires
            2 * STEPS * off <= 2 * STEPS * slack,
    ;
}

proof fn lemma_power_of_steps()
    ensures
        pow2(53) == 2 * STEPS,
{
    lemma2_to64();
    vstd::arithmetic::power2::lemma2_to64_rest();
}

/// Zone geometry matches corner geometry on areas of even size, for every gap, so
/// that zone-snapped and corner-snapped windows line up.
pub proof fn zone_geometry_matches_corner_geometry(corner: TiledCorners, area: PixelRect, gaps: (i32, i32))
    requires
        area.size.w >= 0,
        area.size.h >= 0,
        area.size.w % 2 == 0,
        area.size.h % 2 == 0,
    ensures
        zone_pixels(share_of(corner), area, gaps.1) == corner.relative_geometry(area, gaps),
{
    lemma_shares_in_pixels(area.size.w);
    lemma_shares_in_pixels(area.size.h);
    lemma_share_sums();
    lemma_share_ends();
}

/// Two zones that share an edge within the area are exactly one gutter apart, twice
/// the half of the gap, wherever the edge is rounded to.
pub proof fn neighbours_share_one_gutter(
    low: Binary64,
    edge: Binary64,
    high: Binary64,
    origin: int,
    size: i32,
    gap: int,
)
    requires
        !edge.at_most(Binary64 { bits: EPSILON }),
        !(Binary64 { bits: ONE }).minus(Binary64 { bits: EPSILON }).at_most(edge),
    ensures
        ({
            let first = zone_extent(low, edge, origin, size, gap);
            let second = zone_extent(edge, high, origin, size, gap);
            second.start - (first.start + first.length) == 2 * halved(gap)
        }),
{
}

/// A zone that ends with its area reaches the area's far edge on every size, odd
/// ones too, but for the gap.
pub proof fn zones_reach_the_far_edge(low: Binary64, origin: int, size: i32, gap: int)
    requires
        size >= 0,
    ensures
        ({
            let extent = zone_extent(low, Binary64 { bits: ONE }, origin, size, gap);
            extent.start + extent.length == origin + size - gap
        }),
{
    lemma_share_ends();
    lemma_constants();
    lemma_whole(size);
    let one = Binary64 { bits: ONE };
    let w = Binary64::spec_whole(size);
    let big = one_units();
    assert(units(one.code()) * units(w.code()) == units(w.code()) * big) by (nonlinear_arith)
        requires
            units(one.code()) == big,
    ;
    lemma_times_exact(one, w, w.code());
    lemma_round_whole(one.times(w), size);
}

} // verus!
