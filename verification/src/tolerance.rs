//! What rounding leaves of the geometry: edges that should meet do, up to a few
//! units in the last place, and the tolerance of the model is far above that.

use crate::alignment::lemma_constants;
use crate::binary64::{one_units, Binary64};
use crate::precision::{apart, lemma_plus_monotone, lemma_small_minus, lemma_small_plus, slack};
use crate::rect::{ZoneRect, EPSILON, ONE};
use vstd::arithmetic::power2::{lemma2_to64, lemma_pow2_adds, lemma_pow2_pos, lemma_pow2_strictly_increases, pow2};
use vstd::prelude::*;

verus! {

/// The tolerance, in units.
pub open spec fn tolerance() -> int {
    (Binary64 { bits: EPSILON }).value()
}

/// The most steps over which what rounding loses stays well below the tolerance.
pub open spec fn many() -> nat {
    0x400_0000
}

/// What rounding loses is far below the tolerance, and that far below one.
pub proof fn lemma_magnitudes()
    ensures
        0 < slack(),
        (48 * many() + 64) * slack() < tolerance(),
        16 * slack() < tolerance(),
        16 * tolerance() < one_units(),
        (Binary64 { bits: ONE }).value() == one_units(),
        (Binary64 { bits: ONE }).is_finite(),
        (Binary64 { bits: EPSILON }).is_finite(),
{
    lemma_constants();
    lemma_pow2_pos(1022);
    lemma_pow2_adds(32, 1022);
    lemma_pow2_adds(15, 1059);
    lemma_pow2_adds(4, 1055);
    lemma_pow2_strictly_increases(1059, 1074);
    lemma2_to64();
    let s = slack();
    assert(0x1_0000_0000 * s == pow2(1054));
    assert(16 * s <= (48 * 0x400_0000 + 64) * s) by (nonlinear_arith)
        requires
            s > 0,
    ;
    assert((48 * 0x400_0000 + 64) * s < 0x1_0000_0000 * s) by (nonlinear_arith)
        requires
            s > 0,
    ;
}

/// A length taken from one place to another, added to the first, gives the second
/// again, up to what rounding loses.
pub proof fn lemma_reach(start: Binary64, end: Binary64)
    requires
        start.is_finite(),
        end.is_finite(),
        apart(end.value() - start.value(), 0) <= 2 * one_units(),
        apart(end.value(), 0) + slack() <= 2 * one_units(),
    ensures
        end.minus(start).is_finite(),
        apart(end.minus(start).value(), end.value() - start.value()) <= slack(),
        start.plus(end.minus(start)).is_finite(),
        apart(start.plus(end.minus(start)).value(), end.value()) <= 2 * slack(),
{
    lemma_small_minus(end, start);
    lemma_small_plus(start, end.minus(start));
}

/// What validity says of one axis of a zone.
pub open spec fn within(low: Binary64, length: Binary64) -> bool {
    &&& low.is_finite()
    &&& length.is_finite()
    &&& low.plus(length).is_finite()
    &&& -tolerance() <= low.value()
    &&& tolerance() < length.value()
    &&& low.value() + length.value() <= one_units() + 2 * tolerance()
    &&& low.plus(length).value() <= one_units() + 2 * tolerance()
    &&& apart(low.plus(length).value(), low.value() + length.value()) <= slack()
}

proof fn lemma_within(low: Binary64, length: Binary64)
    requires
        low.is_finite(),
        length.is_finite(),
        (Binary64 { bits: EPSILON }).below(length),
        (Binary64 { bits: EPSILON }).negated().at_most(low),
        low.plus(length).at_most((Binary64 { bits: ONE }).plus(Binary64 { bits: EPSILON })),
    ensures
        within(low, length),
{
    lemma_magnitudes();
    let one = Binary64 { bits: ONE };
    let eps = Binary64 { bits: EPSILON };
    crate::precision::lemma_negated(eps);
    lemma_small_plus(one, eps);
    lemma_small_plus(one, one);
    if low.value() + length.value() > 2 * one_units() {
        lemma_plus_monotone(one, one, low, length);
        assert(false);
    }
    lemma_small_plus(low, length);
}

/// A valid zone lies within the unit square, up to twice the tolerance, and its
/// edges are where they should be, up to what rounding loses.
pub proof fn lemma_valid_zone(zone: ZoneRect)
    requires
        zone.is_valid(),
    ensures
        within(zone.x, zone.w),
        within(zone.y, zone.h),
{
    lemma_within(zone.x, zone.w);
    lemma_within(zone.y, zone.h);
}

} // verus!
