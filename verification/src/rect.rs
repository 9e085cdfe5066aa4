//! Rectangles in fractions of an output.

use crate::binary64::{lemma_plus_zero, lemma_times_number, Binary64};
use vstd::prelude::*;

verus! {

/// The bits of 0.
pub const ZERO: u64 = 0;

/// The bits of 0.25.
pub const QUARTER: u64 = 0x3fd0_0000_0000_0000;

/// The bits of 0.5.
pub const HALF: u64 = 0x3fe0_0000_0000_0000;

/// The bits of 1.
pub const ONE: u64 = 0x3ff0_0000_0000_0000;

/// The bits of 2.
pub const TWO: u64 = 0x4000_0000_0000_0000;

/// The bits of 1e-6, the tolerance used when comparing edges for adjacency.
pub const EPSILON: u64 = 0x3eb0_c6f7_a0b5_ed8d;

/// A rectangle in fractional output coordinates: `0..=1` on both axes.
#[derive(Clone, Copy, Debug, PartialEq)]
pub struct ZoneRect {
    pub x: Binary64,
    pub y: Binary64,
    pub w: Binary64,
    pub h: Binary64,
}

/// The number with these bits.
pub fn fixed(bits: u64) -> (r: Binary64)
    ensures
        r == (Binary64 { bits }),
{
    Binary64 { bits }
}

impl ZoneRect {
    pub open spec fn spec_right(&self) -> Binary64 {
        self.x.plus(self.w)
    }

    pub open spec fn spec_bottom(&self) -> Binary64 {
        self.y.plus(self.h)
    }

    pub open spec fn spec_area(&self) -> Binary64 {
        self.w.times(self.h)
    }

    /// Finite, of positive extent, and within the unit square up to the
    /// tolerance.
    pub open spec fn spec_is_valid(&self) -> bool {
        let eps = Binary64 { bits: EPSILON };
        let far = (Binary64 { bits: ONE }).plus(eps);
        &&& self.x.is_finite()
        &&& self.y.is_finite()
        &&& self.w.is_finite()
        &&& self.h.is_finite()
        &&& eps.below(self.w)
        &&& eps.below(self.h)
        &&& eps.negated().at_most(self.x)
        &&& eps.negated().at_most(self.y)
        &&& self.right().at_most(far)
        &&& self.bottom().at_most(far)
    }

    /// The left and upper edge belong to the rectangle, the right and lower edge
    /// do not.
    pub open spec fn spec_contains(&self, x: Binary64, y: Binary64) -> bool {
        &&& self.x.at_most(x)
        &&& x.below(self.right())
        &&& self.y.at_most(y)
        &&& y.below(self.bottom())
    }

    pub open spec fn spec_clamped(&self) -> ZoneRect {
        let zero = Binary64 { bits: ZERO };
        let one = Binary64 { bits: ONE };
        let x = self.x.bounded(zero, one);
        let y = self.y.bounded(zero, one);
        ZoneRect { x, y, w: self.w.bounded(zero, one.minus(x)), h: self.h.bounded(zero, one.minus(y)) }
    }

    pub open spec fn spec_inflated(&self, d: Binary64) -> ZoneRect {
        let both = d.times(Binary64 { bits: TWO });
        ZoneRect { x: self.x.minus(d), y: self.y.minus(d), w: self.w.plus(both), h: self.h.plus(both) }
    }

    pub open spec fn spec_union(&self, other: &ZoneRect) -> ZoneRect {
        let x = self.x.least(other.x);
        let y = self.y.least(other.y);
        ZoneRect {
            x,
            y,
            w: self.right().greatest(other.right()).minus(x),
            h: self.bottom().greatest(other.bottom()).minus(y),
        }
    }

    pub open spec fn spec_overlaps(&self, other: &ZoneRect) -> bool {
        &&& self.x.below(other.right())
        &&& other.x.below(self.right())
        &&& self.y.below(other.bottom())
        &&& other.y.below(self.bottom())
    }

    pub fn new(x: Binary64, y: Binary64, w: Binary64, h: Binary64) -> (r: Self)
        ensures
            r == (ZoneRect { x, y, w, h }),
    {
        ZoneRect { x, y, w, h }
    }

    #[verifier::when_used_as_spec(spec_right)]
    pub fn right(&self) -> (r: Binary64)
        ensures
            r == self.spec_right(),
    {
        self.x.plus(self.w)
    }

    #[verifier::when_used_as_spec(spec_bottom)]
    pub fn bottom(&self) -> (r: Binary64)
        ensures
            r == self.spec_bottom(),
    {
        self.y.plus(self.h)
    }

    #[verifier::when_used_as_spec(spec_area)]
    pub fn area(&self) -> (r: Binary64)
        ensures
            r == self.spec_area(),
    {
        self.w.times(self.h)
    }

    /// A zone is usable if it is finite, has positive extent, and lies within the
    /// unit square up to the tolerance.
    #[verifier::when_used_as_spec(spec_is_valid)]
    pub fn is_valid(&self) -> (r: bool)
        ensures
            r == self.spec_is_valid(),
    {
        let eps = fixed(EPSILON);
        let far = fixed(ONE).plus(eps);
        self.x.is_finite() && self.y.is_finite() && self.w.is_finite() && self.h.is_finite() && eps.below(self.w)
            && eps.below(self.h) && eps.negated().at_most(self.x) && eps.negated().at_most(self.y)
            && self.right().at_most(far) && self.bottom().at_most(far)
    }

    /// Clamp into the unit square, preserving positive extent where possible.
    #[verifier::when_used_as_spec(spec_clamped)]
    pub fn clamped(&self) -> (r: Self)
        requires
            !self.x.is_nan(),
            !self.y.is_nan(),
        ensures
            r == self.spec_clamped(),
    {
        let x = self.x.bounded(fixed(ZERO), fixed(ONE));
        let y = self.y.bounded(fixed(ZERO), fixed(ONE));
        ZoneRect {
            x,
            y,
            w: self.w.bounded(fixed(ZERO), fixed(ONE).minus(x)),
            h: self.h.bounded(fixed(ZERO), fixed(ONE).minus(y)),
        }
    }

    #[verifier::when_used_as_spec(spec_contains)]
    pub fn contains(&self, x: Binary64, y: Binary64) -> (r: bool)
        ensures
            r == self.spec_contains(x, y),
    {
        self.x.at_most(x) && x.below(self.right()) && self.y.at_most(y) && y.below(self.bottom())
    }

    /// Grow by `d` on every side. Used for shared-edge span detection: a
    /// neighbouring zone's inflated rect contains the cursor exactly when the
    /// cursor is within `d` of their shared edge.
    #[verifier::when_used_as_spec(spec_inflated)]
    pub fn inflated(&self, d: Binary64) -> (r: Self)
        ensures
            r == self.spec_inflated(d),
    {
        let both = d.times(fixed(TWO));
        ZoneRect { x: self.x.minus(d), y: self.y.minus(d), w: self.w.plus(both), h: self.h.plus(both) }
    }

    /// Smallest rectangle containing both. This is what a multi-zone span
    /// resolves to.
    #[verifier::when_used_as_spec(spec_union)]
    pub fn union(&self, other: &Self) -> (r: Self)
        ensures
            r == self.spec_union(other),
    {
        let x = self.x.least(other.x);
        let y = self.y.least(other.y);
        ZoneRect {
            x,
            y,
            w: self.right().greatest(other.right()).minus(x),
            h: self.bottom().greatest(other.bottom()).minus(y),
        }
    }

    #[verifier::when_used_as_spec(spec_overlaps)]
    pub fn overlaps(&self, other: &Self) -> (r: bool)
        ensures
            r == self.spec_overlaps(other),
    {
        self.x.below(other.right()) && other.x.below(self.right()) && self.y.below(other.bottom()) && other.y.below(
            self.bottom(),
        )
    }
}

/// A rectangle that contains a point has an area.
pub proof fn lemma_area_of_container(z: ZoneRect, x: Binary64, y: Binary64)
    requires
        z.contains(x, y),
    ensures
        !z.area().is_nan(),
{
    reveal(Binary64::spec_plus);
    if z.w.code() == 0 {
        lemma_plus_zero(z.x, z.w);
    }
    if z.h.code() == 0 {
        lemma_plus_zero(z.y, z.h);
    }
    lemma_times_number(z.w, z.h);
}

} // verus!
