//! The number badge drawn on each zone while a zone-snapping drag is active.

use crate::pixel::{half, held, PixelPoint, PixelRect, PixelSize};
use crate::conversion::saturated;
use crate::pixel::halved;
use crate::text::{decimal, digits};
use vstd::prelude::*;

verus! {

/// Side length of the badge, in logical pixels.
pub const BADGE_SIZE: i32 = 48;

/// A badge on a zone, created for the duration of a drag.
#[derive(Debug)]
pub struct ZoneNumber {
    pub elem: ZoneNumberInternal,
}

/// What a badge shows.
#[derive(Debug)]
pub struct ZoneNumberInternal {
    pub number: usize,
}

impl ZoneNumber {
    pub fn new(number: usize) -> (r: ZoneNumber)
        ensures
            r.elem.number == number,
    {
        ZoneNumber { elem: ZoneNumberInternal { number } }
    }

    /// Size of the badge, so callers can centre it within a zone.
    pub fn size(&self) -> (r: PixelSize)
        ensures
            r == (PixelSize { w: BADGE_SIZE, h: BADGE_SIZE }),
    {
        PixelSize { w: BADGE_SIZE, h: BADGE_SIZE }
    }
}

impl ZoneNumberInternal {
    /// The text on the badge.
    pub fn label(&self) -> (r: String)
        ensures
            r@ == digits(self.number as nat),
    {
        decimal(self.number as u128)
    }
}

/// Where a badge is drawn that stands in the middle of a zone.
pub open spec fn badge_place(zone: PixelRect) -> PixelPoint {
    PixelPoint {
        x: saturated(zone.loc.x + halved(zone.size.w - BADGE_SIZE)) as i32,
        y: saturated(zone.loc.y + halved(zone.size.h - BADGE_SIZE)) as i32,
    }
}

/// Where a badge is drawn that stands in the middle of a zone.
pub fn badge_location(badge: &ZoneNumber, zone: PixelRect) -> (r: PixelPoint)
    ensures
        r == badge_place(zone),
{
    let size = badge.size();
    PixelPoint {
        x: held(zone.loc.x as i64 + half(zone.size.w as i64 - size.w as i64)),
        y: held(zone.loc.y as i64 + half(zone.size.h as i64 - size.h as i64)),
    }
}

} // verus!
