//! Rectangles in logical pixels, and the places that a window can be put at.

use crate::binary64::Binary64;
use crate::conversion::saturated;
use crate::rect::{fixed, ZoneRect, EPSILON, ONE};
use vstd::prelude::*;

verus! {

#[derive(Clone, Copy, Debug, PartialEq, Eq, Structural)]
pub struct PixelPoint {
    pub x: i32,
    pub y: i32,
}

#[derive(Clone, Copy, Debug, PartialEq, Eq, Structural)]
pub struct PixelSize {
    pub w: i32,
    pub h: i32,
}

#[derive(Clone, Copy, Debug, PartialEq, Eq, Structural)]
pub struct PixelRect {
    pub loc: PixelPoint,
    pub size: PixelSize,
}

/// The halves and quarters of an output that a window can be snapped to.
#[derive(Clone, Copy, Debug, PartialEq, Eq, Structural)]
pub enum TiledCorners {
    Top,
    TopRight,
    Right,
    BottomRight,
    Bottom,
    BottomLeft,
    Left,
    TopLeft,
}

/// Half of a whole number, towards zero.
pub open spec fn halved(v: int) -> int {
    if v >= 0 {
        v / 2
    } else {
        -((-v) / 2)
    }
}

/// Where a span of pixels begins and how long it is.
pub struct Extent {
    pub start: int,
    pub length: int,
}

/// The pixels from `low` to `high` of an axis that begins at `origin` and is
/// `size` long, without the gap: whole against either end of the axis, half of it
/// anywhere else.
pub open spec fn zone_extent(low: Binary64, high: Binary64, origin: int, size: i32, gap: int) -> Extent {
    let start = origin + low.times(Binary64::spec_whole(size)).round_i32() + if low.at_most(
        Binary64 { bits: EPSILON },
    ) {
        gap
    } else {
        halved(gap)
    };
    let end = origin + high.times(Binary64::spec_whole(size)).round_i32() - if (Binary64 { bits: ONE }).minus(
        Binary64 { bits: EPSILON },
    ).at_most(high) {
        gap
    } else {
        halved(gap)
    };
    Extent { start, length: end - start }
}

/// The rectangle that two extents enclose, held to what 32 bits can tell.
pub open spec fn enclosed(across: Extent, down: Extent) -> PixelRect {
    PixelRect {
        loc: PixelPoint { x: saturated(across.start) as i32, y: saturated(down.start) as i32 },
        size: PixelSize { w: saturated(across.length) as i32, h: saturated(down.length) as i32 },
    }
}

/// Pixels of a zone.
pub open spec fn zone_pixels(rect: ZoneRect, area: PixelRect, gap: i32) -> PixelRect {
    enclosed(
        zone_extent(rect.x, rect.right(), area.loc.x as int, area.size.w, gap as int),
        zone_extent(rect.y, rect.bottom(), area.loc.y as int, area.size.h, gap as int),
    )
}

/// A whole axis, its first half and its second half, without the gaps.
pub open spec fn whole_extent(origin: int, size: int, gap: int) -> Extent {
    Extent { start: origin + gap, length: size - 2 * gap }
}

pub open spec fn first_half(origin: int, size: int, gap: int) -> Extent {
    Extent { start: origin + gap, length: halved(size) - halved(3 * gap) }
}

pub open spec fn second_half(origin: int, size: int, gap: int) -> Extent {
    Extent { start: origin + halved(size) + halved(gap), length: halved(size) - halved(3 * gap) }
}

impl TiledCorners {
    pub open spec fn across(self, area: PixelRect, gap: i32) -> Extent {
        let origin = area.loc.x as int;
        let size = area.size.w as int;
        match self {
            TiledCorners::Top | TiledCorners::Bottom => whole_extent(origin, size, gap as int),
            TiledCorners::Left | TiledCorners::TopLeft | TiledCorners::BottomLeft => first_half(
                origin,
                size,
                gap as int,
            ),
            TiledCorners::Right | TiledCorners::TopRight | TiledCorners::BottomRight => second_half(
                origin,
                size,
                gap as int,
            ),
        }
    }

    pub open spec fn down(self, area: PixelRect, gap: i32) -> Extent {
        let origin = area.loc.y as int;
        let size = area.size.h as int;
        match self {
            TiledCorners::Left | TiledCorners::Right => whole_extent(origin, size, gap as int),
            TiledCorners::Top | TiledCorners::TopLeft | TiledCorners::TopRight => first_half(
                origin,
                size,
                gap as int,
            ),
            TiledCorners::Bottom | TiledCorners::BottomLeft | TiledCorners::BottomRight => second_half(
                origin,
                size,
                gap as int,
            ),
        }
    }

    pub open spec fn spec_relative_geometry(self, area: PixelRect, gaps: (i32, i32)) -> PixelRect {
        enclosed(self.across(area, gaps.1), self.down(area, gaps.1))
    }

    /// Pixels of the half or quarter of an area, with the inner of the two gaps
    /// around it.
    #[verifier::when_used_as_spec(spec_relative_geometry)]
    pub fn relative_geometry(self, area: PixelRect, gaps: (i32, i32)) -> (r: PixelRect)
        ensures
            r == self.spec_relative_geometry(area, gaps),
    {
        let gap: i64 = gaps.1 as i64;
        let x: i64 = area.loc.x as i64;
        let y: i64 = area.loc.y as i64;
        let w: i64 = area.size.w as i64;
        let h: i64 = area.size.h as i64;
        let spread: i64 = half(3 * gap);
        let (left, width) = match self {
            TiledCorners::Top | TiledCorners::Bottom => (x + gap, w - 2 * gap),
            TiledCorners::Left | TiledCorners::TopLeft | TiledCorners::BottomLeft => (
                x + gap,
                half(w) - spread,
            ),
            TiledCorners::Right | TiledCorners::TopRight | TiledCorners::BottomRight => (
                x + half(w) + half(gap),
                half(w) - spread,
            ),
        };
        let (top, height) = match self {
            TiledCorners::Left | TiledCorners::Right => (y + gap, h - 2 * gap),
            TiledCorners::Top | TiledCorners::TopLeft | TiledCorners::TopRight => (
                y + gap,
                half(h) - spread,
            ),
            TiledCorners::Bottom | TiledCorners::BottomLeft | TiledCorners::BottomRight => (
                y + half(h) + half(gap),
                half(h) - spread,
            ),
        };
        PixelRect {
            loc: PixelPoint { x: held(left), y: held(top) },
            size: PixelSize { w: held(width), h: held(height) },
        }
    }
}

impl PixelRect {
    pub open spec fn far_x(self) -> int {
        saturated(self.loc.x + self.size.w)
    }

    pub open spec fn far_y(self) -> int {
        saturated(self.loc.y + self.size.h)
    }

    pub open spec fn spec_contains(self, point: PixelPoint) -> bool {
        self.loc.x <= point.x < self.far_x() && self.loc.y <= point.y < self.far_y()
    }

    pub open spec fn spec_overlaps(self, other: PixelRect) -> bool {
        &&& self.loc.x < other.far_x()
        &&& other.loc.x < self.far_x()
        &&& self.loc.y < other.far_y()
        &&& other.loc.y < self.far_y()
    }

    /// What two rectangles that overlap have in common.
    pub open spec fn common(self, other: PixelRect) -> PixelRect {
        let x = if self.loc.x >= other.loc.x {
            self.loc.x
        } else {
            other.loc.x
        };
        let y = if self.loc.y >= other.loc.y {
            self.loc.y
        } else {
            other.loc.y
        };
        let right = if self.far_x() <= other.far_x() {
            self.far_x()
        } else {
            other.far_x()
        };
        let bottom = if self.far_y() <= other.far_y() {
            self.far_y()
        } else {
            other.far_y()
        };
        PixelRect {
            loc: PixelPoint { x, y },
            size: PixelSize { w: saturated(right - x) as i32, h: saturated(bottom - y) as i32 },
        }
    }

    pub open spec fn spec_touches(self, point: PixelPoint) -> bool {
        self.loc.x <= point.x <= self.far_x() && self.loc.y <= point.y <= self.far_y()
    }

    /// Whether a point lies in the rectangle; its right and lower edge do not
    /// belong to it.
    #[verifier::when_used_as_spec(spec_contains)]
    pub fn contains(self, point: PixelPoint) -> (r: bool)
        ensures
            r == self.spec_contains(point),
    {
        let right: i32 = held(self.loc.x as i64 + self.size.w as i64);
        let bottom: i32 = held(self.loc.y as i64 + self.size.h as i64);
        self.loc.x <= point.x && point.x < right && self.loc.y <= point.y && point.y < bottom
    }

    /// Whether two rectangles have more than an edge in common.
    #[verifier::when_used_as_spec(spec_overlaps)]
    pub fn overlaps(self, other: PixelRect) -> (r: bool)
        ensures
            r == self.spec_overlaps(other),
    {
        let right: i32 = held(self.loc.x as i64 + self.size.w as i64);
        let bottom: i32 = held(self.loc.y as i64 + self.size.h as i64);
        let other_right: i32 = held(other.loc.x as i64 + other.size.w as i64);
        let other_bottom: i32 = held(other.loc.y as i64 + other.size.h as i64);
        self.loc.x < other_right && other.loc.x < right && self.loc.y < other_bottom && other.loc.y < bottom
    }

    /// What two rectangles have in common; none where they do not overlap.
    pub fn intersection(self, other: PixelRect) -> (r: Option<PixelRect>)
        ensures
            r == if self.overlaps(other) {
                Some(self.common(other))
            } else {
                None
            },
    {
        if !self.overlaps(other) {
            return None;
        }
        let x: i32 = if self.loc.x >= other.loc.x {
            self.loc.x
        } else {
            other.loc.x
        };
        let y: i32 = if self.loc.y >= other.loc.y {
            self.loc.y
        } else {
            other.loc.y
        };
        let right: i32 = held(self.loc.x as i64 + self.size.w as i64);
        let bottom: i32 = held(self.loc.y as i64 + self.size.h as i64);
        let other_right: i32 = held(other.loc.x as i64 + other.size.w as i64);
        let other_bottom: i32 = held(other.loc.y as i64 + other.size.h as i64);
        let far_x: i32 = if right <= other_right {
            right
        } else {
            other_right
        };
        let far_y: i32 = if bottom <= other_bottom {
            bottom
        } else {
            other_bottom
        };
        Some(
            PixelRect {
                loc: PixelPoint { x, y },
                size: PixelSize { w: held(far_x as i64 - x as i64), h: held(far_y as i64 - y as i64) },
            },
        )
    }

    /// Whether a point lies in the rectangle or on one of its edges.
    #[verifier::when_used_as_spec(spec_touches)]
    pub fn touches(self, point: PixelPoint) -> (r: bool)
        ensures
            r == self.spec_touches(point),
    {
        let right: i32 = held(self.loc.x as i64 + self.size.w as i64);
        let bottom: i32 = held(self.loc.y as i64 + self.size.h as i64);
        self.loc.x <= point.x && point.x <= right && self.loc.y <= point.y && point.y <= bottom
    }
}

/// A whole number, held to what 32 bits can tell.
pub fn held(v: i64) -> (r: i32)
    ensures
        r == saturated(v as int),
{
    if v < i32::MIN as i64 {
        i32::MIN
    } else if v > i32::MAX as i64 {
        i32::MAX
    } else {
        v as i32
    }
}

/// Half of a whole number, towards zero.
pub fn half(v: i64) -> (r: i64)
    requires
        v > i64::MIN,
    ensures
        r == halved(v as int),
{
    if v >= 0 {
        (v as u64 / 2) as i64
    } else {
        -(((-v) as u64 / 2) as i64)
    }
}

/// Where an edge of a zone comes to lie on an axis.
fn edge(fraction: Binary64, origin: i32, size: i32) -> (r: i64)
    ensures
        r == origin + fraction.times(Binary64::spec_whole(size)).round_i32(),
{
    origin as i64 + fraction.times(Binary64::whole(size)).round_i32() as i64
}

/// Pixels of a zone laid out over an area.
///
/// Each edge is rounded on its own, so that zones which share an edge still share
/// it. The inner of the two gaps is kept whole against the edges of the area and
/// halved between zones.
pub fn zone_relative_geometry(rect: ZoneRect, area: PixelRect, gaps: (i32, i32)) -> (r: PixelRect)
    ensures
        r == zone_pixels(rect, area, gaps.1),
{
    let gap: i64 = gaps.1 as i64;
    let between: i64 = half(gap);
    let near = fixed(EPSILON);
    let far = fixed(ONE).minus(near);
    let right = rect.right();
    let bottom = rect.bottom();
    let start_x: i64 = edge(rect.x, area.loc.x, area.size.w) + if rect.x.at_most(near) {
        gap
    } else {
        between
    };
    let end_x: i64 = edge(right, area.loc.x, area.size.w) - if far.at_most(right) {
        gap
    } else {
        between
    };
    let start_y: i64 = edge(rect.y, area.loc.y, area.size.h) + if rect.y.at_most(near) {
        gap
    } else {
        between
    };
    let end_y: i64 = edge(bottom, area.loc.y, area.size.h) - if far.at_most(bottom) {
        gap
    } else {
        between
    };
    PixelRect {
        loc: PixelPoint { x: held(start_x), y: held(start_y) },
        size: PixelSize { w: held(end_x - start_x), h: held(end_y - start_y) },
    }
}

} // verus!
