//! Snapping a dragged window to the halves and quarters of an output, at the
//! output's edges.

use crate::pixel::{PixelPoint, PixelRect, TiledCorners};
use vstd::prelude::*;

verus! {

#[derive(Clone, Copy, Debug, PartialEq, Eq, Structural)]
pub enum SnappingZone {
    Maximize,
    Top,
    TopLeft,
    Left,
    BottomLeft,
    Bottom,
    BottomRight,
    Right,
    TopRight,
}

#[derive(Clone, Copy, Debug, PartialEq, Eq, Structural)]
pub enum Direction {
    Left,
    Right,
    Up,
    Down,
}

pub const SNAP_RANGE: i32 = 32;

pub const SNAP_RANGE_MAXIMIZE: i32 = 22;

pub const SNAP_RANGE_TOP: i32 = 16;

/// The strips of an output that a point lies in.
pub struct Strips {
    /// The uppermost strip, which maximizes.
    pub uppermost: bool,
    /// The uppermost strip and the one below it.
    pub upper: bool,
    pub left: bool,
    pub right: bool,
    pub lower: bool,
    pub left_sixth: bool,
    pub right_sixth: bool,
    pub upper_fourth: bool,
    pub lower_fourth: bool,
}

pub open spec fn strips_of(point: PixelPoint, geometry: PixelRect) -> Strips {
    let x = point.x - geometry.loc.x;
    let y = point.y - geometry.loc.y;
    let w = geometry.size.w as int;
    let h = geometry.size.h as int;
    Strips {
        uppermost: y < SNAP_RANGE_MAXIMIZE,
        upper: y < SNAP_RANGE_MAXIMIZE + SNAP_RANGE_TOP,
        left: x < SNAP_RANGE,
        right: x > w - SNAP_RANGE,
        lower: y > h - SNAP_RANGE,
        left_sixth: x < w / 6,
        right_sixth: x > w * 5 / 6,
        upper_fourth: y < h / 4,
        lower_fourth: y > h * 3 / 4,
    }
}

impl SnappingZone {
    /// Every snapping zone, in the order in which they are tried.
    pub open spec fn all() -> Seq<SnappingZone> {
        seq![
            SnappingZone::Maximize,
            SnappingZone::Top,
            SnappingZone::TopLeft,
            SnappingZone::Left,
            SnappingZone::BottomLeft,
            SnappingZone::Bottom,
            SnappingZone::BottomRight,
            SnappingZone::Right,
            SnappingZone::TopRight,
        ]
    }

    pub open spec fn lies_in(self, s: Strips) -> bool {
        match self {
            SnappingZone::Maximize => s.uppermost && !s.left_sixth && !s.right_sixth,
            SnappingZone::Top => s.upper && !s.uppermost && !s.left_sixth && !s.right_sixth,
            SnappingZone::TopLeft => (s.upper && s.left_sixth) || (s.left && s.upper_fourth),
            SnappingZone::Left => s.left && !s.upper_fourth && !s.lower_fourth,
            SnappingZone::BottomLeft => (s.lower && s.left_sixth) || (s.left && s.lower_fourth),
            SnappingZone::Bottom => s.lower && !s.left_sixth && !s.right_sixth,
            SnappingZone::BottomRight => (s.lower && s.right_sixth) || (s.right && s.lower_fourth),
            SnappingZone::Right => s.right && !s.upper_fourth && !s.lower_fourth,
            SnappingZone::TopRight => (s.upper && s.right_sixth) || (s.right && s.upper_fourth),
        }
    }

    pub open spec fn spec_contains(&self, point: PixelPoint, output_geometry: PixelRect) -> bool {
        output_geometry.contains(point) && self.lies_in(strips_of(point, output_geometry))
    }

    /// The half or quarter that a window snaps to; none where it is maximized.
    pub open spec fn corner(self) -> Option<TiledCorners> {
        match self {
            SnappingZone::Maximize => None,
            SnappingZone::Top => Some(TiledCorners::Top),
            SnappingZone::TopLeft => Some(TiledCorners::TopLeft),
            SnappingZone::Left => Some(TiledCorners::Left),
            SnappingZone::BottomLeft => Some(TiledCorners::BottomLeft),
            SnappingZone::Bottom => Some(TiledCorners::Bottom),
            SnappingZone::BottomRight => Some(TiledCorners::BottomRight),
            SnappingZone::Right => Some(TiledCorners::Right),
            SnappingZone::TopRight => Some(TiledCorners::TopRight),
        }
    }

    /// The moves that take a window to the half or quarter.
    pub open spec fn moves(self) -> Seq<Direction> {
        match self {
            SnappingZone::Maximize => seq![],
            SnappingZone::Top => seq![Direction::Up],
            SnappingZone::TopLeft => seq![Direction::Up, Direction::Left],
            SnappingZone::Left => seq![Direction::Left],
            SnappingZone::BottomLeft => seq![Direction::Down, Direction::Left],
            SnappingZone::Bottom => seq![Direction::Down],
            SnappingZone::BottomRight => seq![Direction::Down, Direction::Right],
            SnappingZone::Right => seq![Direction::Right],
            SnappingZone::TopRight => seq![Direction::Up, Direction::Right],
        }
    }

    /// Whether a cursor at a point snaps to this zone.
    #[verifier::when_used_as_spec(spec_contains)]
    pub fn contains(&self, point: PixelPoint, output_geometry: PixelRect) -> (r: bool)
        ensures
            r == self.spec_contains(point, output_geometry),
    {
        if !output_geometry.contains(point) {
            return false;
        }
        let x: i64 = point.x as i64 - output_geometry.loc.x as i64;
        let y: i64 = point.y as i64 - output_geometry.loc.y as i64;
        let w: u64 = output_geometry.size.w as u64;
        let h: u64 = output_geometry.size.h as u64;
        let uppermost = y < SNAP_RANGE_MAXIMIZE as i64;
        let upper = y < SNAP_RANGE_MAXIMIZE as i64 + SNAP_RANGE_TOP as i64;
        let left = x < SNAP_RANGE as i64;
        let right = x > w as i64 - SNAP_RANGE as i64;
        let lower = y > h as i64 - SNAP_RANGE as i64;
        let left_sixth = x < (w / 6) as i64;
        let right_sixth = x > (w * 5 / 6) as i64;
        let upper_fourth = y < (h / 4) as i64;
        let lower_fourth = y > (h * 3 / 4) as i64;
        match self {
            SnappingZone::Maximize => uppermost && !left_sixth && !right_sixth,
            SnappingZone::Top => upper && !uppermost && !left_sixth && !right_sixth,
            SnappingZone::TopLeft => (upper && left_sixth) || (left && upper_fourth),
            SnappingZone::Left => left && !upper_fourth && !lower_fourth,
            SnappingZone::BottomLeft => (lower && left_sixth) || (left && lower_fourth),
            SnappingZone::Bottom => lower && !left_sixth && !right_sixth,
            SnappingZone::BottomRight => (lower && right_sixth) || (right && lower_fourth),
            SnappingZone::Right => right && !upper_fourth && !lower_fourth,
            SnappingZone::TopRight => (upper && right_sixth) || (right && upper_fourth),
        }
    }

    /// Pixels that the window would take up, to show while it is dragged.
    pub fn overlay_geometry(&self, non_exclusive_geometry: PixelRect, gaps: (i32, i32)) -> (r: PixelRect)
        ensures
            r == match self.corner() {
                Some(corner) => corner.relative_geometry(non_exclusive_geometry, gaps),
                None => non_exclusive_geometry,
            },
    {
        let corner = match self {
            SnappingZone::Maximize => return non_exclusive_geometry,
            SnappingZone::Top => TiledCorners::Top,
            SnappingZone::TopLeft => TiledCorners::TopLeft,
            SnappingZone::Left => TiledCorners::Left,
            SnappingZone::BottomLeft => TiledCorners::BottomLeft,
            SnappingZone::Bottom => TiledCorners::Bottom,
            SnappingZone::BottomRight => TiledCorners::BottomRight,
            SnappingZone::Right => TiledCorners::Right,
            SnappingZone::TopRight => TiledCorners::TopRight,
        };
        corner.relative_geometry(non_exclusive_geometry, gaps)
    }

    /// The moves that take a window to the half or quarter.
    pub fn directions(&self) -> (r: Vec<Direction>)
        ensures
            r@ == self.moves(),
    {
        match self {
            SnappingZone::Maximize => Vec::new(),
            SnappingZone::Top => vec![Direction::Up],
            SnappingZone::TopLeft => vec![Direction::Up, Direction::Left],
            SnappingZone::Left => vec![Direction::Left],
            SnappingZone::BottomLeft => vec![Direction::Down, Direction::Left],
            SnappingZone::Bottom => vec![Direction::Down],
            SnappingZone::BottomRight => vec![Direction::Down, Direction::Right],
            SnappingZone::Right => vec![Direction::Right],
            SnappingZone::TopRight => vec![Direction::Up, Direction::Right],
        }
    }

    /// Whether `found` is the first snapping zone that a point lies in.
    pub open spec fn first_at(point: PixelPoint, output_geometry: PixelRect, found: Option<SnappingZone>) -> bool {
        match found {
            Some(zone) => exists|i: int|
                {
                    &&& 0 <= i < 9
                    &&& #[trigger] SnappingZone::all()[i] == zone
                    &&& zone.contains(point, output_geometry)
                    &&& forall|j: int|
                        0 <= j < i ==> !(#[trigger] SnappingZone::all()[j]).contains(point, output_geometry)
                },
            None => forall|j: int|
                0 <= j < 9 ==> !(#[trigger] SnappingZone::all()[j]).contains(point, output_geometry),
        }
    }

    /// The snapping zone that a cursor at a point snaps to.
    pub fn at(point: PixelPoint, output_geometry: PixelRect) -> (r: Option<SnappingZone>)
        ensures
            SnappingZone::first_at(point, output_geometry, r),
    {
        let zones: Vec<SnappingZone> = vec![
            SnappingZone::Maximize,
            SnappingZone::Top,
            SnappingZone::TopLeft,
            SnappingZone::Left,
            SnappingZone::BottomLeft,
            SnappingZone::Bottom,
            SnappingZone::BottomRight,
            SnappingZone::Right,
            SnappingZone::TopRight,
        ];
        assert(zones@ == SnappingZone::all());
        let mut i: usize = 0;
        while i < zones.len()
            invariant
                i <= zones@.len(),
                zones@ == SnappingZone::all(),
                forall|j: int|
                    0 <= j < i ==> !(#[trigger] SnappingZone::all()[j]).contains(point, output_geometry),
            decreases zones@.len() - i,
        {
            if zones[i].contains(point, output_geometry) {
                assert(SnappingZone::all()[i as int] == zones@[i as int]);
                return Some(zones[i]);
            }
            i = i + 1;
        }
        None
    }
}

/// On an output that is not tiny the snapping zones do not overlap, so that the
/// order in which they are tried does not matter.
pub proof fn snapping_zones_are_apart(a: SnappingZone, b: SnappingZone, point: PixelPoint, output_geometry: PixelRect)
    requires
        output_geometry.size.w >= 192,
        output_geometry.size.h >= 152,
        a.contains(point, output_geometry),
        b.contains(point, output_geometry),
    ensures
        a == b,
{
}

/// The moves of a snapping zone lead to the half or quarter that its overlay shows:
/// they hold Left or Right exactly where the overlay keeps to the left or right half
/// of the area, and Up or Down exactly where it keeps to the upper or lower half.
/// Each is made once, up or down before left or right.
pub proof fn moves_lead_to_the_overlay(zone: SnappingZone, area: PixelRect, gaps: (i32, i32), shown: PixelRect)
    requires
        area.loc.x + area.size.w <= i32::MAX,
        area.loc.y + area.size.h <= i32::MAX,
        gaps.1 >= 0,
        2 * gaps.1 + 1 < area.size.w,
        2 * gaps.1 + 1 < area.size.h,
        shown == match zone.corner() {
            Some(corner) => corner.relative_geometry(area, gaps),
            None => area,
        },
    ensures
        zone.moves().contains(Direction::Left) <==> 2 * (shown.loc.x + shown.size.w - area.loc.x) <= area.size.w,
        zone.moves().contains(Direction::Right) <==> 2 * (shown.loc.x - area.loc.x) + 1 >= area.size.w,
        zone.moves().contains(Direction::Up) <==> 2 * (shown.loc.y + shown.size.h - area.loc.y) <= area.size.h,
        zone.moves().contains(Direction::Down) <==> 2 * (shown.loc.y - area.loc.y) + 1 >= area.size.h,
        zone.moves().no_duplicates(),
        zone.moves().len() == 0 <==> zone == SnappingZone::Maximize,
        zone.moves().len() == 2 ==> zone.moves()[0] == Direction::Up || zone.moves()[0] == Direction::Down,
{
    let moves = zone.moves();
    if moves.len() > 0 {
        assert(moves.contains(moves[0]));
    }
    if moves.len() > 1 {
        assert(moves.contains(moves[1]));
    }
}

/// The overlay of a snapping zone stands against the sides that it keeps to, the gap
/// away from them, and against both sides where it keeps to neither. Of a side an odd
/// number of pixels long, the half that keeps to its end leaves one pixel more.
pub proof fn overlays_stand_against_their_sides(
    zone: SnappingZone,
    area: PixelRect,
    gaps: (i32, i32),
    shown: PixelRect,
)
    requires
        area.loc.x + area.size.w <= i32::MAX,
        area.loc.y + area.size.h <= i32::MAX,
        gaps.1 >= 0,
        2 * gaps.1 + 1 < area.size.w,
        2 * gaps.1 + 1 < area.size.h,
        zone != SnappingZone::Maximize,
        zone.corner() matches Some(corner) && shown == corner.relative_geometry(area, gaps),
    ensures
        ({
            let left = shown.loc.x - area.loc.x;
            let right = area.loc.x + area.size.w - (shown.loc.x + shown.size.w);
            &&& !zone.moves().contains(Direction::Right) ==> left == gaps.1
            &&& !zone.moves().contains(Direction::Left) && !zone.moves().contains(Direction::Right) ==> right
                == gaps.1
            &&& zone.moves().contains(Direction::Right) ==> right == gaps.1 + area.size.w % 2
        }),
        ({
            let above = shown.loc.y - area.loc.y;
            let below = area.loc.y + area.size.h - (shown.loc.y + shown.size.h);
            &&& !zone.moves().contains(Direction::Down) ==> above == gaps.1
            &&& !zone.moves().contains(Direction::Up) && !zone.moves().contains(Direction::Down) ==> below == gaps.1
            &&& zone.moves().contains(Direction::Down) ==> below == gaps.1 + area.size.h % 2
        }),
{
    let moves = zone.moves();
    if moves.len() > 0 {
        assert(moves.contains(moves[0]));
    }
    if moves.len() > 1 {
        assert(moves.contains(moves[1]));
    }
}

/// On an output that is not tiny, a cursor snaps exactly where it is within 32 pixels
/// of the left, the right or the lower side, or within 38 of the upper one. It
/// maximizes in the uppermost 22, between the outer sixths. Anywhere else it moves
/// the window to the sides that it is near to, and along the upper and lower side to
/// the left or right in the outer sixths, along the others up or down in the outer
/// fourths.
pub proof fn windows_snap_to_the_sides_that_are_near(
    point: PixelPoint,
    output_geometry: PixelRect,
    found: Option<SnappingZone>,
)
    requires
        output_geometry.size.w >= 192,
        output_geometry.size.h >= 152,
        output_geometry.contains(point),
        SnappingZone::first_at(point, output_geometry, found),
    ensures
        ({
            let x = point.x - output_geometry.loc.x;
            let y = point.y - output_geometry.loc.y;
            let w = output_geometry.size.w as int;
            let h = output_geometry.size.h as int;
            let near_left = x < 32;
            let near_right = x > w - 32;
            let near_top = y < 38;
            let near_bottom = y > h - 32;
            let beside = near_left || near_right;
            let along = near_top || near_bottom;
            &&& found is Some <==> near_left || near_right || near_top || near_bottom
            &&& found == Some(SnappingZone::Maximize) <==> y < 22 && w / 6 <= x <= w * 5 / 6
            &&& found matches Some(zone) ==> zone != SnappingZone::Maximize ==> {
                &&& zone.moves().contains(Direction::Left) <==> near_left || (along && x < w / 6)
                &&& zone.moves().contains(Direction::Right) <==> near_right || (along && x > w * 5 / 6)
                &&& zone.moves().contains(Direction::Up) <==> near_top || (beside && y < h / 4)
                &&& zone.moves().contains(Direction::Down) <==> near_bottom || (beside && y > h * 3 / 4)
            }
        }),
{
    let all = SnappingZone::all();
    assert(all[0] == SnappingZone::Maximize);
    assert(all[1] == SnappingZone::Top);
    assert(all[2] == SnappingZone::TopLeft);
    assert(all[3] == SnappingZone::Left);
    assert(all[4] == SnappingZone::BottomLeft);
    assert(all[5] == SnappingZone::Bottom);
    assert(all[6] == SnappingZone::BottomRight);
    assert(all[7] == SnappingZone::Right);
    assert(all[8] == SnappingZone::TopRight);
    if let Some(zone) = found {
        let moves = zone.moves();
        if moves.len() > 0 {
            assert(moves.contains(moves[0]));
        }
        if moves.len() > 1 {
            assert(moves.contains(moves[1]));
        }
    }
}

} // verus!
