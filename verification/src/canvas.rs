//! Interactive zone canvas.
//!
//! Draws the layout at true size and lets shared boundaries be dragged. Zones are
//! edited as a grid: moving a divider resizes the zones on both sides of it, so
//! the layout stays tiled rather than developing gaps or overlaps.
//!
//! Coordinates on the screen are numbers of single precision: each operation on
//! them is rounded to it.

use crate::binary64::Binary64;
use crate::dividers::{
    boundaries, dividers, halves, laid_out, merge_at, merge_result, move_divider, move_result, moved, pin, pinned,
    split_result, split_zone, Axis, Divider,
};
use crate::layout::copied_zones;
use crate::rect::{fixed, ZoneRect, EPSILON, ONE, TWO, ZERO};
use crate::text::{decimal, digits};
use crate::tiling::lemma_pinned_again;
use vstd::prelude::*;

verus! {

/// The bits of 8: how close, in pixels, the cursor must be to a boundary to grab
/// it.
pub const GRAB_PX: u64 = 0x4020_0000_0000_0000;

/// The bits of 4, the width of the line drawn over a boundary.
pub const GUIDE_PX: u64 = 0x4010_0000_0000_0000;

#[derive(Clone, Copy, Debug, PartialEq)]
pub struct ScreenPoint {
    pub x: Binary64,
    pub y: Binary64,
}

#[derive(Clone, Copy, Debug, PartialEq)]
pub struct ScreenRect {
    pub x: Binary64,
    pub y: Binary64,
    pub width: Binary64,
    pub height: Binary64,
}

/// An in-progress boundary drag.
///
/// The zones are snapshotted at grab time and every frame is derived from that
/// snapshot. Advancing the boundary incrementally would race: an edit only comes
/// back after a round trip, so a second motion event arriving first would look for
/// the boundary at its new position in the old zones, match nothing, and republish
/// the layout unchanged, silently undoing the drag.
#[derive(Clone, Debug)]
pub struct Drag {
    /// Boundary as it was when grabbed, matching `origin`.
    pub divider: Divider,
    /// Zones as they were when grabbed.
    pub origin: Vec<ZoneRect>,
    /// Latest position, for drawing the handle.
    pub current: Binary64,
}

#[derive(Debug)]
pub struct CanvasState {
    pub dragging: Option<Drag>,
    /// Whether Shift is held. Kept from keyboard events; mouse events do not carry
    /// modifiers.
    pub shift: bool,
}

pub struct ZoneCanvas<'a> {
    pub zones: &'a [ZoneRect],
    /// Tells this canvas from those on other outputs.
    pub surface_id: u64,
    pub show_numbers: bool,
    /// Gap between snapped windows, drawn so the setting is visible here.
    pub gap: Binary64,
}

/// What happens on the canvas.
#[derive(Clone, Copy, Debug, PartialEq, Eq, Structural)]
pub enum CanvasEvent {
    ModifiersChanged { shift: bool },
    LeftPressed,
    RightPressed,
    CursorMoved,
    LeftReleased,
    Other,
}

/// What comes of it.
#[derive(Debug)]
pub enum CanvasAction {
    /// The event goes no further.
    Capture,
    Redraw,
    /// The zones on a surface were edited.
    Publish { surface_id: u64, zones: Vec<ZoneRect> },
}

/// Shape of the cursor.
#[derive(Clone, Copy, Debug, PartialEq, Eq, Structural)]
pub enum Interaction {
    Normal,
    ResizingHorizontally,
    ResizingVertically,
}

/// A zone as it is drawn.
#[derive(Debug)]
pub struct DrawnZone {
    pub rect: ScreenRect,
    /// The zone's number and the middle of the zone, where it is drawn.
    pub label: Option<(String, ScreenPoint)>,
}

/// Everything that is drawn on the canvas.
#[derive(Debug)]
pub struct Scene {
    pub zones: Vec<DrawnZone>,
    /// A line over the boundary that is dragged or could be.
    pub guide: Option<ScreenRect>,
}

// ---------------------------------------------------------------------------
// Coordinates
// ---------------------------------------------------------------------------

/// A fraction of a length that starts at `origin`.
pub open spec fn along(origin: Binary64, fraction: Binary64, length: Binary64) -> Binary64 {
    origin.plus(fraction.narrowed().times(length).narrowed()).narrowed()
}

/// What fraction of a length that starts at `origin` a place is at. A length below
/// one counts as one.
pub open spec fn fraction_along(place: Binary64, origin: Binary64, length: Binary64) -> Binary64 {
    place.minus(origin).narrowed().over(length.greatest(Binary64 { bits: ONE })).narrowed()
}

fn locate(origin: Binary64, fraction: Binary64, length: Binary64) -> (r: Binary64)
    ensures
        r == along(origin, fraction, length),
{
    origin.plus(fraction.narrowed().times(length).narrowed()).narrowed()
}

fn fraction_of(place: Binary64, origin: Binary64, length: Binary64) -> (r: Binary64)
    ensures
        r == fraction_along(place, origin, length),
{
    place.minus(origin).narrowed().over(length.greatest(fixed(ONE))).narrowed()
}

/// Where a zone is drawn.
pub open spec fn on_screen(zone: ZoneRect, bounds: ScreenRect) -> ScreenRect {
    ScreenRect {
        x: along(bounds.x, zone.x, bounds.width),
        y: along(bounds.y, zone.y, bounds.height),
        width: zone.w.narrowed().times(bounds.width).narrowed(),
        height: zone.h.narrowed().times(bounds.height).narrowed(),
    }
}

/// Where a zone is drawn.
pub fn to_screen(zone: &ZoneRect, bounds: ScreenRect) -> (r: ScreenRect)
    ensures
        r == on_screen(*zone, bounds),
{
    ScreenRect {
        x: locate(bounds.x, zone.x, bounds.width),
        y: locate(bounds.y, zone.y, bounds.height),
        width: zone.w.narrowed().times(bounds.width).narrowed(),
        height: zone.h.narrowed().times(bounds.height).narrowed(),
    }
}

/// How far a boundary is from the cursor, in pixels.
pub open spec fn distance(divider: Divider, bounds: ScreenRect, cursor: ScreenPoint) -> Binary64 {
    match divider.axis {
        Axis::Vertical => along(bounds.x, divider.position, bounds.width).minus(cursor.x).narrowed().absolute(),
        Axis::Horizontal => along(bounds.y, divider.position, bounds.height).minus(cursor.y).narrowed().absolute(),
    }
}

fn distance_to(divider: Divider, bounds: ScreenRect, cursor: ScreenPoint) -> (r: Binary64)
    ensures
        r == distance(divider, bounds, cursor),
{
    match divider.axis {
        Axis::Vertical => locate(bounds.x, divider.position, bounds.width).minus(cursor.x).narrowed().absolute(),
        Axis::Horizontal => locate(bounds.y, divider.position, bounds.height).minus(cursor.y).narrowed().absolute(),
    }
}

/// Whether a boundary can be grabbed.
pub open spec fn in_reach(divider: Divider, bounds: ScreenRect, cursor: ScreenPoint) -> bool {
    distance(divider, bounds, cursor).at_most(Binary64 { bits: GRAB_PX })
}

/// The nearest of the first `n` boundaries that can be grabbed, the first of them
/// where two are equally near.
pub open spec fn nearest_of(found: Seq<Divider>, n: nat, bounds: ScreenRect, cursor: ScreenPoint) -> Option<Divider>
    decreases n,
{
    if n == 0 {
        None
    } else {
        let last = found[n - 1];
        match nearest_of(found, (n - 1) as nat, bounds, cursor) {
            Some(best) => if in_reach(last, bounds, cursor) && distance(last, bounds, cursor).precedes(
                distance(best, bounds, cursor),
            ) {
                Some(last)
            } else {
                Some(best)
            },
            None => if in_reach(last, bounds, cursor) {
                Some(last)
            } else {
                None
            },
        }
    }
}

/// The boundary under the cursor.
pub open spec fn grabbed(zones: Seq<ZoneRect>, bounds: ScreenRect, cursor: ScreenPoint) -> Option<Divider> {
    let found = boundaries(zones, zones.len());
    nearest_of(found, found.len(), bounds, cursor)
}

/// Nearest grabbable boundary to the cursor, within [`GRAB_PX`].
pub fn divider_at(zones: &[ZoneRect], bounds: ScreenRect, cursor: ScreenPoint) -> (r: Option<Divider>)
    ensures
        r == grabbed(zones@, bounds, cursor),
{
    let found = dividers(zones);
    let mut best: Option<Divider> = None;
    let mut i: usize = 0;
    while i < found.len()
        invariant
            i <= found@.len(),
            best == nearest_of(found@, i as nat, bounds, cursor),
        decreases found@.len() - i,
    {
        let divider = found[i];
        let d = distance_to(divider, bounds, cursor);
        if d.at_most(fixed(GRAB_PX)) {
            let nearer = match best {
                Some(other) => d.precedes(distance_to(other, bounds, cursor)),
                None => true,
            };
            if nearer {
                best = Some(divider);
            }
        }
        i = i + 1;
    }
    best
}

/// The boundary that is grabbed can be grabbed, none that can be is nearer, and those
/// before it are farther away.
pub proof fn grabbed_boundary_is_the_nearest(found: Seq<Divider>, n: nat, bounds: ScreenRect, cursor: ScreenPoint)
    requires
        n <= found.len(),
    ensures
        match nearest_of(found, n, bounds, cursor) {
            Some(best) => {
                &&& exists|i: int|
                    {
                        &&& 0 <= i < n
                        &&& #[trigger] found[i] == best
                        &&& forall|j: int|
                            0 <= j < i && in_reach(#[trigger] found[j], bounds, cursor) ==> distance(
                                best,
                                bounds,
                                cursor,
                            ).precedes(distance(found[j], bounds, cursor))
                    }
                &&& in_reach(best, bounds, cursor)
                &&& forall|i: int|
                    0 <= i < n && in_reach(#[trigger] found[i], bounds, cursor) ==> !distance(
                        found[i],
                        bounds,
                        cursor,
                    ).precedes(distance(best, bounds, cursor))
            },
            None => forall|i: int| 0 <= i < n ==> !in_reach(#[trigger] found[i], bounds, cursor),
        },
    decreases n,
{
    if n > 0 {
        grabbed_boundary_is_the_nearest(found, (n - 1) as nat, bounds, cursor);
        let before = nearest_of(found, (n - 1) as nat, bounds, cursor);
        let best = nearest_of(found, n, bounds, cursor);
        if best is Some {
            if best == before {
                let i = choose|i: int|
                    {
                        &&& 0 <= i < n - 1
                        &&& #[trigger] found[i] == best->0
                        &&& forall|j: int|
                            0 <= j < i && in_reach(#[trigger] found[j], bounds, cursor) ==> distance(
                                best->0,
                                bounds,
                                cursor,
                            ).precedes(distance(found[j], bounds, cursor))
                    };
                assert(found[i] == best->0);
            } else {
                let i = n - 1;
                assert(found[i] == best->0);
                assert forall|j: int| 0 <= j < i && in_reach(#[trigger] found[j], bounds, cursor) implies distance(
                    best->0,
                    bounds,
                    cursor,
                ).precedes(distance(found[j], bounds, cursor)) by {}
            }
            assert forall|i: int| 0 <= i < n && in_reach(#[trigger] found[i], bounds, cursor) implies !distance(
                found[i],
                bounds,
                cursor,
            ).precedes(distance(best->0, bounds, cursor)) by {}
        }
    }
}

/// Cursor position as a fraction of the canvas.
pub fn to_fraction(bounds: ScreenRect, cursor: ScreenPoint) -> (r: (Binary64, Binary64))
    ensures
        r.0 == fraction_along(cursor.x, bounds.x, bounds.width),
        r.1 == fraction_along(cursor.y, bounds.y, bounds.height),
{
    (fraction_of(cursor.x, bounds.x, bounds.width), fraction_of(cursor.y, bounds.y, bounds.height))
}

/// Where the cursor is, measured across boundaries of an axis.
pub open spec fn fraction_across(axis: Axis, bounds: ScreenRect, cursor: ScreenPoint) -> Binary64 {
    match axis {
        Axis::Vertical => fraction_along(cursor.x, bounds.x, bounds.width),
        Axis::Horizontal => fraction_along(cursor.y, bounds.y, bounds.height),
    }
}

/// Where the cursor is, measured across a boundary.
pub fn cursor_fraction(divider: Divider, bounds: ScreenRect, cursor: ScreenPoint) -> (r: Binary64)
    ensures
        r == fraction_across(divider.axis, bounds, cursor),
{
    match divider.axis {
        Axis::Vertical => fraction_of(cursor.x, bounds.x, bounds.width),
        Axis::Horizontal => fraction_of(cursor.y, bounds.y, bounds.height),
    }
}

/// The smallest of the first `n` zones that contain a point, the first of them
/// where two are equally small.
pub open spec fn smallest_at(zones: Seq<ZoneRect>, n: nat, x: Binary64, y: Binary64) -> Option<usize>
    decreases n,
{
    if n == 0 {
        None
    } else {
        let last = zones[n - 1];
        match smallest_at(zones, (n - 1) as nat, x, y) {
            Some(best) => if last.contains(x, y) && last.area().precedes(zones[best as int].area()) {
                Some((n - 1) as usize)
            } else {
                Some(best)
            },
            None => if last.contains(x, y) {
                Some((n - 1) as usize)
            } else {
                None
            },
        }
    }
}

/// [`smallest_at`] is one of the zones that contain the point, none of them is smaller,
/// and those before it are larger.
pub proof fn lemma_smallest_at(zones: Seq<ZoneRect>, n: nat, x: Binary64, y: Binary64)
    requires
        n <= zones.len() <= usize::MAX,
    ensures
        match smallest_at(zones, n, x, y) {
            Some(best) => {
                &&& best < n
                &&& zones[best as int].contains(x, y)
                &&& forall|i: int|
                    0 <= i < n && (#[trigger] zones[i]).contains(x, y) ==> !zones[i].area().precedes(
                        zones[best as int].area(),
                    ) && (i < best ==> zones[best as int].area().precedes(zones[i].area()))
            },
            None => forall|i: int| 0 <= i < n ==> !(#[trigger] zones[i]).contains(x, y),
        },
    decreases n,
{
    if n > 0 {
        lemma_smallest_at(zones, (n - 1) as nat, x, y);
    }
}

/// Index of the zone containing a fractional point, smallest first so a zone
/// stacked on a larger one still wins.
pub fn index_at(zones: &[ZoneRect], x: Binary64, y: Binary64) -> (r: Option<usize>)
    ensures
        r == smallest_at(zones@, zones@.len(), x, y),
        r matches Some(i) ==> i < zones@.len(),
{
    let mut best: Option<usize> = None;
    let mut i: usize = 0;
    while i < zones.len()
        invariant
            i <= zones@.len(),
            best == smallest_at(zones@, i as nat, x, y),
            best matches Some(b) ==> b < i,
        decreases zones@.len() - i,
    {
        if zones[i].contains(x, y) {
            let smaller = match best {
                Some(b) => zones[i].area().precedes(zones[b].area()),
                None => true,
            };
            if smaller {
                best = Some(i);
            }
        }
        i = i + 1;
    }
    best
}

// ---------------------------------------------------------------------------
// Events
// ---------------------------------------------------------------------------

impl Default for CanvasState {
    fn default() -> (r: Self)
        ensures
            r.dragging is None,
            !r.shift,
    {
        CanvasState { dragging: None, shift: false }
    }
}

/// The axis that a click splits a zone along: across its longer side, or with
/// Shift across the other one.
pub open spec fn split_axis(zone: ZoneRect, shift: bool) -> Axis {
    if zone.h.at_most(zone.w) != shift {
        Axis::Vertical
    } else {
        Axis::Horizontal
    }
}

/// The zones after a click somewhere other than on a boundary.
pub open spec fn click_result(
    zones: Seq<ZoneRect>,
    bounds: ScreenRect,
    cursor: ScreenPoint,
    shift: bool,
) -> Option<Seq<ZoneRect>> {
    let fx = fraction_along(cursor.x, bounds.x, bounds.width);
    let fy = fraction_along(cursor.y, bounds.y, bounds.height);
    match smallest_at(zones, zones.len(), fx, fy) {
        Some(index) => {
            let axis = split_axis(zones[index as int], shift);
            split_result(zones, index, fraction_across(axis, bounds, cursor), axis)
        },
        None => None,
    }
}

/// The zones after a click with the right button.
pub open spec fn right_click_result(
    zones: Seq<ZoneRect>,
    bounds: ScreenRect,
    cursor: ScreenPoint,
) -> Option<Seq<ZoneRect>> {
    match grabbed(zones, bounds, cursor) {
        Some(divider) => merge_result(zones, divider),
        None => None,
    }
}

/// Where the handle of a drag is after the cursor moved: it stays where it was if
/// the zones cannot follow.
pub open spec fn dragged_to(drag: Drag, bounds: ScreenRect, cursor: ScreenPoint) -> Binary64 {
    let to = fraction_across(drag.divider.axis, bounds, cursor);
    if move_result(drag.origin@, drag.divider, to) is Some {
        pinned(to)
    } else {
        drag.current
    }
}

/// Whether an action publishes these zones; with none, there is no action.
pub open spec fn publishes(action: Option<CanvasAction>, surface: u64, zones: Option<Seq<ZoneRect>>) -> bool {
    match zones {
        Some(list) => action matches Some(CanvasAction::Publish { surface_id, zones: z }) && surface_id == surface && z@
            == list,
        None => action is None,
    }
}

/// Where the cursor is in the coordinates that the bounds are given in.
pub open spec fn absolute_point(bounds: ScreenRect, position: ScreenPoint) -> ScreenPoint {
    ScreenPoint { x: bounds.x.plus(position.x).narrowed(), y: bounds.y.plus(position.y).narrowed() }
}

fn to_absolute(bounds: ScreenRect, position: ScreenPoint) -> (r: ScreenPoint)
    ensures
        r == absolute_point(bounds, position),
{
    ScreenPoint { x: bounds.x.plus(position.x).narrowed(), y: bounds.y.plus(position.y).narrowed() }
}

impl CanvasState {
    /// Whether two states are the same.
    pub open spec fn same(self, other: CanvasState) -> bool {
        self.shift == other.shift && self.dragging == other.dragging
    }

    /// Whether a drag of a boundary over these zones is in progress.
    pub open spec fn drags(self, divider: Divider, origin: Seq<ZoneRect>, current: Binary64) -> bool {
        self.dragging matches Some(drag) && drag.divider == divider && drag.origin@ == origin && drag.current
            == current
    }
}

impl ZoneCanvas<'_> {
    /// Whether `action` and the state `after` are what an event leads to. Nothing
    /// happens while the cursor is not over the canvas.
    pub open spec fn reacts(
        &self,
        before: CanvasState,
        event: CanvasEvent,
        bounds: ScreenRect,
        position: Option<ScreenPoint>,
        after: CanvasState,
        action: Option<CanvasAction>,
    ) -> bool {
        match position {
            None => after.same(before) && action is None,
            Some(p) => {
                let cursor = absolute_point(bounds, p);
                match event {
                    CanvasEvent::ModifiersChanged { shift } => {
                        &&& after.shift == shift
                        &&& after.dragging == before.dragging
                        &&& action is None
                    },
                    CanvasEvent::LeftPressed => {
                        &&& after.shift == before.shift
                        &&& match grabbed(self.zones@, bounds, cursor) {
                            Some(divider) => {
                                &&& after.drags(divider, self.zones@, divider.position)
                                &&& action == Some(CanvasAction::Capture)
                            },
                            None => {
                                &&& after.dragging == before.dragging
                                &&& publishes(
                                    action,
                                    self.surface_id,
                                    click_result(self.zones@, bounds, cursor, before.shift),
                                )
                            },
                        }
                    },
                    CanvasEvent::RightPressed => {
                        &&& after.same(before)
                        &&& publishes(action, self.surface_id, right_click_result(self.zones@, bounds, cursor))
                    },
                    CanvasEvent::CursorMoved => {
                        &&& after.shift == before.shift
                        &&& match before.dragging {
                            Some(drag) => {
                                &&& after.drags(drag.divider, drag.origin@, dragged_to(drag, bounds, cursor))
                                &&& action == Some(CanvasAction::Redraw)
                            },
                            None => after.dragging is None && action is None,
                        }
                    },
                    CanvasEvent::LeftReleased => {
                        &&& after.shift == before.shift
                        &&& after.dragging is None
                        &&& match before.dragging {
                            Some(drag) => publishes(
                                action,
                                self.surface_id,
                                move_result(drag.origin@, drag.divider, drag.current),
                            ),
                            None => action is None,
                        }
                    },
                    CanvasEvent::Other => after.same(before) && action is None,
                }
            },
        }
    }

    /// Publish zones that were edited.
    fn publish(&self, zones: Option<Vec<ZoneRect>>) -> (r: Option<CanvasAction>)
        ensures
            publishes(r, self.surface_id, laid_out(zones)),
    {
        match zones {
            Some(zones) => Some(CanvasAction::Publish { surface_id: self.surface_id, zones }),
            None => None,
        }
    }

    /// Split the zone under the cursor.
    fn click(&self, bounds: ScreenRect, cursor: ScreenPoint, shift: bool) -> (r: Option<CanvasAction>)
        ensures
            publishes(r, self.surface_id, click_result(self.zones@, bounds, cursor, shift)),
    {
        let (fx, fy) = to_fraction(bounds, cursor);
        let index: usize = match index_at(self.zones, fx, fy) {
            Some(index) => index,
            None => return None,
        };
        let zone = self.zones[index];
        // Split along the longer side by default, which is what makes a wide zone
        // become two columns; Shift picks the other axis.
        let axis = if zone.h.at_most(zone.w) != shift {
            Axis::Vertical
        } else {
            Axis::Horizontal
        };
        let at = match axis {
            Axis::Vertical => fx,
            Axis::Horizontal => fy,
        };
        self.publish(split_zone(self.zones, index, at, axis))
    }

    /// React to an event. `position` is where the cursor is, relative to the
    /// bounds, as long as it is over the canvas.
    pub fn update(
        &self,
        state: &mut CanvasState,
        event: CanvasEvent,
        bounds: ScreenRect,
        position: Option<ScreenPoint>,
    ) -> (r: Option<CanvasAction>)
        ensures
            self.reacts(*old(state), event, bounds, position, *final(state), r),
    {
        let cursor = match position {
            Some(p) => to_absolute(bounds, p),
            None => return None,
        };
        match event {
            CanvasEvent::ModifiersChanged { shift } => {
                state.shift = shift;
                None
            },
            CanvasEvent::LeftPressed => {
                // On a boundary: drag it. Anywhere else: split the zone there.
                match divider_at(self.zones, bounds, cursor) {
                    Some(divider) => {
                        state.dragging = Some(
                            Drag { divider, origin: copied_zones(self.zones), current: divider.position },
                        );
                        Some(CanvasAction::Capture)
                    },
                    None => self.click(bounds, cursor, state.shift),
                }
            },
            CanvasEvent::RightPressed => {
                // Right-click a boundary to delete it, merging across.
                match divider_at(self.zones, bounds, cursor) {
                    Some(divider) => self.publish(merge_at(self.zones, divider)),
                    None => None,
                }
            },
            CanvasEvent::CursorMoved => {
                // Preview locally and redraw; publishing per motion event would
                // make dragging sluggish.
                match state.dragging.take() {
                    Some(drag) => {
                        let to = cursor_fraction(drag.divider, bounds, cursor);
                        let current = match move_divider(drag.origin.as_slice(), drag.divider, to) {
                            Some(_) => pin(to),
                            None => drag.current,
                        };
                        state.dragging = Some(Drag { divider: drag.divider, origin: drag.origin, current });
                        Some(CanvasAction::Redraw)
                    },
                    None => None,
                }
            },
            CanvasEvent::LeftReleased => {
                // Commit once, on release.
                match state.dragging.take() {
                    Some(drag) => self.publish(move_divider(drag.origin.as_slice(), drag.divider, drag.current)),
                    None => None,
                }
            },
            CanvasEvent::Other => None,
        }
    }
}

/// Where a boundary is dragged to: the last of some places that the zones can
/// follow it to, or where it was.
pub open spec fn reached(origin: Seq<ZoneRect>, divider: Divider, places: Seq<Binary64>) -> Binary64
    decreases places.len(),
{
    if places.len() == 0 {
        divider.position
    } else if move_result(origin, divider, places.last()) is Some {
        places.last()
    } else {
        reached(origin, divider, places.drop_last())
    }
}

/// An event of the cursor: what the canvas shows at that time, its bounds, and
/// where the cursor is in them.
pub struct CursorEvent<'a> {
    pub canvas: ZoneCanvas<'a>,
    pub bounds: ScreenRect,
    pub position: ScreenPoint,
}

/// The places across an axis that the cursor is at in some events.
pub open spec fn places_across(axis: Axis, moves: Seq<CursorEvent<'_>>) -> Seq<Binary64> {
    Seq::new(
        moves.len(),
        |i: int| fraction_across(axis, moves[i].bounds, absolute_point(moves[i].bounds, moves[i].position)),
    )
}

/// Whether the cursor's moves lead from the first of some states through each of
/// the others, with these actions.
pub open spec fn follows_cursor(
    moves: Seq<CursorEvent<'_>>,
    states: Seq<CanvasState>,
    actions: Seq<Option<CanvasAction>>,
) -> bool {
    &&& states.len() == moves.len() + 1
    &&& actions.len() == moves.len()
    &&& forall|i: int|
        #![trigger moves[i]]
        0 <= i < moves.len() ==> moves[i].canvas.reacts(
            states[i],
            CanvasEvent::CursorMoved,
            moves[i].bounds,
            Some(moves[i].position),
            states[i + 1],
            actions[i],
        )
}

/// However far the cursor went, the handle is where the last place that the zones
/// can follow to puts it, and nothing but redraws was asked for.
proof fn lemma_follows_cursor(
    moves: Seq<CursorEvent<'_>>,
    states: Seq<CanvasState>,
    actions: Seq<Option<CanvasAction>>,
    divider: Divider,
    origin: Seq<ZoneRect>,
)
    requires
        follows_cursor(moves, states, actions),
        states[0].drags(divider, origin, divider.position),
    ensures
        ({
            let at = reached(origin, divider, places_across(divider.axis, moves));
            ||| states.last().drags(divider, origin, pinned(at))
            ||| at == divider.position && states.last().drags(divider, origin, at)
        }),
        forall|i: int| 0 <= i < actions.len() ==> #[trigger] actions[i] == Some(CanvasAction::Redraw),
    decreases moves.len(),
{
    let places = places_across(divider.axis, moves);
    if moves.len() > 0 {
        let n = moves.len() - 1;
        let fewer = moves.drop_last();
        let before = states.drop_last();
        assert(follows_cursor(fewer, before, actions.drop_last())) by {
            assert forall|i: int| #![trigger fewer[i]] 0 <= i < fewer.len() implies fewer[i].canvas.reacts(
                before[i],
                CanvasEvent::CursorMoved,
                fewer[i].bounds,
                Some(fewer[i].position),
                before[i + 1],
                actions.drop_last()[i],
            ) by {
                assert(moves[i] == fewer[i]);
            }
        }
        lemma_follows_cursor(fewer, before, actions.drop_last(), divider, origin);
        assert(places_across(divider.axis, fewer) == places.drop_last());
        assert(moves[n].canvas.reacts(
            states[n],
            CanvasEvent::CursorMoved,
            moves[n].bounds,
            Some(moves[n].position),
            states[n + 1],
            actions[n],
        ));
        assert(before.last() == states[n]);
        assert forall|i: int| 0 <= i < actions.len() implies #[trigger] actions[i] == Some(CanvasAction::Redraw) by {
            if i < n {
                assert(actions.drop_last()[i] == actions[i]);
            }
        }
    }
}

/// A drag is absolute against the zones that the boundary was grabbed in. From a
/// press on a boundary, through any number of moves of the cursor and whatever the
/// canvas shows by then, to the release: the press only captures and the moves only
/// ask for redraws; the release alone publishes, and what it publishes are the zones
/// as they were grabbed with the boundary moved to the last place of the cursor that
/// they can follow to. Then the drag is over.
pub proof fn drags_are_absolute(
    press: CursorEvent<'_>,
    moves: Seq<CursorEvent<'_>>,
    release: CursorEvent<'_>,
    before: CanvasState,
    states: Seq<CanvasState>,
    after: CanvasState,
    pressed: Option<CanvasAction>,
    actions: Seq<Option<CanvasAction>>,
    released: Option<CanvasAction>,
    divider: Divider,
)
    requires
        grabbed(press.canvas.zones@, press.bounds, absolute_point(press.bounds, press.position)) == Some(divider),
        press.canvas.reacts(
            before,
            CanvasEvent::LeftPressed,
            press.bounds,
            Some(press.position),
            states[0],
            pressed,
        ),
        follows_cursor(moves, states, actions),
        release.canvas.reacts(
            states.last(),
            CanvasEvent::LeftReleased,
            release.bounds,
            Some(release.position),
            after,
            released,
        ),
    ensures
        pressed == Some(CanvasAction::Capture),
        forall|i: int| 0 <= i < actions.len() ==> #[trigger] actions[i] == Some(CanvasAction::Redraw),
        publishes(
            released,
            release.canvas.surface_id,
            move_result(
                press.canvas.zones@,
                divider,
                reached(press.canvas.zones@, divider, places_across(divider.axis, moves)),
            ),
        ),
        after.dragging is None,
{
    let origin = press.canvas.zones@;
    lemma_follows_cursor(moves, states, actions, divider, origin);
    let at = reached(origin, divider, places_across(divider.axis, moves));
    lemma_pinned_again(at);
    assert(moved(origin, divider, pinned(at)) == moved(origin, divider, at));
}

/// Holding Shift splits a zone along the other axis, whatever the zone.
pub proof fn shift_picks_the_other_axis(zone: ZoneRect)
    ensures
        split_axis(zone, true) != split_axis(zone, false),
{
}

/// Without Shift the new boundary crosses the longer side of a zone, so that a wide one
/// becomes two columns and a tall one two rows. A zone as wide as it is tall becomes two
/// columns.
pub proof fn the_longer_side_is_crossed(zone: ZoneRect)
    requires
        !zone.w.is_nan(),
        !zone.h.is_nan(),
    ensures
        zone.w.value() >= zone.h.value() ==> split_axis(zone, false) == Axis::Vertical,
        zone.w.value() < zone.h.value() ==> split_axis(zone, false) == Axis::Horizontal,
{
}

/// Whether zones are some others with one of them cut in two at a place: into columns
/// if it is no taller than wide, else into rows; the other way round if `swapped`.
pub open spec fn is_cut(
    zones: Seq<ZoneRect>,
    after: Seq<ZoneRect>,
    i: int,
    x: Binary64,
    y: Binary64,
    swapped: bool,
) -> bool {
    let zone = zones[i];
    let first = after[i];
    let second = after[i + 1];
    let wide = zone.w.value() >= zone.h.value();
    &&& after.len() == zones.len() + 1
    &&& forall|j: int| 0 <= j < i ==> #[trigger] after[j] == zones[j]
    &&& forall|j: int| i + 1 < j < after.len() ==> #[trigger] after[j] == zones[j - 1]
    &&& first.x == zone.x && first.y == zone.y
    &&& (wide && !swapped) || (!wide && swapped) ==> {
        &&& second.x == x && second.y == zone.y
        &&& first.h == zone.h && second.h == zone.h
        &&& first.w == x.minus(zone.x) && second.w == zone.right().minus(x)
    }
    &&& (!wide && !swapped) || (wide && swapped) ==> {
        &&& second.x == zone.x && second.y == y
        &&& first.w == zone.w && second.w == zone.w
        &&& first.h == y.minus(zone.y) && second.h == zone.bottom().minus(y)
    }
}

/// A click splits the smallest of the zones under the cursor, at the cursor, and leaves
/// every other zone alone. A zone that is no taller than wide becomes two columns, any
/// other two rows; with Shift held it is the other way round.
pub proof fn clicks_split_the_zone_at_the_cursor(
    zones: Seq<ZoneRect>,
    bounds: ScreenRect,
    cursor: ScreenPoint,
    shift: bool,
    after: Seq<ZoneRect>,
    x: Binary64,
    y: Binary64,
)
    requires
        zones.len() <= usize::MAX,
        x == fraction_along(cursor.x, bounds.x, bounds.width),
        y == fraction_along(cursor.y, bounds.y, bounds.height),
        click_result(zones, bounds, cursor, shift) == Some(after),
    ensures
        exists|i: int|
            {
                &&& 0 <= i < zones.len()
                &&& zones[i].contains(x, y)
                &&& forall|j: int|
                    0 <= j < zones.len() && (#[trigger] zones[j]).contains(x, y) ==> !zones[j].area().precedes(
                        zones[i].area(),
                    )
                &&& #[trigger] is_cut(zones, after, i, x, y, shift)
            },
{
    lemma_smallest_at(zones, zones.len(), x, y);
    let i = smallest_at(zones, zones.len(), x, y)->0 as int;
    lemma_sides_of_container(zones[i], x, y);
    let axis = split_axis(zones[i], shift);
    assert(halves(zones[i], fraction_across(axis, bounds, cursor), axis) is Some);
    assert(is_cut(zones, after, i, x, y, shift));
}

/// A zone that contains a point has sides.
proof fn lemma_sides_of_container(zone: ZoneRect, x: Binary64, y: Binary64)
    requires
        zone.contains(x, y),
    ensures
        !zone.w.is_nan(),
        !zone.h.is_nan(),
{
    reveal(Binary64::spec_plus);
}

/// Zones are published by a press of a button or by the release that ends a drag, with
/// the cursor over the canvas, and under the canvas's own surface; by nothing else.
pub proof fn presses_and_releases_publish(
    canvas: ZoneCanvas<'_>,
    before: CanvasState,
    event: CanvasEvent,
    bounds: ScreenRect,
    position: Option<ScreenPoint>,
    after: CanvasState,
    surface: u64,
    zones: Vec<ZoneRect>,
)
    requires
        canvas.reacts(
            before,
            event,
            bounds,
            position,
            after,
            Some(CanvasAction::Publish { surface_id: surface, zones }),
        ),
    ensures
        surface == canvas.surface_id,
        position is Some,
        event == CanvasEvent::LeftPressed || event == CanvasEvent::RightPressed || (event == CanvasEvent::LeftReleased
            && before.dragging is Some),
        after.shift == before.shift,
        event != CanvasEvent::LeftReleased ==> after.dragging == before.dragging,
{
}

/// Shift is as the last change of the modifiers over the canvas left it.
pub proof fn shift_follows_the_modifiers(
    canvas: ZoneCanvas<'_>,
    before: CanvasState,
    event: CanvasEvent,
    bounds: ScreenRect,
    position: Option<ScreenPoint>,
    after: CanvasState,
    action: Option<CanvasAction>,
)
    requires
        canvas.reacts(before, event, bounds, position, after, action),
    ensures
        position is None ==> after.shift == before.shift && after.dragging == before.dragging && action is None,
        position is Some ==> after.shift == match event {
            CanvasEvent::ModifiersChanged { shift } => shift,
            _ => before.shift,
        },
        event is ModifiersChanged ==> after.dragging == before.dragging && action is None,
{
}

/// Following the cursor publishes nothing.
pub proof fn following_the_cursor_publishes_nothing(
    canvas: ZoneCanvas<'_>,
    before: CanvasState,
    after: CanvasState,
    bounds: ScreenRect,
    position: Option<ScreenPoint>,
    action: Option<CanvasAction>,
)
    requires
        canvas.reacts(before, CanvasEvent::CursorMoved, bounds, position, after, action),
    ensures
        !(action matches Some(CanvasAction::Publish { .. })),
{
}

// ---------------------------------------------------------------------------
// Drawing
// ---------------------------------------------------------------------------

/// The gap at an edge of a zone: whole against the edge of the output, half of it
/// against another zone, so neighbours share one gutter.
pub open spec fn gap_at(gap: Binary64, at_edge: bool) -> Binary64 {
    if at_edge {
        gap
    } else {
        gap.over(Binary64 { bits: TWO }).narrowed()
    }
}

/// Where a zone is drawn, without the gap around it.
pub open spec fn inset(zone: ZoneRect, bounds: ScreenRect, gap: Binary64) -> ScreenRect {
    let eps = Binary64 { bits: EPSILON };
    let far = (Binary64 { bits: ONE }).minus(eps);
    let at_origin = ScreenRect { x: Binary64 { bits: ZERO }, y: Binary64 { bits: ZERO }, ..bounds };
    let rect = on_screen(zone, at_origin);
    let left = gap_at(gap, zone.x.at_most(eps));
    let top = gap_at(gap, zone.y.at_most(eps));
    let right = gap_at(gap, far.at_most(zone.right()));
    let bottom = gap_at(gap, far.at_most(zone.bottom()));
    ScreenRect {
        x: rect.x.plus(left).narrowed(),
        y: rect.y.plus(top).narrowed(),
        width: rect.width.minus(left).narrowed().minus(right).narrowed().greatest(Binary64 { bits: ONE }),
        height: rect.height.minus(top).narrowed().minus(bottom).narrowed().greatest(Binary64 { bits: ONE }),
    }
}

/// The middle of a rectangle.
pub open spec fn middle(rect: ScreenRect) -> ScreenPoint {
    let two = Binary64 { bits: TWO };
    ScreenPoint {
        x: rect.x.plus(rect.width.over(two).narrowed()).narrowed(),
        y: rect.y.plus(rect.height.over(two).narrowed()).narrowed(),
    }
}

/// The line drawn over a boundary.
pub open spec fn guide_line(divider: Divider, bounds: ScreenRect) -> ScreenRect {
    let zero = Binary64 { bits: ZERO };
    match divider.axis {
        Axis::Vertical => ScreenRect {
            x: divider.position.narrowed().times(bounds.width).narrowed().minus(Binary64 { bits: TWO }).narrowed(),
            y: zero,
            width: Binary64 { bits: GUIDE_PX },
            height: bounds.height,
        },
        Axis::Horizontal => ScreenRect {
            x: zero,
            y: divider.position.narrowed().times(bounds.height).narrowed().minus(Binary64 { bits: TWO }).narrowed(),
            width: bounds.width,
            height: Binary64 { bits: GUIDE_PX },
        },
    }
}

/// The boundary under the cursor, if it is over the canvas.
pub open spec fn hovered(zones: Seq<ZoneRect>, bounds: ScreenRect, position: Option<ScreenPoint>) -> Option<Divider> {
    match position {
        Some(p) => grabbed(zones, bounds, absolute_point(bounds, p)),
        None => None,
    }
}

/// The boundary to emphasise: the one that is dragged, where it is dragged to, else
/// the one under the cursor.
pub open spec fn active(
    zones: Seq<ZoneRect>,
    state: CanvasState,
    bounds: ScreenRect,
    position: Option<ScreenPoint>,
) -> Option<Divider> {
    match state.dragging {
        Some(drag) => Some(Divider { axis: drag.divider.axis, position: drag.current }),
        None => hovered(zones, bounds, position),
    }
}

/// Shape of the cursor over a boundary.
pub open spec fn shape_over(divider: Option<Divider>) -> Interaction {
    match divider {
        Some(d) => match d.axis {
            Axis::Vertical => Interaction::ResizingHorizontally,
            Axis::Horizontal => Interaction::ResizingVertically,
        },
        None => Interaction::Normal,
    }
}

/// The cursor points the way that a boundary moves: to the sides over an upright one, up
/// and down over a level one, and no way where there is none.
pub proof fn the_cursor_points_the_way_a_boundary_moves(divider: Divider)
    ensures
        shape_over(None) == Interaction::Normal,
        shape_over(Some(divider)) == Interaction::ResizingHorizontally <==> divider.axis == Axis::Vertical,
        shape_over(Some(divider)) == Interaction::ResizingVertically <==> divider.axis == Axis::Horizontal,
{
}

/// While a boundary is dragged the line stands where it is dragged to, wherever the
/// cursor is; otherwise it stands over a boundary that can be grabbed, or nowhere.
pub proof fn the_line_stands_over_the_active_boundary(
    zones: Seq<ZoneRect>,
    state: CanvasState,
    bounds: ScreenRect,
    position: Option<ScreenPoint>,
)
    ensures
        state.dragging matches Some(drag) ==> (active(zones, state, bounds, position) matches Some(divider)
            && divider.axis == drag.divider.axis && divider.position == drag.current),
        state.dragging is None && position is None ==> active(zones, state, bounds, position) is None,
        state.dragging is None && position is Some ==> match active(zones, state, bounds, position) {
            Some(divider) => in_reach(divider, bounds, absolute_point(bounds, position->0)) && boundaries(
                zones,
                zones.len(),
            ).contains(divider),
            None => forall|i: int|
                0 <= i < boundaries(zones, zones.len()).len() ==> !in_reach(
                    #[trigger] boundaries(zones, zones.len())[i],
                    bounds,
                    absolute_point(bounds, position->0),
                ),
        },
{
    if let Some(p) = position {
        let found = boundaries(zones, zones.len());
        grabbed_boundary_is_the_nearest(found, found.len(), bounds, absolute_point(bounds, p));
    }
}

fn gap_for(gap: Binary64, at_edge: bool) -> (r: Binary64)
    ensures
        r == gap_at(gap, at_edge),
{
    if at_edge {
        gap
    } else {
        gap.over(fixed(TWO)).narrowed()
    }
}

/// Where a zone is drawn, without the gap around it.
pub fn inset_zone(zone: &ZoneRect, bounds: ScreenRect, gap: Binary64) -> (r: ScreenRect)
    ensures
        r == inset(*zone, bounds, gap),
{
    let eps = fixed(EPSILON);
    let far = fixed(ONE).minus(eps);
    let at_origin = ScreenRect { x: fixed(ZERO), y: fixed(ZERO), width: bounds.width, height: bounds.height };
    let rect = to_screen(zone, at_origin);
    let left = gap_for(gap, zone.x.at_most(eps));
    let top = gap_for(gap, zone.y.at_most(eps));
    let right = gap_for(gap, far.at_most(zone.right()));
    let bottom = gap_for(gap, far.at_most(zone.bottom()));
    ScreenRect {
        x: rect.x.plus(left).narrowed(),
        y: rect.y.plus(top).narrowed(),
        width: rect.width.minus(left).narrowed().minus(right).narrowed().greatest(fixed(ONE)),
        height: rect.height.minus(top).narrowed().minus(bottom).narrowed().greatest(fixed(ONE)),
    }
}

fn guide(divider: Divider, bounds: ScreenRect) -> (r: ScreenRect)
    ensures
        r == guide_line(divider, bounds),
{
    match divider.axis {
        Axis::Vertical => ScreenRect {
            x: divider.position.narrowed().times(bounds.width).narrowed().minus(fixed(TWO)).narrowed(),
            y: fixed(ZERO),
            width: fixed(GUIDE_PX),
            height: bounds.height,
        },
        Axis::Horizontal => ScreenRect {
            x: fixed(ZERO),
            y: divider.position.narrowed().times(bounds.height).narrowed().minus(fixed(TWO)).narrowed(),
            width: bounds.width,
            height: fixed(GUIDE_PX),
        },
    }
}

impl ZoneCanvas<'_> {
    /// Whether a zone is drawn as it should be.
    pub open spec fn draws_zone(&self, i: int, bounds: ScreenRect, drawn: DrawnZone) -> bool {
        let rect = inset(self.zones@[i], bounds, self.gap);
        &&& drawn.rect == rect
        &&& if self.show_numbers {
            drawn.label matches Some((text, place)) && text@ == digits((i + 1) as nat) && place == middle(rect)
        } else {
            drawn.label is None
        }
    }

    fn hover(&self, bounds: ScreenRect, position: Option<ScreenPoint>) -> (r: Option<Divider>)
        ensures
            r == hovered(self.zones@, bounds, position),
    {
        match position {
            Some(p) => divider_at(self.zones, bounds, to_absolute(bounds, p)),
            None => None,
        }
    }

    /// What is drawn. Zones hold still during a drag; only the guide line moves,
    /// and the layout reflows once on release.
    pub fn draw(&self, state: &CanvasState, bounds: ScreenRect, position: Option<ScreenPoint>) -> (r: Scene)
        ensures
            r.zones@.len() == self.zones@.len(),
            forall|i: int| 0 <= i < r.zones@.len() ==> self.draws_zone(i, bounds, #[trigger] r.zones@[i]),
            r.guide == match active(self.zones@, *state, bounds, position) {
                Some(divider) => Some(guide_line(divider, bounds)),
                None => None,
            },
    {
        let divider = match &state.dragging {
            Some(drag) => Some(Divider { axis: drag.divider.axis, position: drag.current }),
            None => self.hover(bounds, position),
        };
        let mut drawn: Vec<DrawnZone> = Vec::new();
        let mut i: usize = 0;
        while i < self.zones.len()
            invariant
                i <= self.zones@.len(),
                drawn@.len() == i,
                forall|j: int| 0 <= j < i ==> self.draws_zone(j, bounds, #[trigger] drawn@[j]),
            decreases self.zones@.len() - i,
        {
            let rect = inset_zone(&self.zones[i], bounds, self.gap);
            let two = fixed(TWO);
            let place = ScreenPoint {
                x: rect.x.plus(rect.width.over(two).narrowed()).narrowed(),
                y: rect.y.plus(rect.height.over(two).narrowed()).narrowed(),
            };
            let label = if self.show_numbers {
                Some((decimal(i as u128 + 1), place))
            } else {
                None
            };
            drawn.push(DrawnZone { rect, label });
            i = i + 1;
        }
        let guide = match divider {
            Some(d) => Some(guide(d, bounds)),
            None => None,
        };
        Scene { zones: drawn, guide }
    }

    /// Shape of the cursor: over a boundary, and while one is dragged, it tells
    /// which way the boundary moves.
    pub fn mouse_interaction(
        &self,
        state: &CanvasState,
        bounds: ScreenRect,
        position: Option<ScreenPoint>,
    ) -> (r: Interaction)
        ensures
            r == shape_over(active(self.zones@, *state, bounds, position)),
    {
        let axis = match &state.dragging {
            Some(drag) => Some(drag.divider.axis),
            None => match self.hover(bounds, position) {
                Some(divider) => Some(divider.axis),
                None => None,
            },
        };
        match axis {
            Some(Axis::Vertical) => Interaction::ResizingHorizontally,
            Some(Axis::Horizontal) => Interaction::ResizingVertically,
            None => Interaction::Normal,
        }
    }
}

} // verus!
