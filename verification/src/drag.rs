//! Dragging a window: where it is shown, what it would snap to, and what becomes
//! of it when it is dropped.

use crate::alignment::lemma_constants;
use crate::binary64::{lemma_rounded_zero, lemma_signed, one_units, Binary64};
use crate::config::{characters, OutputMatch, ZonesConfig};
use crate::conversion::saturated;
use crate::pixel::{held, PixelPoint, PixelRect, PixelSize};
use crate::precision::{
    apart, lemma_finite_below, lemma_negated, lemma_plus_exact, lemma_plus_monotone, lemma_representable,
    lemma_rounded_monotone, lemma_whole,
};
use crate::rect::{fixed, ONE};
use crate::rounding::{
    lemma_rounded_exact, lemma_rounded_limit, lemma_rounded_scaled, lemma_units_ordered, lemma_units_small, rounded,
    scale, units, INFINITE, STEPS,
};
use crate::shortcuts::{arms, modifiers_match, ModifiersState};
use crate::snapping::{Direction, SnappingZone};
use crate::spans::holds;
use crate::zone_number::{badge_location, badge_place, ZoneNumber};
use crate::zones::{is_resolvable, FloatingTiled, ZoneContext, ZoneHit};
use vstd::arithmetic::power2::{lemma2_to64, lemma_pow2_adds, lemma_pow2_pos, pow2};
use vstd::prelude::*;

verus! {

/// The bits of 0.6, to which a window taken out of the tiling shrinks.
pub const SHRUNK_SCALE: u64 = 0x3fe3_3333_3333_3333;

/// The bits of 0.4, by which it shrinks.
pub const SHRINKING: u64 = 0x3fd9_9999_9999_999a;

/// The bits of 150, the milliseconds that it takes.
pub const RESCALE_ANIMATION_DURATION: u64 = 0x4062_c000_0000_0000;

/// The bits of 100.
pub const HUNDRED: u64 = 0x4059_0000_0000_0000;

/// The bits of 0.4 in single precision: fill opacity of the highlighted drop
/// target, shared by edge snapping and zone snapping so the two look like the same
/// mechanism.
pub const SNAP_OVERLAY_ALPHA: u64 = 0x3fd9_9999_a000_0000;

/// Overlay keys are one byte, so zones past this share a key. Harmless: the key
/// only scopes a cache entry, and layouts this large are pathological.
pub const ZONE_KEY_MAX: usize = 254;

/// Reserved key for the drop-target overlay.
pub const ZONE_TARGET_KEY: u8 = 255;

/// The layer that a window was in before it was dragged.
#[derive(Clone, Copy, Debug, PartialEq, Eq, Structural)]
pub enum ManagedLayer {
    Tiling,
    Floating,
    Sticky,
}

/// When a grab ends.
#[derive(Clone, Copy, Debug, PartialEq, Eq, Structural)]
pub enum ReleaseMode {
    /// As soon as no button is pressed any more.
    NoMouseButtons,
    /// When a button is pressed.
    Click,
}

/// A place in the global space.
#[derive(Clone, Copy, Debug, PartialEq)]
pub struct Location {
    pub x: Binary64,
    pub y: Binary64,
}

/// An output as far as a drag is concerned.
#[derive(Debug)]
pub struct OutputPlace {
    /// Tells this output from every other.
    pub id: u64,
    /// In the global space.
    pub geometry: PixelRect,
    /// What panels and docks leave, relative to the output.
    pub area: PixelRect,
    pub identity: OutputMatch,
}

/// What becomes of an output that the window may overlap.
#[derive(Clone, Copy, Debug, PartialEq, Eq, Structural)]
pub enum OutputChange {
    Unchanged,
    /// The window has come to overlap the output, by this much.
    Enter(PixelRect),
    Leave,
}

/// Live state for a drag that has armed user-defined zone snapping.
#[derive(Debug)]
pub struct ZoneDragState {
    /// Output the context was resolved against; a cursor crossing to another
    /// output invalidates it.
    pub output: u64,
    pub context: ZoneContext,
    pub target: Option<ZoneHit>,
    /// Whether the arming modifier is held right now. Releasing it disarms rather
    /// than discarding: the modifier gets tapped mid-drag.
    pub armed: bool,
    /// Fill opacity for non-targeted zones, from the configured opacity.
    pub inactive_alpha: Binary64,
    /// One badge per zone, built once when the drag arms rather than per frame.
    /// Empty when zone numbers are not shown.
    pub numbers: Vec<ZoneNumber>,
}

/// State of a drag.
#[derive(Debug)]
pub struct MoveGrabState {
    /// From the cursor to the window's upper left corner.
    pub window_offset: PixelPoint,
    pub indicator_thickness: u8,
    pub previous: ManagedLayer,
    pub snapping_zone: Option<SnappingZone>,
    pub zones: Option<ZoneDragState>,
    /// Output the zones were resolved for, recorded even when resolving produced
    /// nothing. That is the *default* state: zones ship enabled but no layout is
    /// assigned until the user picks one, so without this marker a miss would be
    /// retried on every motion event.
    pub zones_output: Option<u64>,
    pub location: Location,
    pub cursor_output: u64,
}

/// What becomes of a window that is dropped.
#[derive(Debug)]
pub enum DropAction {
    /// It goes back to the layer of sticky windows.
    Sticky,
    /// It goes back to the tiling.
    Tile,
    /// It floats where it is.
    Float,
    /// It floats, and is snapped to zones.
    SnapToZone(FloatingTiled),
    /// It floats, and is maximized.
    Maximize,
    /// It floats, and is moved to a half or a quarter.
    SnapToEdge(Vec<Direction>),
}

/// A part of the zone overlay.
#[derive(Debug)]
pub enum OverlayElement {
    /// The number of a zone.
    Badge { number: usize, location: PixelPoint },
    /// The border around the drop target.
    TargetBorder { key: u8, geometry: PixelRect },
    /// The fill of the drop target.
    TargetFill { key: u8, geometry: PixelRect },
    /// A zone that is not targeted.
    Dimmed { key: u8, geometry: PixelRect },
}

// ---------------------------------------------------------------------------
// Where the window is.
// ---------------------------------------------------------------------------

/// The first of some outputs that a place lies on.
pub open spec fn is_output_under(outputs: Seq<OutputPlace>, location: Location, found: Option<usize>) -> bool {
    let point = PixelPoint { x: location.x.floor_i32(), y: location.y.floor_i32() };
    match found {
        Some(i) => {
            &&& i < outputs.len()
            &&& outputs[i as int].geometry.touches(point)
            &&& forall|j: int| 0 <= j < i ==> !(#[trigger] outputs[j]).geometry.touches(point)
        },
        None => forall|j: int| 0 <= j < outputs.len() ==> !(#[trigger] outputs[j]).geometry.touches(point),
    }
}

/// The output that a place lies on.
pub fn output_under(outputs: &[OutputPlace], location: Location) -> (r: Option<usize>)
    ensures
        is_output_under(outputs@, location, r),
{
    let point = PixelPoint { x: location.x.floor_i32(), y: location.y.floor_i32() };
    let mut i: usize = 0;
    while i < outputs.len()
        invariant
            i <= outputs@.len(),
            point == (PixelPoint { x: location.x.floor_i32(), y: location.y.floor_i32() }),
            forall|j: int| 0 <= j < i ==> !(#[trigger] outputs@[j]).geometry.touches(point),
        decreases outputs@.len() - i,
    {
        if outputs[i].geometry.touches(point) {
            return Some(i);
        }
        i = i + 1;
    }
    None
}

/// A coordinate pulled onto the edge of an output that the window is near to: the
/// near edge first, then the far one.
pub open spec fn edge_snapped(
    location: Binary64,
    offset: i32,
    size: i32,
    output_start: i32,
    output_size: i32,
    threshold: Binary64,
) -> Binary64 {
    let start = Binary64::spec_whole(output_start);
    let end = start.plus(Binary64::spec_whole(output_size));
    let at = Binary64::spec_whole(offset).plus(location);
    let length = Binary64::spec_whole(size);
    if at.minus(start).absolute().below(threshold) {
        start.minus(Binary64::spec_whole(offset))
    } else if at.plus(length).minus(end).absolute().below(threshold) {
        end.minus(Binary64::spec_whole(offset)).minus(length)
    } else {
        location
    }
}

/// A coordinate pulled onto the edge of an output that the window is near to.
pub fn snap_to_edge(
    location: Binary64,
    offset: i32,
    size: i32,
    output_start: i32,
    output_size: i32,
    threshold: Binary64,
) -> (r: Binary64)
    ensures
        r == edge_snapped(location, offset, size, output_start, output_size, threshold),
{
    let start = Binary64::whole(output_start);
    let end = start.plus(Binary64::whole(output_size));
    let at = Binary64::whole(offset).plus(location);
    let length = Binary64::whole(size);
    if at.minus(start).absolute().below(threshold) {
        start.minus(Binary64::whole(offset))
    } else if at.plus(length).minus(end).absolute().below(threshold) {
        end.minus(Binary64::whole(offset)).minus(length)
    } else {
        location
    }
}

/// Pixels of a window of some geometry that is dragged to a place.
pub open spec fn window_pixels(geometry: PixelRect, location: Location, offset: PixelPoint) -> PixelRect {
    PixelRect {
        loc: PixelPoint {
            x: saturated(geometry.loc.x + location.x.round_i32() + offset.x) as i32,
            y: saturated(geometry.loc.y + location.y.round_i32() + offset.y) as i32,
        },
        size: geometry.size,
    }
}

/// Pixels of a window of some geometry that is dragged to a place.
pub fn window_geometry(geometry: PixelRect, location: Location, offset: PixelPoint) -> (r: PixelRect)
    ensures
        r == window_pixels(geometry, location, offset),
{
    PixelRect {
        loc: PixelPoint {
            x: held(geometry.loc.x as i64 + location.x.round_i32() as i64 + offset.x as i64),
            y: held(geometry.loc.y as i64 + location.y.round_i32() as i64 + offset.y as i64),
        },
        size: geometry.size,
    }
}

/// What becomes of an output, given where the window is and whether it was on it.
pub open spec fn output_change(output: PixelRect, window: PixelRect, entered: bool) -> OutputChange {
    if output.overlaps(window) {
        if entered {
            OutputChange::Unchanged
        } else {
            OutputChange::Enter(output.common(window))
        }
    } else if entered {
        OutputChange::Leave
    } else {
        OutputChange::Unchanged
    }
}

/// What becomes of each output, given where the window is and which of them it was
/// on.
pub fn output_changes(outputs: &[OutputPlace], window: PixelRect, entered: &[bool]) -> (r: Vec<OutputChange>)
    requires
        entered@.len() == outputs@.len(),
    ensures
        r@ == Seq::new(
            outputs@.len(),
            |i: int| output_change(outputs@[i].geometry, window, entered@[i]),
        ),
{
    let mut changes: Vec<OutputChange> = Vec::new();
    let mut i: usize = 0;
    while i < outputs.len()
        invariant
            i <= outputs@.len(),
            entered@.len() == outputs@.len(),
            changes@.len() == i,
            forall|j: int|
                0 <= j < i ==> #[trigger] changes@[j] == output_change(outputs@[j].geometry, window, entered@[j]),
        decreases outputs@.len() - i,
    {
        let change = match outputs[i].geometry.intersection(window) {
            Some(overlap) => if entered[i] {
                OutputChange::Unchanged
            } else {
                OutputChange::Enter(overlap)
            },
            None => if entered[i] {
                OutputChange::Leave
            } else {
                OutputChange::Unchanged
            },
        };
        changes.push(change);
        i = i + 1;
    }
    changes
}

/// Where a place lies relative to an output.
pub open spec fn local_point(location: Location, geometry: PixelRect) -> PixelPoint {
    PixelPoint {
        x: location.x.minus(Binary64::spec_whole(geometry.loc.x)).floor_i32(),
        y: location.y.minus(Binary64::spec_whole(geometry.loc.y)).floor_i32(),
    }
}

/// Where a place lies relative to an output.
pub fn to_local(location: Location, geometry: PixelRect) -> (r: PixelPoint)
    ensures
        r == local_point(location, geometry),
{
    PixelPoint {
        x: location.x.minus(Binary64::whole(geometry.loc.x)).floor_i32(),
        y: location.y.minus(Binary64::whole(geometry.loc.y)).floor_i32(),
    }
}

// ---------------------------------------------------------------------------
// What it would snap to.
// ---------------------------------------------------------------------------

/// Opacity of the zones that are not targeted, in single precision.
pub open spec fn dimmed_alpha(inactive_opacity: u8) -> Binary64 {
    let percent = if inactive_opacity <= 100 {
        inactive_opacity as u64
    } else {
        100
    };
    Binary64::spec_count(percent).over(Binary64 { bits: HUNDRED }).narrowed().times(
        Binary64 { bits: SNAP_OVERLAY_ALPHA },
    ).narrowed()
}

fn inactive_alpha(inactive_opacity: u8) -> (r: Binary64)
    ensures
        r == dimmed_alpha(inactive_opacity),
{
    let percent: u64 = if inactive_opacity <= 100 {
        inactive_opacity as u64
    } else {
        100
    };
    Binary64::count(percent).over(fixed(HUNDRED)).narrowed().times(fixed(SNAP_OVERLAY_ALPHA)).narrowed()
}

/// Whether badges bear the numbers from one to `count`.
pub open spec fn numbered(badges: Seq<ZoneNumber>, count: nat) -> bool {
    badges.len() == count && forall|i: int| 0 <= i < count ==> (#[trigger] badges[i]).elem.number == i + 1
}

/// A badge for each of so many zones.
fn badges(count: usize) -> (r: Vec<ZoneNumber>)
    ensures
        numbered(r@, count as nat),
{
    let mut list: Vec<ZoneNumber> = Vec::new();
    let mut i: usize = 0;
    while i < count
        invariant
            i <= count,
            numbered(list@, i as nat),
        decreases count - i,
    {
        list.push(ZoneNumber::new(i + 1));
        i = i + 1;
    }
    list
}

/// Whether user-defined zones are in force: they are enabled, and the modifiers
/// that arm them are held.
pub open spec fn zone_mode(config: ZonesConfig, held: Option<ModifiersState>) -> bool {
    &&& config.enabled
    &&& held matches Some(have)
    &&& arms(config.modifier, have)
}

impl ZoneDragState {
    /// Whether this is the state that a drag arms with on an output.
    pub open spec fn starts(
        self,
        config: ZonesConfig,
        output: OutputPlace,
        workspace: Option<Seq<char>>,
        theme: (i32, i32),
    ) -> bool {
        &&& self.output == output.id
        &&& self.context.resolves(
            config,
            config.assigned_id(output.identity@, workspace)->0,
            output.area,
            config.gaps_in_force(theme),
        )
        &&& self.inactive_alpha == dimmed_alpha(config.inactive_opacity)
        &&& numbered(
            self.numbers@,
            if config.show_zone_numbers {
                self.context.layout.zones@.len()
            } else {
                0
            },
        )
    }

    /// Whether two states differ at most in what is targeted.
    pub open spec fn keeps(self, other: ZoneDragState) -> bool {
        &&& self.output == other.output
        &&& self.context == other.context
        &&& self.inactive_alpha == other.inactive_alpha
        &&& self.numbers == other.numbers
    }

    /// Arm a drag on an output; none where no layout applies to it.
    fn arm(
        config: &ZonesConfig,
        output: &OutputPlace,
        workspace_id: Option<&str>,
        theme: (i32, i32),
    ) -> (r: Option<Self>)
        ensures
            r is Some <==> is_resolvable(*config, output.identity@, characters(workspace_id), output.area),
            r matches Some(state) ==> state.starts(*config, *output, characters(workspace_id), theme),
    {
        match ZoneContext::resolve(config, &output.identity, output.area, workspace_id, config.gaps_or(theme)) {
            Some(context) => {
                let numbers = if config.show_zone_numbers {
                    badges(context.len())
                } else {
                    badges(0)
                };
                Some(
                    ZoneDragState {
                        output: output.id,
                        context,
                        target: None,
                        armed: true,
                        inactive_alpha: inactive_alpha(config.inactive_opacity),
                        numbers,
                    },
                )
            },
            None => None,
        }
    }
}

/// Where the cursor takes a window of some size: one from the tiling wherever it goes,
/// any other onto the edges of the output that it is near to.
pub open spec fn taken_to(
    previous: ManagedLayer,
    offset: PixelPoint,
    location: Location,
    output: PixelRect,
    size: PixelSize,
    threshold: Binary64,
) -> Location {
    if previous == ManagedLayer::Tiling {
        location
    } else {
        Location {
            x: edge_snapped(location.x, offset.x, size.w, output.loc.x, output.size.w, threshold),
            y: edge_snapped(location.y, offset.y, size.h, output.loc.y, output.size.h, threshold),
        }
    }
}

/// From a place where a window is taken to the window's upper left corner.
pub open spec fn grip(window: PixelPoint, start: Location) -> PixelPoint {
    PixelPoint {
        x: saturated(window.x - start.x.round_i32()) as i32,
        y: saturated(window.y - start.y.round_i32()) as i32,
    }
}

impl MoveGrabState {
    /// Edge snapping and zone snapping are never in force together.
    pub open spec fn is_exclusive(self) -> bool {
        self.snapping_zone is Some ==> (self.zones matches Some(zones) ==> zones.target is None && !zones.armed)
    }

    /// Whether two states differ at most in what the window would snap to.
    pub open spec fn same_window(self, other: MoveGrabState) -> bool {
        &&& self.window_offset == other.window_offset
        &&& self.indicator_thickness == other.indicator_thickness
        &&& self.previous == other.previous
        &&& self.location == other.location
        &&& self.cursor_output == other.cursor_output
    }

    /// The state in which a drag starts.
    pub fn new(
        initial_window_location: PixelPoint,
        start: Location,
        cursor_output: u64,
        indicator_thickness: u8,
        previous: ManagedLayer,
    ) -> (r: Self)
        ensures
            r.window_offset == grip(initial_window_location, start),
            r.indicator_thickness == indicator_thickness,
            r.previous == previous,
            r.snapping_zone is None,
            r.zones is None,
            r.zones_output is None,
            r.location == start,
            r.cursor_output == cursor_output,
            r.is_exclusive(),
    {
        MoveGrabState {
            window_offset: PixelPoint {
                x: held(initial_window_location.x as i64 - start.x.round_i32() as i64),
                y: held(initial_window_location.y as i64 - start.y.round_i32() as i64),
            },
            indicator_thickness,
            previous,
            snapping_zone: None,
            zones: None,
            zones_output: None,
            location: start,
            cursor_output,
        }
    }

    /// Move the window with the cursor. A window that floats or is sticky is pulled
    /// onto the edges of the output.
    pub fn move_to(
        &mut self,
        location: Location,
        output: &OutputPlace,
        window_size: PixelSize,
        edge_snap_threshold: Binary64,
    )
        ensures
            final(self).location == taken_to(
                old(self).previous,
                old(self).window_offset,
                location,
                output.geometry,
                window_size,
                edge_snap_threshold,
            ),
            final(self).cursor_output == output.id,
            final(self).window_offset == old(self).window_offset,
            final(self).indicator_thickness == old(self).indicator_thickness,
            final(self).previous == old(self).previous,
            final(self).snapping_zone == old(self).snapping_zone,
            final(self).zones == old(self).zones,
            final(self).zones_output == old(self).zones_output,
    {
        self.cursor_output = output.id;
        let offset = self.window_offset;
        match self.previous {
            ManagedLayer::Floating | ManagedLayer::Sticky => {
                self.location = Location {
                    x: snap_to_edge(
                        location.x,
                        offset.x,
                        window_size.w,
                        output.geometry.loc.x,
                        output.geometry.size.w,
                        edge_snap_threshold,
                    ),
                    y: snap_to_edge(
                        location.y,
                        offset.y,
                        window_size.h,
                        output.geometry.loc.y,
                        output.geometry.size.h,
                        edge_snap_threshold,
                    ),
                };
            },
            ManagedLayer::Tiling => {
                self.location = location;
            },
        }
    }

    /// Whether this is the state after the cursor moved to a place on an output.
    pub open spec fn follows(
        self,
        before: MoveGrabState,
        config: ZonesConfig,
        held: Option<ModifiersState>,
        output: OutputPlace,
        workspace: Option<Seq<char>>,
        theme: (i32, i32),
        location: Location,
    ) -> bool {
        let point = local_point(location, output.geometry);
        &&& self.same_window(before)
        &&& if before.previous != ManagedLayer::Floating {
            self.snapping_zone == before.snapping_zone && self.zones == before.zones && self.zones_output
                == before.zones_output
        } else if zone_mode(config, held) {
            &&& self.snapping_zone is None
            &&& self.zones_output == Some(output.id)
            &&& if before.zones_output == Some(output.id) {
                &&& self.zones is Some <==> before.zones is Some
                &&& self.zones matches Some(zones) ==> zones.keeps(before.zones->0)
            } else {
                &&& self.zones is Some <==> is_resolvable(config, output.identity@, workspace, output.area)
                &&& self.zones matches Some(zones) ==> zones.starts(config, output, workspace, theme)
            }
            &&& self.zones matches Some(zones) ==> zones.armed && zones.context.hits(point, zones.target)
        } else {
            &&& self.zones_output == before.zones_output
            &&& self.zones is Some <==> before.zones is Some
            &&& self.zones matches Some(zones) ==> zones.keeps(before.zones->0) && !zones.armed && zones.target is None
            &&& SnappingZone::first_at(
                point,
                PixelRect { loc: PixelPoint { x: 0, y: 0 }, size: output.geometry.size },
                self.snapping_zone,
            )
        }
    }

    /// Find out what the window would snap to with the cursor at a place on an
    /// output. Tells whether the zones were resolved anew, and so whether the
    /// badges have to be replaced.
    ///
    /// While the modifiers that arm zones are held, zones replace edge snapping
    /// outright rather than competing with it. They are resolved once for each
    /// output: a layout that resolves to nothing is remembered as a miss. Without
    /// the modifiers they are disarmed rather than discarded.
    pub fn update_snapping(
        &mut self,
        config: &ZonesConfig,
        held: Option<ModifiersState>,
        output: &OutputPlace,
        workspace_id: Option<&str>,
        theme: (i32, i32),
        location: Location,
    ) -> (r: bool)
        ensures
            final(self).follows(*old(self), *config, held, *output, characters(workspace_id), theme, location),
            r == (old(self).previous == ManagedLayer::Floating && zone_mode(*config, held) && old(self).zones_output
                != Some(output.id)),
    {
        if self.previous != ManagedLayer::Floating {
            return false;
        }
        let armed = config.enabled && match held {
            Some(have) => modifiers_match(&config.modifier, &have),
            None => false,
        };
        let point = to_local(location, output.geometry);
        if armed {
            self.snapping_zone = None;
            let current = match self.zones_output {
                Some(id) => id == output.id,
                None => false,
            };
            let zones = if current {
                self.zones.take()
            } else {
                ZoneDragState::arm(config, output, workspace_id, theme)
            };
            self.zones_output = Some(output.id);
            self.zones = match zones {
                Some(zones) => {
                    let target = zones.context.hit(point);
                    Some(
                        ZoneDragState {
                            output: zones.output,
                            context: zones.context,
                            target,
                            armed: true,
                            inactive_alpha: zones.inactive_alpha,
                            numbers: zones.numbers,
                        },
                    )
                },
                None => None,
            };
            return !current;
        }
        self.zones = match self.zones.take() {
            Some(zones) => Some(
                ZoneDragState {
                    output: zones.output,
                    context: zones.context,
                    target: None,
                    armed: false,
                    inactive_alpha: zones.inactive_alpha,
                    numbers: zones.numbers,
                },
            ),
            None => None,
        };
        let whole = PixelRect { loc: PixelPoint { x: 0, y: 0 }, size: output.geometry.size };
        self.snapping_zone = SnappingZone::at(point, whole);
        false
    }
}

/// However the cursor moves, edge snapping and zone snapping stay exclusive.
pub proof fn snapping_stays_exclusive(
    before: MoveGrabState,
    after: MoveGrabState,
    config: ZonesConfig,
    held: Option<ModifiersState>,
    output: OutputPlace,
    workspace: Option<Seq<char>>,
    theme: (i32, i32),
    location: Location,
)
    requires
        before.is_exclusive(),
        after.follows(before, config, held, output, workspace, theme, location),
    ensures
        after.is_exclusive(),
{
}

/// Tapping the modifiers off and on again over the same output finds the same
/// zones and badges, without resolving anything anew.
pub proof fn tapping_the_modifier_keeps_the_zones(
    before: MoveGrabState,
    off: MoveGrabState,
    on: MoveGrabState,
    config: ZonesConfig,
    released: Option<ModifiersState>,
    held: Option<ModifiersState>,
    output: OutputPlace,
    workspace: Option<Seq<char>>,
    theme: (i32, i32),
    location: Location,
)
    requires
        before.previous == ManagedLayer::Floating,
        before.zones_output == Some(output.id),
        !zone_mode(config, released),
        zone_mode(config, held),
        off.follows(before, config, released, output, workspace, theme, location),
        on.follows(off, config, held, output, workspace, theme, location),
    ensures
        on.zones is Some <==> before.zones is Some,
        on.zones matches Some(zones) ==> zones.keeps(before.zones->0) && zones.armed,
{
}

// ---------------------------------------------------------------------------
// What becomes of it.
// ---------------------------------------------------------------------------

/// Whether a button event ends the grab.
pub open spec fn ends_grab(mode: ReleaseMode, any_pressed: bool, pressed_now: bool) -> bool {
    match mode {
        ReleaseMode::NoMouseButtons => !any_pressed,
        ReleaseMode::Click => pressed_now,
    }
}

/// Whether a button event ends the grab.
pub fn releases(mode: ReleaseMode, any_pressed: bool, pressed_now: bool) -> (r: bool)
    ensures
        r == ends_grab(mode, any_pressed, pressed_now),
{
    match mode {
        ReleaseMode::NoMouseButtons => !any_pressed,
        ReleaseMode::Click => pressed_now,
    }
}

impl MoveGrabState {
    /// The zones that a drop snaps to.
    pub open spec fn drop_target(self) -> Option<ZoneHit> {
        match self.zones {
            Some(zones) => zones.target,
            None => None,
        }
    }

    /// Whether `action` is what becomes of the window.
    pub open spec fn drops(self, tiling_enabled: bool, action: DropAction) -> bool {
        match self.previous {
            ManagedLayer::Sticky => action is Sticky,
            ManagedLayer::Tiling => if tiling_enabled {
                action is Tile
            } else {
                action is Float
            },
            ManagedLayer::Floating => match self.drop_target() {
                Some(hit) => action matches DropAction::SnapToZone(snap) && snap.names_zones(
                    self.zones->0.context.layout_id@,
                    hit.zones@,
                    hit.rect,
                    self.zones->0.context.gap,
                ),
                None => match self.snapping_zone {
                    Some(SnappingZone::Maximize) => action is Maximize,
                    Some(zone) => action matches DropAction::SnapToEdge(moves) && moves@ == zone.moves(),
                    None => action is Float,
                },
            },
        }
    }

    /// What becomes of the window when it is dropped. `tiling_enabled` tells of the
    /// workspace it is dropped on.
    ///
    /// A zone target wins over edge snapping: the user was looking at the zone
    /// overlay when they let go.
    pub fn drop_action(&self, tiling_enabled: bool) -> (r: DropAction)
        ensures
            self.drops(tiling_enabled, r),
    {
        match self.previous {
            ManagedLayer::Sticky => return DropAction::Sticky,
            ManagedLayer::Tiling => {
                return if tiling_enabled {
                    DropAction::Tile
                } else {
                    DropAction::Float
                };
            },
            ManagedLayer::Floating => {},
        }
        if let Some(zones) = &self.zones {
            if let Some(hit) = &zones.target {
                return DropAction::SnapToZone(zones.context.snap(hit));
            }
        }
        match self.snapping_zone {
            Some(SnappingZone::Maximize) => DropAction::Maximize,
            Some(zone) => DropAction::SnapToEdge(zone.directions()),
            None => DropAction::Float,
        }
    }

    /// Where the window is put that is dropped.
    pub open spec fn drop_place(self) -> PixelPoint {
        PixelPoint {
            x: saturated(self.location.x.round_i32() + self.window_offset.x) as i32,
            y: saturated(self.location.y.round_i32() + self.window_offset.y) as i32,
        }
    }

    /// Where the window is put that is dropped.
    pub fn drop_location(&self) -> (r: PixelPoint)
        ensures
            r == self.drop_place(),
    {
        PixelPoint {
            x: held(self.location.x.round_i32() as i64 + self.window_offset.x as i64),
            y: held(self.location.y.round_i32() as i64 + self.window_offset.y as i64),
        }
    }
}

/// The layout, the zones and the gap that a drop on a zone leaves on the window are
/// those of the overlay that was shown.
pub proof fn dropped_snap_is_the_target(state: MoveGrabState, tiling_enabled: bool, action: DropAction)
    requires
        state.previous == ManagedLayer::Floating,
        state.drops(tiling_enabled, action),
        state.drop_target() is Some,
    ensures
        action matches DropAction::SnapToZone(FloatingTiled::Zone { layout, zones, rect, gap }) && layout@
            == state.zones->0.context.layout_id@ && zones@ == state.drop_target()->0.zones@ && rect
            == state.drop_target()->0.rect && gap == state.zones->0.context.gap,
{
}

// ---------------------------------------------------------------------------
// What is drawn.
// ---------------------------------------------------------------------------

/// Scale that a dragged window is drawn at.
pub open spec fn scale_after(previous: ManagedLayer, millis: u64) -> Binary64 {
    if previous == ManagedLayer::Tiling {
        let done = Binary64::spec_count(millis).over(Binary64 { bits: RESCALE_ANIMATION_DURATION }).least(
            Binary64 { bits: ONE },
        );
        (Binary64 { bits: SHRUNK_SCALE }).plus(
            (Binary64 { bits: ONE }).minus(done).times(Binary64 { bits: SHRINKING }),
        )
    } else {
        Binary64 { bits: ONE }
    }
}

/// Scale that a dragged window is drawn at, so long after the drag started: one
/// taken out of the tiling shrinks, any other keeps its size.
pub fn window_scale(previous: ManagedLayer, millis: u64) -> (r: Binary64)
    ensures
        r == scale_after(previous, millis),
{
    if previous == ManagedLayer::Tiling {
        let done = Binary64::count(millis).over(fixed(RESCALE_ANIMATION_DURATION)).least(fixed(ONE));
        fixed(SHRUNK_SCALE).plus(fixed(ONE).minus(done).times(fixed(SHRINKING)))
    } else {
        fixed(ONE)
    }
}

/// Opacity of the window on an output, in single precision.
pub open spec fn alpha_on(cursor_output: u64, output: u64) -> Binary64 {
    if cursor_output == output {
        Binary64 { bits: ONE }
    } else {
        Binary64 { bits: SNAP_OVERLAY_ALPHA }
    }
}

/// Opacity of the window on an output, in single precision: full where the cursor
/// is, faint anywhere else.
pub fn window_alpha(cursor_output: u64, output: u64) -> (r: Binary64)
    ensures
        r == alpha_on(cursor_output, output),
{
    if cursor_output == output {
        fixed(ONE)
    } else {
        fixed(SNAP_OVERLAY_ALPHA)
    }
}

/// A length drawn at a scale.
pub open spec fn scaled(length: i32, scale: Binary64) -> i32 {
    Binary64::spec_whole(length).times(scale).round_i32()
}

/// Coordinate at which a scaled window is drawn, such that it shrinks towards the
/// cursor.
pub open spec fn render_coordinate(location: Binary64, offset: i32, scale: Binary64, output_start: i32) -> int {
    location.round_i32() - output_start + offset - (offset - scaled(offset, scale))
}

impl MoveGrabState {
    /// Where the window is drawn on an output, relative to it, at a scale.
    pub open spec fn render_place(self, scale: Binary64, output_geometry: PixelRect) -> PixelPoint {
        PixelPoint {
            x: saturated(
                render_coordinate(self.location.x, self.window_offset.x, scale, output_geometry.loc.x),
            ) as i32,
            y: saturated(
                render_coordinate(self.location.y, self.window_offset.y, scale, output_geometry.loc.y),
            ) as i32,
        }
    }

    /// Where the window is drawn on an output, relative to it, at a scale.
    pub fn render_location(&self, scale: Binary64, output_geometry: PixelRect) -> (r: PixelPoint)
        ensures
            r == self.render_place(scale, output_geometry),
    {
        let x: i64 = self.location.x.round_i32() as i64 - output_geometry.loc.x as i64 + self.window_offset.x as i64
            - (self.window_offset.x as i64 - Binary64::whole(self.window_offset.x).times(scale).round_i32() as i64);
        let y: i64 = self.location.y.round_i32() as i64 - output_geometry.loc.y as i64 + self.window_offset.y as i64
            - (self.window_offset.y as i64 - Binary64::whole(self.window_offset.y).times(scale).round_i32() as i64);
        PixelPoint { x: held(x), y: held(y) }
    }

    /// Whether anything is drawn on an output: the window, or a part of it, is on
    /// it. `geometry` is that of the window.
    pub fn is_drawn_on(&self, geometry: PixelRect, output_geometry: PixelRect) -> (r: bool)
        ensures
            r == output_geometry.overlaps(window_pixels(geometry, self.location, self.window_offset)),
    {
        output_geometry.overlaps(window_geometry(geometry, self.location, self.window_offset))
    }

    /// Pixels that the border around a window of some size surrounds, drawn at a
    /// scale on an output; none where borders have no thickness.
    pub fn focus_border(&self, size: PixelSize, scale: Binary64, output_geometry: PixelRect) -> (r: Option<PixelRect>)
        ensures
            match r {
                Some(border) => {
                    &&& self.indicator_thickness > 0
                    &&& border.loc == self.render_place(scale, output_geometry)
                    &&& border.size == size_at(size, scale)
                },
                None => self.indicator_thickness == 0,
            },
    {
        if self.indicator_thickness > 0 {
            Some(PixelRect { loc: self.render_location(scale, output_geometry), size: rendered_size(size, scale) })
        } else {
            None
        }
    }

    /// Thickness of the border around a drop target.
    pub fn target_thickness(&self) -> (r: u8)
        ensures
            r >= 1,
            r == if self.indicator_thickness >= 1 {
                self.indicator_thickness
            } else {
                1
            },
    {
        if self.indicator_thickness >= 1 {
            self.indicator_thickness
        } else {
            1
        }
    }

    /// Pixels of the edge-snapping overlay on an output.
    pub open spec fn shown_edge(self, output: u64, area: PixelRect, gaps: (i32, i32)) -> Option<PixelRect> {
        match self.snapping_zone {
            Some(zone) => if self.cursor_output == output {
                Some(
                    match zone.corner() {
                        Some(corner) => corner.relative_geometry(area, gaps),
                        None => area,
                    },
                )
            } else {
                None
            },
            None => None,
        }
    }

    /// Pixels of the edge-snapping overlay on an output: the half or quarter that
    /// the window would snap to, on the output that the cursor is on.
    pub fn edge_overlay(&self, output: u64, area: PixelRect, gaps: (i32, i32)) -> (r: Option<PixelRect>)
        ensures
            r == self.shown_edge(output, area, gaps),
    {
        match self.snapping_zone {
            Some(zone) => if self.cursor_output == output {
                Some(zone.overlay_geometry(area, gaps))
            } else {
                None
            },
            None => None,
        }
    }
}

/// Size at which a window is drawn at a scale.
pub open spec fn size_at(size: PixelSize, scale: Binary64) -> PixelSize {
    PixelSize { w: scaled(size.w, scale), h: scaled(size.h, scale) }
}

/// Size at which a window is drawn at a scale.
pub fn rendered_size(size: PixelSize, scale: Binary64) -> (r: PixelSize)
    ensures
        r == size_at(size, scale),
{
    PixelSize {
        w: Binary64::whole(size.w).times(scale).round_i32(),
        h: Binary64::whole(size.h).times(scale).round_i32(),
    }
}

/// Key of a zone's overlay.
pub open spec fn zone_key(index: nat) -> u8 {
    if index < ZONE_KEY_MAX {
        index as u8
    } else {
        ZONE_KEY_MAX as u8
    }
}

impl ZoneDragState {
    /// Pixels of a zone.
    pub open spec fn pixels(self, i: int) -> PixelRect {
        crate::pixel::zone_pixels(self.context.layout.zones@[i], self.context.area, self.context.gaps.1)
    }

    /// Whether a zone belongs to the drop target.
    pub open spec fn targeted(self, i: int) -> bool {
        self.target matches Some(hit) && hit.zones@.contains(i as usize)
    }

    /// The badges of the first `n` zones.
    pub open spec fn badge_elements(self, n: nat) -> Seq<OverlayElement>
        decreases n,
    {
        if n == 0 {
            Seq::empty()
        } else {
            self.badge_elements((n - 1) as nat).push(
                OverlayElement::Badge {
                    number: self.numbers@[n - 1].elem.number,
                    location: badge_place(self.pixels(n - 1)),
                },
            )
        }
    }

    /// The drop target, its border above its fill.
    pub open spec fn target_elements(self) -> Seq<OverlayElement> {
        match self.target {
            Some(hit) => seq![
                OverlayElement::TargetBorder { key: ZONE_TARGET_KEY, geometry: hit.geometry },
                OverlayElement::TargetFill { key: ZONE_TARGET_KEY, geometry: hit.geometry },
            ],
            None => Seq::empty(),
        }
    }

    /// Those of the first `n` zones that are not targeted, dimmed.
    pub open spec fn dimmed_elements(self, n: nat) -> Seq<OverlayElement>
        decreases n,
    {
        if n == 0 {
            Seq::empty()
        } else {
            let before = self.dimmed_elements((n - 1) as nat);
            if self.targeted(n - 1) {
                before
            } else {
                before.push(
                    OverlayElement::Dimmed { key: zone_key((n - 1) as nat), geometry: self.pixels(n - 1) },
                )
            }
        }
    }

    /// How many zones bear a badge.
    pub open spec fn badge_count(self) -> nat {
        if self.numbers@.len() <= self.context.layout.zones@.len() {
            self.numbers@.len()
        } else {
            self.context.layout.zones@.len()
        }
    }

    /// The overlay over the zones, frontmost first: the badges, the drop target,
    /// and every zone outside it.
    pub open spec fn overlay_elements(self) -> Seq<OverlayElement> {
        self.badge_elements(self.badge_count()) + self.target_elements() + self.dimmed_elements(
            self.context.layout.zones@.len(),
        )
    }

    /// The overlay over the zones, frontmost first. The target stands before the
    /// zones that it is meant to stand out from, and zones inside it are left out,
    /// since the dim under the target's fill would tint it.
    pub fn overlay(&self) -> (r: Vec<OverlayElement>)
        ensures
            r@ == self.overlay_elements(),
    {
        let geometries = self.context.geometries();
        let mut elements: Vec<OverlayElement> = Vec::new();
        let mut i: usize = 0;
        while i < self.numbers.len() && i < geometries.len()
            invariant
                i <= self.numbers@.len(),
                i <= geometries@.len(),
                geometries@.len() == self.context.layout.zones@.len(),
                forall|j: int| 0 <= j < geometries@.len() ==> #[trigger] geometries@[j] == self.pixels(j),
                elements@ == self.badge_elements(i as nat),
            decreases self.numbers@.len() - i,
        {
            let badge = &self.numbers[i];
            let location = badge_location(badge, geometries[i]);
            elements.push(OverlayElement::Badge { number: badge.elem.number, location });
            i = i + 1;
        }
        let ghost badges = elements@;
        assert(badges == self.badge_elements(self.badge_count()));
        if let Some(hit) = &self.target {
            elements.push(OverlayElement::TargetBorder { key: ZONE_TARGET_KEY, geometry: hit.geometry });
            elements.push(OverlayElement::TargetFill { key: ZONE_TARGET_KEY, geometry: hit.geometry });
        }
        let ghost above = elements@;
        assert(above == badges + self.target_elements());
        let mut i: usize = 0;
        assert(elements@ == above + self.dimmed_elements(0));
        while i < geometries.len()
            invariant
                i <= geometries@.len(),
                geometries@.len() == self.context.layout.zones@.len(),
                forall|j: int| 0 <= j < geometries@.len() ==> #[trigger] geometries@[j] == self.pixels(j),
                elements@ == above + self.dimmed_elements(i as nat),
            decreases geometries@.len() - i,
        {
            let targeted = match &self.target {
                Some(hit) => holds(hit.zones.as_slice(), i),
                None => false,
            };
            if !targeted {
                let key: u8 = if i < ZONE_KEY_MAX {
                    i as u8
                } else {
                    ZONE_KEY_MAX as u8
                };
                elements.push(OverlayElement::Dimmed { key, geometry: geometries[i] });
            }
            i = i + 1;
            assert(elements@ == above + self.dimmed_elements(i as nat));
        }
        elements
    }

    /// Opacity of an element of the overlay, in single precision.
    pub open spec fn alpha_of(self, element: OverlayElement) -> Binary64 {
        match element {
            OverlayElement::TargetFill { .. } => Binary64 { bits: SNAP_OVERLAY_ALPHA },
            OverlayElement::Dimmed { .. } => self.inactive_alpha,
            _ => Binary64 { bits: ONE },
        }
    }

    /// Opacity of an element of the overlay, in single precision: the target reads
    /// at exactly the opacity that edge snapping uses, the other zones are dimmed,
    /// and badges and borders are solid.
    pub fn fill_alpha(&self, element: &OverlayElement) -> (r: Binary64)
        ensures
            r == self.alpha_of(*element),
    {
        match element {
            OverlayElement::TargetFill { .. } => fixed(SNAP_OVERLAY_ALPHA),
            OverlayElement::Dimmed { .. } => self.inactive_alpha,
            OverlayElement::Badge { .. } | OverlayElement::TargetBorder { .. } => fixed(ONE),
        }
    }
}

impl MoveGrabState {
    /// The zone overlay that is shown on an output: all of it where the cursor is,
    /// as long as the modifiers that arm zones are held, and none of it otherwise.
    pub open spec fn shown_zones(self, output: u64) -> Seq<OverlayElement> {
        match self.zones {
            Some(zones) => if zones.armed && self.cursor_output == output {
                zones.overlay_elements()
            } else {
                Seq::empty()
            },
            None => Seq::empty(),
        }
    }

    /// The zone overlay that is shown on an output, frontmost first.
    pub fn zone_overlay(&self, output: u64) -> (r: Vec<OverlayElement>)
        ensures
            r@ == self.shown_zones(output),
    {
        match &self.zones {
            Some(zones) => if zones.armed && self.cursor_output == output {
                zones.overlay()
            } else {
                Vec::new()
            },
            None => Vec::new(),
        }
    }
}

/// The layout appears the moment the modifiers go down: after the cursor moved with
/// them held over an output that resolves to zones, the overlay on that output
/// stands, with what a drop snaps to as its target, and no other output has one.
pub proof fn the_layout_appears_where_the_cursor_is(
    before: MoveGrabState,
    after: MoveGrabState,
    config: ZonesConfig,
    held: Option<ModifiersState>,
    output: OutputPlace,
    workspace: Option<Seq<char>>,
    theme: (i32, i32),
    location: Location,
    other: u64,
)
    requires
        before.previous == ManagedLayer::Floating,
        before.cursor_output == output.id,
        before.zones_output != Some(output.id),
        zone_mode(config, held),
        is_resolvable(config, output.identity@, workspace, output.area),
        after.follows(before, config, held, output, workspace, theme, location),
    ensures
        after.zones is Some,
        after.shown_zones(output.id) == after.zones->0.overlay_elements(),
        after.zones->0.context.hits(local_point(location, output.geometry), after.zones->0.target),
        other != output.id ==> after.shown_zones(other).len() == 0,
{
}

/// Letting go of the modifiers takes the overlay away, and with it the target.
pub proof fn without_the_modifiers_no_zone_is_shown(
    before: MoveGrabState,
    after: MoveGrabState,
    config: ZonesConfig,
    held: Option<ModifiersState>,
    output: OutputPlace,
    workspace: Option<Seq<char>>,
    theme: (i32, i32),
    location: Location,
    shown: u64,
)
    requires
        before.previous == ManagedLayer::Floating,
        !zone_mode(config, held),
        after.follows(before, config, held, output, workspace, theme, location),
    ensures
        after.shown_zones(shown).len() == 0,
        after.drop_target() is None,
{
}

/// No zone of the drop target is dimmed.
pub proof fn targeted_zones_are_not_dimmed(state: ZoneDragState, n: nat, k: int)
    requires
        0 <= k < state.dimmed_elements(n).len(),
    ensures
        exists|i: int|
            0 <= i < n && !#[trigger] state.targeted(i) && state.dimmed_elements(n)[k] == (OverlayElement::Dimmed {
                key: zone_key(i as nat),
                geometry: state.pixels(i),
            }),
    decreases n,
{
    if n > 0 {
        let before = state.dimmed_elements((n - 1) as nat);
        if k < before.len() {
            targeted_zones_are_not_dimmed(state, (n - 1) as nat, k);
        } else {
            assert(!state.targeted(n - 1));
        }
    }
}

// ---------------------------------------------------------------------------
// What holds of numbers
// ---------------------------------------------------------------------------

/// Whole numbers add up exactly.
pub proof fn lemma_whole_plus(a: Binary64, k: int, b: Binary64, m: int)
    requires
        a.is_finite(),
        b.is_finite(),
        a.value() == k * one_units(),
        b.value() == m * one_units(),
        apart(k + m, 0) < 2 * STEPS,
    ensures
        a.plus(b).is_finite(),
        a.plus(b).value() == (k + m) * one_units(),
{
    let one = one_units();
    let n = apart(k + m, 0) as nat;
    lemma_representable(n, 1074);
    lemma_pow2_pos(1074);
    assert(k * one + m * one == (k + m) * one) by (nonlinear_arith);
    assert(apart((k + m) * one, 0) == n * one) by (nonlinear_arith)
        requires
            n == apart(k + m, 0),
            one > 0,
    ;
    lemma_plus_exact(a, b, rounded(n * one, 1));
}

/// Whole numbers are taken from each other exactly.
pub proof fn lemma_whole_minus(a: Binary64, k: int, b: Binary64, m: int)
    requires
        a.is_finite(),
        b.is_finite(),
        a.value() == k * one_units(),
        b.value() == m * one_units(),
        apart(k - m, 0) < 2 * STEPS,
    ensures
        a.minus(b).is_finite(),
        a.minus(b).value() == (k - m) * one_units(),
{
    lemma_negated(b);
    let one = one_units();
    assert((-m) * one == -(m * one)) by (nonlinear_arith);
    lemma_whole_plus(a, k, b.negated(), -m);
}

/// A window that is pulled onto an edge of an output stands on it exactly, with its
/// near edge on the near edge or its far edge on the far one; any other window is
/// left where it is.
pub proof fn pulled_windows_stand_on_the_edge(
    location: Binary64,
    offset: i32,
    size: i32,
    output_start: i32,
    output_size: i32,
    threshold: Binary64,
)
    ensures
        ({
            let after = edge_snapped(location, offset, size, output_start, output_size, threshold);
            let at = Binary64::spec_whole(offset).plus(after);
            ||| after == location
            ||| at.value() == output_start * one_units()
            ||| at.value() == (output_start + output_size - size) * one_units()
        }),
{
    let start = Binary64::spec_whole(output_start);
    let extent = Binary64::spec_whole(output_size);
    let by = Binary64::spec_whole(offset);
    let length = Binary64::spec_whole(size);
    lemma_whole(output_start);
    lemma_whole(output_size);
    lemma_whole(offset);
    lemma_whole(size);
    let a = output_start as int;
    let b = output_size as int;
    let o = offset as int;
    let l = size as int;
    lemma_whole_minus(start, a, by, o);
    lemma_whole_plus(by, o, start.minus(by), a - o);
    let end = start.plus(extent);
    lemma_whole_plus(start, a, extent, b);
    lemma_whole_minus(end, a + b, by, o);
    lemma_whole_minus(end.minus(by), a + b - o, length, l);
    lemma_whole_plus(by, o, end.minus(by).minus(length), a + b - o - l);
}

/// A window taken out of the tiling is never drawn smaller than three fifths of its
/// size, nor larger than it is.
pub proof fn dragged_windows_shrink_to_three_fifths(previous: ManagedLayer, millis: u64)
    ensures
        scale_after(previous, millis).is_finite(),
        (Binary64 { bits: SHRUNK_SCALE }).value() <= scale_after(previous, millis).value() <= one_units(),
{
    let zero = Binary64 { bits: crate::rect::ZERO };
    let one = Binary64 { bits: ONE };
    let least = Binary64 { bits: SHRUNK_SCALE };
    let share = Binary64 { bits: SHRINKING };
    let length = Binary64 { bits: RESCALE_ANIMATION_DURATION };
    lemma_constants();
    lemma_units_small(0);
    lemma2_to64();
    vstd::arithmetic::power2::lemma2_to64_rest();
    lemma_pow2_pos(1020);
    lemma_pow2_adds(1, 1020);
    lemma_pow2_adds(54, 1020);
    let p = pow2(1020);
    assert(scale(SHRUNK_SCALE as nat) == 1021);
    assert(scale(SHRINKING as nat) == 1020);
    assert(SHRUNK_SCALE - 1021 * STEPS == 0x13_3333_3333_3333);
    assert(SHRINKING - 1020 * STEPS == 0x19_9999_9999_999a);
    assert(least.value() == 0x13_3333_3333_3333 * (2 * p));
    assert(share.value() == 0x19_9999_9999_999a * p);
    assert(least.value() + share.value() == one_units()) by {
        assert(0x13_3333_3333_3333 * (2 * p) + 0x19_9999_9999_999a * p == 0x40_0000_0000_0000 * p) by (nonlinear_arith);
    }
    assert(0 < least.value() && 0 < share.value());
    if previous == ManagedLayer::Tiling {
        let count = Binary64::spec_count(millis);
        lemma_rounded_limit(millis as nat * one_units(), 1);
        lemma_signed(false, rounded(millis as nat * one_units(), 1));
        reveal(Binary64::spec_over);
        lemma_units_ordered(0, length.code());
        lemma_rounded_limit(units(count.code()) * one_units(), units(length.code()));
        lemma_signed(false, rounded(units(count.code()) * one_units(), units(length.code())));
        lemma_signed(false, INFINITE as nat);
        let share_done = count.over(length);
        assert(!share_done.is_nan() && !share_done.is_negative());
        let done = share_done.least(one);
        lemma_finite_below(done, one);
        lemma_negated(done);
        lemma_negated(zero);
        lemma_plus_monotone(one, done.negated(), one, zero);
        lemma_plus_exact(one, zero, one.code());
        let rest = one.minus(done);
        lemma_plus_monotone(one, one.negated(), one, done.negated());
        lemma_negated(one);
        lemma_plus_exact(one, one.negated(), 0);
        assert(0 <= rest.value() <= one_units());
        lemma_finite_below(rest, one);
        reveal(Binary64::spec_times);
        lemma_pow2_pos(1074);
        let u = units(rest.code());
        let v = units(share.code());
        assert(u * v <= v * one_units()) by (nonlinear_arith)
            requires
                u <= one_units(),
        ;
        lemma_rounded_monotone(u * v, v * one_units(), one_units());
        lemma_rounded_scaled(v, 1, one_units());
        assert(1 * one_units() == one_units());
        lemma_rounded_exact(share.code());
        let code = rounded(u * v, one_units());
        let negative = rest.is_negative() != share.is_negative();
        lemma_signed(negative, code);
        lemma_units_ordered(code, share.code());
        let product = rest.times(share);
        assert(rest.is_negative() ==> u == 0);
        if u == 0 {
            assert(u * v == 0) by (nonlinear_arith)
                requires
                    u == 0,
            ;
            lemma_rounded_zero(one_units());
        }
        assert(0 <= product.value() <= share.value());
        lemma_finite_below(product, share);
        lemma_plus_monotone(least, zero, least, product);
        lemma_plus_exact(least, zero, least.code());
        lemma_plus_monotone(least, product, least, share);
        lemma_plus_exact(least, share, one.code());
        lemma_finite_below(scale_after(previous, millis), one);
    }
}

/// A layout that resolved to nothing is not resolved again on the same output.
pub proof fn a_miss_is_not_retried(
    before: MoveGrabState,
    after: MoveGrabState,
    config: ZonesConfig,
    held: Option<ModifiersState>,
    output: OutputPlace,
    workspace: Option<Seq<char>>,
    theme: (i32, i32),
    location: Location,
)
    requires
        before.zones_output == Some(output.id),
        before.zones is None,
        after.follows(before, config, held, output, workspace, theme, location),
    ensures
        after.zones is None,
        after.zones_output == Some(output.id),
{
}

} // verus!
