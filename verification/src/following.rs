//! What holds of a window that is dragged, whatever the cursor does and wherever the
//! outputs are.

use crate::alignment::lemma_constants;
use crate::binary64::{lemma_rounded_zero, lemma_signed, one_units, Binary64};
use crate::config::ZonesConfig;
use crate::conversion::saturated;
use crate::drag::{
    alpha_on, dimmed_alpha, edge_snapped, ends_grab, grip, is_output_under, lemma_whole_minus, lemma_whole_plus,
    local_point, output_change, scale_after, scaled, size_at, taken_to, targeted_zones_are_not_dimmed, window_pixels,
    zone_key, zone_mode, DropAction, Location, ManagedLayer, MoveGrabState, OutputChange, OutputPlace, OverlayElement,
    ReleaseMode, ZoneDragState, HUNDRED, RESCALE_ANIMATION_DURATION, SHRINKING, SHRUNK_SCALE, SNAP_OVERLAY_ALPHA,
    ZONE_KEY_MAX, ZONE_TARGET_KEY,
};
use crate::drawing::lemma_narrowed;
use crate::measuring::{lemma_floor_near, lemma_floor_whole, lemma_round_near, lemma_share_of, lemma_slack};
use crate::pixel::{zone_pixels, PixelPoint, PixelRect, PixelSize};
use crate::placing::is_ordinary;
use crate::precision::{
    apart, lemma_finite_below, lemma_minus_near, lemma_negated, lemma_plus_exact, lemma_plus_monotone,
    lemma_representable, lemma_round_whole, lemma_rounded_finite, lemma_rounded_monotone, lemma_small_minus,
    lemma_small_plus, lemma_small_times, lemma_whole, slack,
};
use crate::rect::{ONE, ZERO};
use crate::rounding::{
    lemma_rounded_exact, lemma_rounded_limit, lemma_rounded_scaled, lemma_units_ordered, lemma_units_small, rounded,
    scale, units, STEPS,
};
use crate::shortcuts::ModifiersState;
use crate::snapping::SnappingZone;
use crate::tolerance::{lemma_magnitudes, tolerance};
use crate::zone_number::{badge_place, BADGE_SIZE};
use vstd::arithmetic::power2::{lemma2_to64, lemma_pow2_adds, lemma_pow2_pos, lemma_pow2_strictly_increases, pow2};
use vstd::prelude::*;

verus! {

/// Whether a coordinate is a whole number of pixels.
pub open spec fn is_at(coordinate: Binary64, pixels: int) -> bool {
    coordinate.is_finite() && coordinate.value() == pixels * one_units()
}

/// Whether a coordinate is a number of pixels from another one.
pub open spec fn is_moved(from: Binary64, to: Binary64, pixels: int) -> bool {
    &&& from.is_finite()
    &&& to.is_finite()
    &&& to.value() == from.value() + pixels * one_units()
}

// ---------------------------------------------------------------------------
// Where the cursor is
// ---------------------------------------------------------------------------

/// A cursor at whole pixels lies as far from the output's upper left corner as its
/// place is from the output's, across and down.
pub proof fn places_are_counted_from_the_output(location: Location, geometry: PixelRect, x: int, y: int)
    requires
        is_at(location.x, x),
        is_at(location.y, y),
        apart(x, 0) <= 0x100_0000_0000,
        apart(y, 0) <= 0x100_0000_0000,
    ensures
        local_point(location, geometry) == (PixelPoint {
            x: saturated(x - geometry.loc.x) as i32,
            y: saturated(y - geometry.loc.y) as i32,
        }),
{
    lemma_whole(geometry.loc.x);
    lemma_whole(geometry.loc.y);
    lemma_whole_minus(location.x, x, Binary64::spec_whole(geometry.loc.x), geometry.loc.x as int);
    lemma_whole_minus(location.y, y, Binary64::spec_whole(geometry.loc.y), geometry.loc.y as int);
    lemma_floor_whole(location.x.minus(Binary64::spec_whole(geometry.loc.x)), x - geometry.loc.x);
    lemma_floor_whole(location.y.minus(Binary64::spec_whole(geometry.loc.y)), y - geometry.loc.y);
}

/// How far a place is from a pixel, rounded down.
proof fn lemma_local_moved(from: Binary64, to: Binary64, start: i32, end: i32)
    requires
        is_moved(from, to, end - start),
    ensures
        from.minus(Binary64::spec_whole(start)).floor_i32() == to.minus(Binary64::spec_whole(end)).floor_i32(),
{
    let a = Binary64::spec_whole(start);
    let b = Binary64::spec_whole(end);
    lemma_whole(start);
    lemma_whole(end);
    lemma_negated(a);
    lemma_negated(b);
    reveal(Binary64::spec_plus);
    reveal(Binary64::spec_floor_i32);
    lemma_units_small(0);
    let one = one_units();
    assert(end * one - start * one == (end - start) * one) by (nonlinear_arith);
    assert(from.value() - a.value() == to.value() - b.value());
}

/// Moving the output and the cursor together, by any number of pixels across and down,
/// leaves the cursor where it is on the output.
pub proof fn places_move_with_the_output(
    from: Location,
    to: Location,
    before: PixelRect,
    after: PixelRect,
)
    requires
        is_moved(from.x, to.x, after.loc.x - before.loc.x),
        is_moved(from.y, to.y, after.loc.y - before.loc.y),
    ensures
        local_point(from, before) == local_point(to, after),
{
    lemma_local_moved(from.x, to.x, before.loc.x, after.loc.x);
    lemma_local_moved(from.y, to.y, before.loc.y, after.loc.y);
}

/// Moving the output and the cursor together, by any number of pixels across and down,
/// leaves what the window would snap to as it is.
pub proof fn snapping_moves_with_the_output(
    before: MoveGrabState,
    state: MoveGrabState,
    config: ZonesConfig,
    held: Option<ModifiersState>,
    here: OutputPlace,
    there: OutputPlace,
    workspace: Option<Seq<char>>,
    theme: (i32, i32),
    from: Location,
    to: Location,
)
    requires
        there.id == here.id,
        there.identity == here.identity,
        there.area == here.area,
        there.geometry.size == here.geometry.size,
        is_moved(from.x, to.x, there.geometry.loc.x - here.geometry.loc.x),
        is_moved(from.y, to.y, there.geometry.loc.y - here.geometry.loc.y),
    ensures
        state.follows(before, config, held, here, workspace, theme, from) <==> state.follows(
            before,
            config,
            held,
            there,
            workspace,
            theme,
            to,
        ),
{
    places_move_with_the_output(from, to, here.geometry, there.geometry);
}

/// A cursor anywhere on a pixel of an output is on that pixel: no less than its place
/// and less than the next one, but for the tolerance.
pub proof fn places_are_rounded_down(location: Location, geometry: PixelRect, point: PixelPoint)
    requires
        location.x.is_finite(),
        location.y.is_finite(),
        apart(location.x.value(), 0) <= 0x3000_0000 * one_units(),
        apart(location.y.value(), 0) <= 0x3000_0000 * one_units(),
        is_ordinary(geometry),
        point == local_point(location, geometry),
    ensures
        (geometry.loc.x + point.x) * one_units() <= location.x.value() + tolerance(),
        location.x.value() < (geometry.loc.x + point.x + 1) * one_units() + tolerance(),
        (geometry.loc.y + point.y) * one_units() <= location.y.value() + tolerance(),
        location.y.value() < (geometry.loc.y + point.y + 1) * one_units() + tolerance(),
{
    lemma_rounded_down(location.x, geometry.loc.x);
    lemma_rounded_down(location.y, geometry.loc.y);
}

proof fn lemma_rounded_down(place: Binary64, start: i32)
    requires
        place.is_finite(),
        apart(place.value(), 0) <= 0x3000_0000 * one_units(),
        -0x4000_0000 <= start <= 0x4000_0000,
    ensures
        ({
            let at = place.minus(Binary64::spec_whole(start)).floor_i32();
            &&& (start + at) * one_units() <= place.value() + tolerance()
            &&& place.value() < (start + at + 1) * one_units() + tolerance()
        }),
{
    let one = one_units();
    let s = slack();
    lemma_slack();
    lemma_magnitudes();
    lemma_whole(start);
    let b = Binary64::spec_whole(start);
    let v = place.value() - start * one;
    assert(apart(start * one, 0) <= 0x4000_0000 * one) by (nonlinear_arith)
        requires
            -0x4000_0000 <= start <= 0x4000_0000,
            one > 0,
    ;
    lemma_pow2_adds(31, 1074);
    lemma_pow2_strictly_increases(1105, 1990);
    lemma2_to64();
    lemma_minus_near(place, b);
    let d = place.minus(b);
    let off = apart(d.value(), v);
    assert(off <= 0x4000_0000 * s) by (nonlinear_arith)
        requires
            2 * STEPS * off <= 0x7000_0000 * one,
            one == STEPS * s,
            STEPS == 0x10_0000_0000_0000,
            s > 0,
    ;
    assert(0x4000_0000 * s < tolerance()) by {
        assert(0x4000_0000 * s <= (48 * 0x400_0000 + 64) * s) by (nonlinear_arith)
            requires
                s > 0,
        ;
    }
    lemma_floor_near(d);
    let at = d.floor_i32();
    assert((start + at) * one == start * one + at * one) by (nonlinear_arith);
    assert((start + at + 1) * one == start * one + (at + 1) * one) by (nonlinear_arith);
}

// ---------------------------------------------------------------------------
// Where the window is
// ---------------------------------------------------------------------------

/// A window is pulled onto an edge of the output exactly where it is nearer to it than
/// the threshold: with its near edge onto the near edge, else with its far edge onto
/// the far one. Any other window stays where the cursor takes it.
pub proof fn windows_are_pulled_within_the_threshold(
    location: Binary64,
    at: int,
    offset: i32,
    size: i32,
    output_start: i32,
    output_size: i32,
    threshold: Binary64,
)
    requires
        is_at(location, at),
        apart(at, 0) <= 0x100_0000_0000,
        threshold.is_finite(),
    ensures
        ({
            let after = edge_snapped(location, offset, size, output_start, output_size, threshold);
            let near = apart(at + offset, output_start as int) * one_units() < threshold.value();
            let far = apart(at + offset + size, output_start + output_size) * one_units() < threshold.value();
            &&& near ==> is_at(after, output_start - offset)
            &&& !near && far ==> is_at(after, output_start + output_size - size - offset)
            &&& !near && !far ==> after == location
        }),
{
    let one = one_units();
    let start = Binary64::spec_whole(output_start);
    let extent = Binary64::spec_whole(output_size);
    let by = Binary64::spec_whole(offset);
    let length = Binary64::spec_whole(size);
    lemma_whole(output_start);
    lemma_whole(output_size);
    lemma_whole(offset);
    lemma_whole(size);
    let a = output_start as int;
    let b = output_size as int;
    let o = offset as int;
    let l = size as int;
    let end = start.plus(extent);
    let place = by.plus(location);
    lemma_whole_plus(start, a, extent, b);
    lemma_whole_plus(by, o, location, at);
    lemma_whole_minus(place, o + at, start, a);
    lemma_whole_plus(place, o + at, length, l);
    lemma_whole_minus(place.plus(length), o + at + l, end, a + b);
    lemma_whole_minus(start, a, by, o);
    lemma_whole_minus(end, a + b, by, o);
    lemma_whole_minus(end.minus(by), a + b - o, length, l);
    lemma_absolute(place.minus(start), o + at - a);
    lemma_absolute(place.plus(length).minus(end), o + at + l - (a + b));
}

/// The magnitude of a whole number.
proof fn lemma_absolute(x: Binary64, k: int)
    requires
        is_at(x, k),
    ensures
        x.absolute().is_finite(),
        x.absolute().value() == apart(k, 0) * one_units(),
{
    let one = one_units();
    lemma_slack();
    lemma_signed(false, x.code());
    assert(apart(k * one, 0) == apart(k, 0) * one) by (nonlinear_arith)
        requires
            one > 0,
    ;
}

/// A window is put down as far from where it was taken as the cursor went, across and
/// down; in particular where it was, if the cursor did not move.
pub proof fn windows_are_dropped_as_far_as_the_cursor_went(
    state: MoveGrabState,
    window: PixelPoint,
    start: Location,
    x: int,
    y: int,
    across: int,
    down: int,
)
    requires
        state.window_offset == grip(window, start),
        is_at(start.x, x),
        is_at(start.y, y),
        is_at(state.location.x, x + across),
        is_at(state.location.y, y + down),
        apart(x, 0) <= 0x2000_0000,
        apart(y, 0) <= 0x2000_0000,
        apart(across, 0) <= 0x1000_0000,
        apart(down, 0) <= 0x1000_0000,
        apart(window.x as int, 0) <= 0x2000_0000,
        apart(window.y as int, 0) <= 0x2000_0000,
    ensures
        state.drop_place() == (PixelPoint { x: (window.x + across) as i32, y: (window.y + down) as i32 }),
{
    lemma_round_whole(start.x, x as i32);
    lemma_round_whole(start.y, y as i32);
    lemma_round_whole(state.location.x, (x + across) as i32);
    lemma_round_whole(state.location.y, (y + down) as i32);
}

/// A window takes up the pixels of its size from where it would be dropped.
pub proof fn windows_are_shown_where_they_would_be_dropped(state: MoveGrabState, geometry: PixelRect)
    requires
        apart(state.location.x.round_i32() as int, 0) <= 0x2000_0000,
        apart(state.location.y.round_i32() as int, 0) <= 0x2000_0000,
        apart(state.window_offset.x as int, 0) <= 0x2000_0000,
        apart(state.window_offset.y as int, 0) <= 0x2000_0000,
        apart(geometry.loc.x as int, 0) <= 0x2000_0000,
        apart(geometry.loc.y as int, 0) <= 0x2000_0000,
    ensures
        ({
            let shown = window_pixels(geometry, state.location, state.window_offset);
            &&& shown.size == geometry.size
            &&& shown.loc.x - geometry.loc.x == state.drop_place().x
            &&& shown.loc.y - geometry.loc.y == state.drop_place().y
        }),
{
}

// ---------------------------------------------------------------------------
// Which outputs it is on
// ---------------------------------------------------------------------------

/// What two rectangles have in common are the pixels that both contain, and they
/// overlap exactly where there is such a pixel.
pub proof fn the_overlap_is_what_both_contain(a: PixelRect, b: PixelRect, point: PixelPoint)
    requires
        is_ordinary(a),
        is_ordinary(b),
    ensures
        a.contains(point) && b.contains(point) ==> a.overlaps(b),
        a.overlaps(b) ==> (a.common(b).contains(point) <==> a.contains(point) && b.contains(point)),
        a.overlaps(b) ==> a.common(b).contains(a.common(b).loc),
{
}

/// An output is entered when the window comes to share a pixel with it, and left when
/// it shares none any more. What is entered are the pixels that they share.
pub proof fn outputs_are_entered_with_the_first_pixel(
    output: PixelRect,
    window: PixelRect,
    entered: bool,
    point: PixelPoint,
)
    requires
        is_ordinary(output),
        is_ordinary(window),
    ensures
        output_change(output, window, entered) matches OutputChange::Enter(shared) ==> {
            &&& !entered
            &&& shared.contains(shared.loc)
            &&& shared.contains(point) <==> output.contains(point) && window.contains(point)
        },
        output_change(output, window, entered) is Leave ==> entered && !(output.contains(point) && window.contains(
            point,
        )),
        output_change(output, window, entered) is Unchanged && output.contains(point) && window.contains(point)
            ==> entered,
        output_change(output, window, entered) is Unchanged && entered ==> output.contains(
            output.common(window).loc,
        ) && window.contains(output.common(window).loc),
{
}

// ---------------------------------------------------------------------------
// What becomes of it
// ---------------------------------------------------------------------------

/// A window goes back to the layer it was taken from. One from the tiling is tiled
/// again where tiling is on, and floats where it is not; one that floated snaps to
/// the zones that are targeted, else to the edge that is near, and else floats on.
pub proof fn windows_go_back_to_their_layer(state: MoveGrabState, tiling_enabled: bool, action: DropAction)
    requires
        state.drops(tiling_enabled, action),
    ensures
        action is Sticky <==> state.previous == ManagedLayer::Sticky,
        action is Tile <==> state.previous == ManagedLayer::Tiling && tiling_enabled,
        action is SnapToZone <==> state.previous == ManagedLayer::Floating && state.zones is Some
            && state.zones->0.target is Some,
        action is Maximize || action is SnapToEdge <==> state.previous == ManagedLayer::Floating && !(action
            is SnapToZone) && state.snapping_zone is Some,
        action is Maximize ==> state.snapping_zone == Some(SnappingZone::Maximize),
        action matches DropAction::SnapToEdge(moves) ==> moves@.len() > 0 && moves@ == state.snapping_zone->0.moves(),
        action is Float <==> !(action is Sticky) && !(action is Tile) && !(action is SnapToZone) && !(action
            is Maximize) && !(action is SnapToEdge),
{
}

// ---------------------------------------------------------------------------
// What is drawn
// ---------------------------------------------------------------------------

/// A scale of one leaves a length as it is.
proof fn lemma_full_scale(length: i32)
    ensures
        scaled(length, Binary64 { bits: ONE }) == length,
{
    let one = Binary64 { bits: ONE };
    let w = Binary64::spec_whole(length);
    lemma_constants();
    lemma_whole(length);
    let u = one_units();
    assert(units(w.code()) * u == units(w.code()) * u);
    crate::precision::lemma_times_exact(w, one, w.code());
    lemma_signed(w.is_negative(), w.code());
    assert(w.times(one).value() == w.value());
    lemma_round_whole(w.times(one), length);
}

/// A window shrinks towards the cursor: what is left of the way from the cursor to the
/// window's corner is to the whole way as the scale is to one, to the nearest pixel.
/// At full scale the window is drawn where it would be dropped.
pub proof fn windows_shrink_towards_the_cursor(
    state: MoveGrabState,
    scale: Binary64,
    output: PixelRect,
    cursor: PixelPoint,
    place: PixelPoint,
)
    requires
        is_ordinary(output),
        cursor.x == state.location.x.round_i32() - output.loc.x,
        cursor.y == state.location.y.round_i32() - output.loc.y,
        apart(cursor.x as int, 0) <= 0x2000_0000,
        apart(cursor.y as int, 0) <= 0x2000_0000,
        apart(state.window_offset.x as int, 0) <= 0x1000_0000,
        apart(state.window_offset.y as int, 0) <= 0x1000_0000,
        scale.is_finite(),
        0 <= scale.value() <= one_units(),
        place == state.render_place(scale, output),
    ensures
        2 * apart((place.x - cursor.x) * one_units(), state.window_offset.x * scale.value()) <= one_units() + 2
            * tolerance(),
        2 * apart((place.y - cursor.y) * one_units(), state.window_offset.y * scale.value()) <= one_units() + 2
            * tolerance(),
        scale == (Binary64 { bits: ONE }) ==> place.x + output.loc.x == state.drop_place().x && place.y + output.loc.y
            == state.drop_place().y,
{
    lemma_scaled(state.window_offset.x, scale);
    lemma_scaled(state.window_offset.y, scale);
    if scale == (Binary64 { bits: ONE }) {
        lemma_full_scale(state.window_offset.x);
        lemma_full_scale(state.window_offset.y);
    }
}

/// A length at a scale, to the nearest pixel.
pub proof fn lemma_scaled(length: i32, scale: Binary64)
    requires
        apart(length as int, 0) <= 0x1000_0000,
        scale.is_finite(),
        0 <= scale.value() <= one_units(),
    ensures
        2 * apart(scaled(length, scale) * one_units(), length * scale.value()) <= one_units() + 2 * tolerance(),
        apart(scaled(length, scale) as int, 0) <= 0x1000_0001,
{
    let one = one_units();
    let s = slack();
    let w = Binary64::spec_whole(length);
    let x = scale.value();
    let n = length as int;
    lemma_slack();
    lemma_magnitudes();
    lemma_whole(length);
    assert((n * one) * x == (n * x) * one) by (nonlinear_arith);
    assert(apart(n * x, 0) <= 0x1000_0000 * one) by (nonlinear_arith)
        requires
            apart(n, 0) <= 0x1000_0000,
            0 <= x <= one,
    ;
    assert(apart((n * x) * one, 0) == apart(n * x, 0) * one) by (nonlinear_arith)
        requires
            one > 0,
    ;
    lemma_pow2_adds(28, 1074);
    lemma_pow2_strictly_increases(1102, 1990);
    lemma2_to64();
    let big = pow2(1990);
    assert(apart(n * x, 0) * one <= one * big) by (nonlinear_arith)
        requires
            apart(n * x, 0) <= big,
            one > 0,
    ;
    crate::measuring::lemma_times_near(w, scale);
    let t = w.times(scale);
    let off = apart(t.value(), n * x);
    assert(apart(t.value() * one, (n * x) * one) == off * one) by (nonlinear_arith)
        requires
            off == apart(t.value(), n * x),
            one > 0,
    ;
    assert(off <= 0x1000_0000 * s) by (nonlinear_arith)
        requires
            2 * STEPS * (off * one) <= apart(n * x, 0) * one + STEPS * one,
            apart(n * x, 0) <= 0x1000_0000 * one,
            one == STEPS * s,
            STEPS == 0x10_0000_0000_0000,
            one > 0,
    ;
    assert(0x1000_0000 * s < tolerance()) by {
        assert(0x1000_0000 * s <= (48 * 0x400_0000 + 64) * s) by (nonlinear_arith)
            requires
                s > 0,
        ;
    }
    lemma_round_near(t);
    let p = t.round_i32() as int;
    assert(apart(p * one, 0) == apart(p, 0) * one) by (nonlinear_arith)
        requires
            one > 0,
    ;
    assert(apart(p, 0) <= 0x1000_0001) by (nonlinear_arith)
        requires
            apart(p, 0) * one <= 0x1000_0000 * one + one + one,
            2 * (apart(p, 0) * one) <= 2 * (0x1000_0000 * one) + 2 * tolerance() + one,
            16 * tolerance() < one,
            one > 0,
    ;
}

/// A badge stands in the middle of its zone: as far from the left as from the right and
/// as far from the top as from the bottom, to within a pixel.
pub proof fn badges_are_centred(zone: PixelRect, place: PixelPoint)
    requires
        is_ordinary(zone),
        place == badge_place(zone),
    ensures
        apart(place.x - zone.loc.x, zone.loc.x + zone.size.w - (place.x + BADGE_SIZE)) <= 1,
        apart(place.y - zone.loc.y, zone.loc.y + zone.size.h - (place.y + BADGE_SIZE)) <= 1,
{
}

// ---------------------------------------------------------------------------
// How it is drawn
// ---------------------------------------------------------------------------

/// The bits of one hundred stand for it, and those of the overlay's opacity for two
/// fifths.
proof fn lemma_opacities()
    ensures
        (Binary64 { bits: HUNDRED }).is_finite(),
        (Binary64 { bits: HUNDRED }).value() == 100 * one_units(),
        (Binary64 { bits: SNAP_OVERLAY_ALPHA }).is_finite(),
        apart(5 * (Binary64 { bits: SNAP_OVERLAY_ALPHA }).value(), 2 * one_units() as int) <= tolerance(),
{
    lemma_magnitudes();
    lemma_constants();
    lemma2_to64();
    vstd::arithmetic::power2::lemma2_to64_rest();
    assert(scale(HUNDRED as nat) == 1028);
    assert(HUNDRED - 1028 * STEPS == 0x19_0000_0000_0000);
    lemma_pow2_adds(46, 1028);
    let p = pow2(1028);
    assert(0x19_0000_0000_0000nat * p == 100 * (0x4000_0000_0000nat * p)) by (nonlinear_arith);
    assert(scale(SNAP_OVERLAY_ALPHA as nat) == 1020);
    assert(SNAP_OVERLAY_ALPHA - 1020 * STEPS == 0x19_9999_a000_0000);
    lemma_pow2_adds(54, 1020);
    lemma_pow2_adds(34, 1020);
    let r = pow2(1020);
    assert(5 * (0x19_9999_a000_0000nat * r) == 2 * (0x40_0000_0000_0000nat * r) + 0x2000_0000nat * r)
        by (nonlinear_arith);
    assert(0x2000_0000nat * r < 0x4_0000_0000nat * r) by (nonlinear_arith)
        requires
            r > 0,
    {
    }
}

/// A zone that is not targeted is drawn with its share of the opacity of one that is:
/// so many hundredths of it, all of it from one hundred on.
pub proof fn other_zones_are_dimmed_by_the_configured_share(inactive_opacity: u8, percent: int)
    requires
        percent == if inactive_opacity <= 100 {
            inactive_opacity as int
        } else {
            100
        },
    ensures
        dimmed_alpha(inactive_opacity).is_finite(),
        apart(
            dimmed_alpha(inactive_opacity).value() * 100,
            percent * (Binary64 { bits: SNAP_OVERLAY_ALPHA }).value(),
        ) <= 100 * tolerance(),
        apart(5 * (Binary64 { bits: SNAP_OVERLAY_ALPHA }).value(), 2 * one_units() as int) <= tolerance(),
{
    let one = one_units() as int;
    let s = slack();
    let hundred = Binary64 { bits: HUNDRED };
    let full = Binary64 { bits: SNAP_OVERLAY_ALPHA };
    let count = Binary64::spec_count(percent as u64);
    lemma_slack();
    lemma_magnitudes();
    lemma_constants();
    lemma_opacities();
    let k = percent as i32;
    assert(count == Binary64::spec_whole(k));
    assert(hundred == Binary64::spec_whole(100)) by {
        lemma_whole(100);
        lemma_units_ordered(hundred.code(), Binary64::spec_whole(100).code());
        lemma_units_ordered(Binary64::spec_whole(100).code(), hundred.code());
    }
    lemma_share_of(k, 100);
    let q = count.over(hundred);
    let x = q.value();
    assert(percent * one <= 100 * one) by (nonlinear_arith)
        requires
            percent <= 100,
            one > 0,
    ;
    lemma_pow2_adds(1, 1074);
    lemma2_to64();
    lemma_narrowed(q, 1075);
    let r = q.narrowed();
    let y = r.value();
    let h = pow2(1052) as int;
    lemma_pow2_adds(2, 1052);
    lemma_pow2_adds(30, 1022);
    assert(apart(y, 0) <= 2 * one) by {
        assert(x * 100 <= 101 * one);
    }
    let a = full.value();
    lemma_small_times(r, full);
    let t = r.times(full);
    let z = t.value();
    assert(0 <= a <= one);
    assert(apart(y * a, 0) <= (2 * one) * one) by (nonlinear_arith)
        requires
            apart(y, 0) <= 2 * one,
            0 <= a <= one,
    ;
    assert(apart(z, 0) <= 2 * one + 4 * s) by (nonlinear_arith)
        requires
            apart(z * one, y * a) <= (4 * s) * one,
            apart(y * a, 0) <= (2 * one) * one,
            one > 0,
    ;
    lemma_pow2_adds(2, 1074);
    lemma_narrowed(t, 1076);
    lemma_pow2_adds(1, 1052);
    let w = t.narrowed().value();
    // The share, the product and the result are each off by next to nothing.
    assert(apart(x * 100, percent * one) <= 100 * s);
    assert(apart(y * 100, percent * one) <= 100 * (s + h));
    assert(apart((y * 100) * a, (percent * one) * a) <= (100 * (s + h)) * one) by (nonlinear_arith)
        requires
            apart(y * 100, percent * one) <= 100 * (s + h),
            0 <= a <= one,
            s >= 0,
            h >= 0,
    ;
    assert((y * 100) * a == (y * a) * 100) by (nonlinear_arith);
    assert((percent * one) * a == (percent * a) * one) by (nonlinear_arith);
    assert((z * 100) * one == (z * one) * 100) by (nonlinear_arith);
    assert((400 * s) * one == 100 * ((4 * s) * one)) by (nonlinear_arith);
    assert(apart((z * 100) * one, (percent * a) * one) <= (100 * (s + h)) * one + (400 * s) * one);
    assert(apart(z * 100, percent * a) <= 100 * (s + h) + 400 * s) by (nonlinear_arith)
        requires
            apart((z * 100) * one, (percent * a) * one) <= (100 * (s + h)) * one + (400 * s) * one,
            one > 0,
    ;
}

/// How much of the animation is over.
spec fn progress(millis: u64) -> Binary64 {
    Binary64::spec_count(millis).over(Binary64 { bits: RESCALE_ANIMATION_DURATION }).least(Binary64 { bits: ONE })
}

/// The animation takes 150 milliseconds, and is never undone.
proof fn lemma_progress(millis: u64, later: u64)
    requires
        millis <= later,
    ensures
        progress(millis).is_finite(),
        0 <= progress(millis).value() <= progress(later).value() <= one_units(),
        progress(later).is_finite(),
        millis == 0 ==> progress(millis).value() == 0,
        millis >= 150 ==> progress(millis).value() == one_units(),
{
    let one = one_units();
    let unit = Binary64 { bits: ONE };
    let length = Binary64 { bits: RESCALE_ANIMATION_DURATION };
    lemma_constants();
    lemma_units_small(0);
    lemma_pow2_pos(1074);
    lemma2_to64();
    vstd::arithmetic::power2::lemma2_to64_rest();
    assert(scale(RESCALE_ANIMATION_DURATION as nat) == 1029);
    assert(RESCALE_ANIMATION_DURATION - 1029 * STEPS == 0x12_c000_0000_0000);
    lemma_pow2_adds(45, 1029);
    let p = pow2(1029);
    assert(0x12_c000_0000_0000nat * p == 150 * (0x2000_0000_0000nat * p)) by (nonlinear_arith);
    assert(length.value() == 150 * one && length.is_finite() && !length.is_negative());
    lemma_counted(millis, length);
    lemma_counted(later, length);
    let d = units(length.code());
    let a = units(Binary64::spec_count(millis).code());
    let b = units(Binary64::spec_count(later).code());
    assert(millis as nat * one <= later as nat * one) by (nonlinear_arith)
        requires
            millis <= later,
    ;
    lemma_rounded_monotone(millis as nat * one, later as nat * one, 1);
    lemma_units_ordered(rounded(millis as nat * one, 1), rounded(later as nat * one, 1));
    assert(a <= b);
    assert(a * one <= b * one) by (nonlinear_arith)
        requires
            a <= b,
    ;
    lemma_rounded_monotone(a * one, b * one, d);
    lemma_units_ordered(rounded(a * one, d), rounded(b * one, d));
    lemma_finite_below(progress(millis), unit);
    lemma_finite_below(progress(later), unit);
    if millis == 0 {
        assert(0 * one == 0);
        lemma_rounded_zero(1);
        assert(a * one == 0);
        lemma_rounded_zero(d);
    }
    if millis >= 150 {
        lemma_representable(150, 1074);
        assert(150 * one <= millis as nat * one) by (nonlinear_arith)
            requires
                150 <= millis,
        ;
        lemma_rounded_monotone(150 * one, millis as nat * one, 1);
        lemma_units_ordered(rounded(150 * one, 1), rounded(millis as nat * one, 1));
        assert(d * one <= a * one) by (nonlinear_arith)
            requires
                d <= a,
        ;
        lemma_rounded_monotone(d * one, a * one, d);
        assert(one * d == d * one) by (nonlinear_arith);
        lemma_rounded_scaled(one, 1, d);
        assert(1 * d == d);
        lemma_rounded_exact(unit.code());
        lemma_units_ordered(rounded(one, 1), rounded(a * one, d));
    }
}

/// A count over a length.
proof fn lemma_counted(count: u64, length: Binary64)
    requires
        length.is_finite(),
        length.value() == 150 * one_units(),
        !length.is_negative(),
    ensures
        ({
            let n = Binary64::spec_count(count);
            let q = n.over(length);
            &&& n.code() == rounded(count as nat * one_units(), 1)
            &&& n.is_finite()
            &&& !q.is_nan()
            &&& !q.is_negative()
            &&& q.value() == units(rounded(units(n.code()) * one_units(), units(length.code())))
        }),
{
    let one = one_units();
    lemma_units_small(0);
    lemma_pow2_pos(1074);
    lemma2_to64();
    lemma_pow2_adds(64, 1074);
    lemma_pow2_strictly_increases(1138, 1990);
    assert(count as nat * one <= 1 * pow2(1990)) by (nonlinear_arith)
        requires
            count <= 0xffff_ffff_ffff_ffff,
            0x1_0000_0000_0000_0000 * one <= pow2(1990),
            one > 0,
    ;
    lemma_rounded_finite(count as nat * one, 1);
    lemma_signed(false, rounded(count as nat * one, 1));
    reveal(Binary64::spec_over);
    let n = units(rounded(count as nat * one, 1)) * one;
    lemma_rounded_limit(n, units(length.code()));
    lemma_signed(false, rounded(n, units(length.code())));
}

/// A window taken out of the tiling is drawn at its size at first, shrinks as time goes
/// by without ever growing again, and is at three fifths of its size from 150
/// milliseconds on. Any other window keeps its size.
pub proof fn dragged_windows_shrink_once(previous: ManagedLayer, millis: u64, later: u64)
    requires
        millis <= later,
    ensures
        scale_after(previous, later).value() <= scale_after(previous, millis).value(),
        millis == 0 ==> scale_after(previous, millis).value() == one_units(),
        previous == ManagedLayer::Tiling && millis >= 150 ==> scale_after(previous, millis) == (Binary64 {
            bits: SHRUNK_SCALE,
        }),
        apart(5 * (Binary64 { bits: SHRUNK_SCALE }).value(), 3 * one_units() as int) <= tolerance(),
        previous != ManagedLayer::Tiling ==> scale_after(previous, millis).value() == one_units(),
{
    lemma_constants();
    lemma_magnitudes();
    lemma_shares();
    if previous == ManagedLayer::Tiling {
        lemma_progress(millis, later);
        lemma_shrinking(progress(millis), progress(later));
    }
}

/// What a window shrinks to and by add up to its size.
proof fn lemma_shares()
    ensures
        (Binary64 { bits: SHRUNK_SCALE }).is_finite(),
        (Binary64 { bits: SHRINKING }).is_finite(),
        0 < (Binary64 { bits: SHRUNK_SCALE }).value(),
        0 < (Binary64 { bits: SHRINKING }).value() <= one_units(),
        (Binary64 { bits: SHRUNK_SCALE }).value() + (Binary64 { bits: SHRINKING }).value() == one_units(),
        apart(5 * (Binary64 { bits: SHRUNK_SCALE }).value(), 3 * one_units() as int) <= slack(),
        apart(5 * (Binary64 { bits: SHRINKING }).value(), 2 * one_units() as int) <= slack(),
{
    lemma_constants();
    lemma2_to64();
    vstd::arithmetic::power2::lemma2_to64_rest();
    lemma_pow2_adds(2, 1020);
    lemma_pow2_pos(1020);
    lemma_pow2_adds(1, 1020);
    lemma_pow2_adds(54, 1020);
    lemma_pow2_adds(34, 1020);
    let p = pow2(1020);
    assert(scale(SHRUNK_SCALE as nat) == 1021);
    assert(scale(SHRINKING as nat) == 1020);
    assert(SHRUNK_SCALE - 1021 * STEPS == 0x13_3333_3333_3333);
    assert(SHRINKING - 1020 * STEPS == 0x19_9999_9999_999a);
    assert(0x13_3333_3333_3333nat * (2 * p) + 0x19_9999_9999_999anat * p == 0x40_0000_0000_0000nat * p)
        by (nonlinear_arith);
    assert(5 * (0x13_3333_3333_3333nat * (2 * p)) + 2nat * p == 3 * (0x40_0000_0000_0000nat * p)) by (nonlinear_arith);
    assert(2nat * p < 0x4_0000_0000nat * p) by (nonlinear_arith)
        requires
            p > 0,
    ;
}

/// What is left of a length, given how much of the way is over.
proof fn lemma_shrinking(done: Binary64, more: Binary64)
    requires
        done.is_finite(),
        more.is_finite(),
        0 <= done.value() <= more.value() <= one_units(),
    ensures
        ({
            let one = Binary64 { bits: ONE };
            let least = Binary64 { bits: SHRUNK_SCALE };
            let share = Binary64 { bits: SHRINKING };
            let a = least.plus(one.minus(done).times(share));
            let b = least.plus(one.minus(more).times(share));
            &&& b.value() <= a.value()
            &&& done.value() == 0 ==> a.value() == one_units()
            &&& done.value() == one_units() ==> a == least
        }),
{
    let one = Binary64 { bits: ONE };
    let least = Binary64 { bits: SHRUNK_SCALE };
    let share = Binary64 { bits: SHRINKING };
    lemma_constants();
    lemma_shares();
    lemma_left(done);
    lemma_left(more);
    lemma_negated(done);
    lemma_negated(more);
    lemma_plus_monotone(one, more.negated(), one, done.negated());
    let x = one.minus(done);
    let y = one.minus(more);
    lemma_scaled_share(x);
    lemma_scaled_share(y);
    lemma_scaled_order(y, x);
    lemma_plus_monotone(least, y.times(share), least, x.times(share));
    if done.value() == 0 {
        lemma_plus_exact(least, x.times(share), one.code());
    }
    if done.value() == one_units() {
        reveal(Binary64::spec_plus);
        lemma_rounded_exact(least.code());
        lemma_signed(false, least.code());
    }
}

/// What is left of one.
proof fn lemma_left(done: Binary64)
    requires
        done.is_finite(),
        0 <= done.value() <= one_units(),
    ensures
        ({
            let x = (Binary64 { bits: ONE }).minus(done);
            &&& x.is_finite()
            &&& 0 <= x.value() <= one_units()
            &&& done.value() == 0 ==> x.value() == one_units()
            &&& done.value() == one_units() ==> x.value() == 0
        }),
{
    let one = Binary64 { bits: ONE };
    let zero = Binary64 { bits: ZERO };
    lemma_constants();
    lemma_units_small(0);
    lemma_negated(done);
    lemma_negated(zero);
    lemma_negated(one);
    lemma_plus_monotone(one, done.negated(), one, zero);
    lemma_plus_exact(one, zero, one.code());
    lemma_plus_monotone(one, one.negated(), one, done.negated());
    lemma_plus_exact(one, one.negated(), 0);
    lemma_finite_below(one.minus(done), one);
    if done.value() == 0 {
        lemma_plus_exact(one, done.negated(), one.code());
    }
    if done.value() == one_units() {
        lemma_plus_exact(one, done.negated(), 0);
    }
}

/// A part of what a window shrinks by.
proof fn lemma_scaled_share(x: Binary64)
    requires
        x.is_finite(),
        0 <= x.value() <= one_units(),
    ensures
        ({
            let share = Binary64 { bits: SHRINKING };
            let t = x.times(share);
            &&& t.is_finite()
            &&& t.value() == units(rounded(units(x.code()) * units(share.code()), one_units()))
            &&& x.value() == one_units() ==> t.value() == share.value()
            &&& x.value() == 0 ==> t.value() == 0
        }),
{
    let share = Binary64 { bits: SHRINKING };
    let one = one_units();
    lemma_shares();
    lemma_units_small(0);
    lemma_pow2_pos(1074);
    reveal(Binary64::spec_times);
    let u = units(x.code());
    let v = units(share.code());
    assert(u * v <= v * one) by (nonlinear_arith)
        requires
            u <= one,
    ;
    lemma_rounded_monotone(u * v, v * one, one);
    lemma_rounded_scaled(v, 1, one);
    assert(1 * one == one);
    lemma_rounded_exact(share.code());
    let code = rounded(u * v, one);
    let negative = x.is_negative() != share.is_negative();
    lemma_signed(negative, code);
    if u == 0 {
        assert(u * v == 0) by (nonlinear_arith)
            requires
                u == 0,
        ;
        lemma_rounded_zero(one);
    }
    if u == one {
        assert(u * v == v * one) by (nonlinear_arith)
            requires
                u == one,
        ;
    }
}

proof fn lemma_scaled_order(x: Binary64, y: Binary64)
    requires
        x.is_finite(),
        y.is_finite(),
        0 <= x.value() <= y.value() <= one_units(),
    ensures
        x.times(Binary64 { bits: SHRINKING }).value() <= y.times(Binary64 { bits: SHRINKING }).value(),
{
    lemma_scaled_share(x);
    lemma_scaled_share(y);
    lemma_pow2_pos(1074);
    let v = units((Binary64 { bits: SHRINKING }).code());
    let a = units(x.code());
    let b = units(y.code());
    assert(a * v <= b * v) by (nonlinear_arith)
        requires
            a <= b,
    ;
    lemma_rounded_monotone(a * v, b * v, one_units());
    lemma_units_ordered(rounded(a * v, one_units()), rounded(b * v, one_units()));
}

/// A window taken out of the tiling shrinks evenly: of the two fifths that it loses, so
/// many hundred-and-fiftieths are gone as milliseconds have passed.
pub proof fn dragged_windows_shrink_evenly(millis: u64)
    requires
        millis <= 150,
    ensures
        apart(
            750 * scale_after(ManagedLayer::Tiling, millis).value(),
            (750 - 2 * millis) * one_units(),
        ) <= 750 * tolerance(),
{
    let one = one_units() as int;
    let s = slack();
    let unit = Binary64 { bits: ONE };
    let least = Binary64 { bits: SHRUNK_SCALE };
    let share = Binary64 { bits: SHRINKING };
    let length = Binary64 { bits: RESCALE_ANIMATION_DURATION };
    let m = millis as int;
    lemma_slack();
    lemma_magnitudes();
    lemma_constants();
    lemma_shares();
    lemma_progress(millis, millis);
    assert(length == Binary64::spec_whole(150)) by {
        lemma_whole(150);
        lemma_progress_length();
        lemma_units_ordered(length.code(), Binary64::spec_whole(150).code());
        lemma_units_ordered(Binary64::spec_whole(150).code(), length.code());
    }
    let k = millis as i32;
    assert(Binary64::spec_count(millis) == Binary64::spec_whole(k));
    lemma_share_of(k, 150);
    let q = Binary64::spec_whole(k).over(length);
    let p = progress(millis).value();
    assert(m * one <= 150 * one) by (nonlinear_arith)
        requires
            m <= 150,
            one > 0,
    ;
    assert(apart(p * 150, m * one) <= 150 * s);
    let done = progress(millis);
    lemma_left(done);
    lemma_small_minus(unit, done);
    let x = unit.minus(done);
    let v = x.value();
    assert(apart(v * 150, 150 * one - m * one) <= 300 * s);
    lemma_small_times(x, share);
    lemma_scaled_share(x);
    let t = x.times(share).value();
    let c = share.value();
    assert(t <= c) by {
        lemma_scaled_order(x, unit);
        lemma_scaled_share(unit);
    }
    lemma_small_plus(least, x.times(share));
    let r = least.plus(x.times(share)).value();
    // Five times the share is two, so that the product is two fifths of what is left.
    assert(apart(5 * c, 2 * one) <= s);
    assert(apart(5 * least.value(), 3 * one) <= s);
    assert(apart((5 * c) * v, (2 * one) * v) <= s * one) by (nonlinear_arith)
        requires
            apart(5 * c, 2 * one) <= s,
            0 <= v <= one,
            s >= 0,
    ;
    assert((5 * c) * v == 5 * (v * c)) by (nonlinear_arith);
    assert((2 * one) * v == (2 * v) * one) by (nonlinear_arith);
    assert(5 * ((4 * s) * one) == (20 * s) * one) by (nonlinear_arith);
    assert((5 * t) * one == 5 * (t * one)) by (nonlinear_arith);
    assert(apart((5 * t) * one, (2 * v) * one) <= (20 * s) * one + s * one);
    assert(apart(5 * t, 2 * v) <= 21 * s) by (nonlinear_arith)
        requires
            apart((5 * t) * one, (2 * v) * one) <= (20 * s) * one + s * one,
            one > 0,
    ;
    assert(apart(5 * r, 3 * one + 2 * v) <= 27 * s);
    assert(apart(750 * r, 450 * one + 300 * v) <= 4050 * s);
    assert(apart(300 * v, 300 * one - 2 * (m * one)) <= 600 * s);
    assert((750 - 2 * m) * one == 750 * one - 2 * (m * one)) by (nonlinear_arith);
}

/// The bits of the animation's length stand for 150.
proof fn lemma_progress_length()
    ensures
        (Binary64 { bits: RESCALE_ANIMATION_DURATION }).value() == 150 * one_units(),
        (Binary64 { bits: RESCALE_ANIMATION_DURATION }).is_finite(),
{
    lemma2_to64();
    vstd::arithmetic::power2::lemma2_to64_rest();
    assert(scale(RESCALE_ANIMATION_DURATION as nat) == 1029);
    assert(RESCALE_ANIMATION_DURATION - 1029 * STEPS == 0x12_c000_0000_0000);
    lemma_pow2_adds(45, 1029);
    let p = pow2(1029);
    assert(0x12_c000_0000_0000nat * p == 150 * (0x2000_0000_0000nat * p)) by (nonlinear_arith);
}

/// Whether a place lies on an output, its right and lower edge left out.
pub open spec fn is_on(location: Location, geometry: PixelRect) -> bool {
    &&& geometry.loc.x * one_units() <= location.x.value() < (geometry.loc.x + geometry.size.w) * one_units()
    &&& geometry.loc.y * one_units() <= location.y.value() < (geometry.loc.y + geometry.size.h) * one_units()
}

/// The output that is found under the cursor is one that the cursor is on, or that it is
/// less than a pixel beyond the right or the lower edge of; no output before it has the
/// cursor on it, and where none is found none has.
pub proof fn the_output_under_the_cursor_is_found(
    outputs: Seq<OutputPlace>,
    location: Location,
    found: Option<usize>,
    j: int,
)
    requires
        location.x.is_finite(),
        location.y.is_finite(),
        apart(location.x.value(), 0) <= 0x6000_0000 * one_units(),
        apart(location.y.value(), 0) <= 0x6000_0000 * one_units(),
        is_output_under(outputs, location, found),
        0 <= j < outputs.len() <= usize::MAX,
        is_ordinary(outputs[j].geometry),
    ensures
        is_on(location, outputs[j].geometry) ==> (found matches Some(i) && i <= j),
        found == Some(j as usize) ==> {
            let geometry = outputs[j].geometry;
            &&& geometry.loc.x * one_units() <= location.x.value() < (geometry.loc.x + geometry.size.w + 1)
                * one_units()
            &&& geometry.loc.y * one_units() <= location.y.value() < (geometry.loc.y + geometry.size.h + 1)
                * one_units()
        },
{
    lemma_slack();
    lemma_floor_near(location.x);
    lemma_floor_near(location.y);
    let geometry = outputs[j].geometry;
    lemma_pixel_order(location.x.floor_i32() as int, location.x.value(), geometry.loc.x as int, geometry.size.w as int);
    lemma_pixel_order(location.y.floor_i32() as int, location.y.value(), geometry.loc.y as int, geometry.size.h as int);
}

/// A place and the pixel that it is on compare alike with others.
proof fn lemma_pixel_order(pixel: int, place: int, start: int, length: int)
    requires
        pixel * one_units() <= place < (pixel + 1) * one_units(),
    ensures
        start * one_units() <= place <==> start <= pixel,
        place < (start + length) * one_units() <==> pixel < start + length,
        place < (start + length + 1) * one_units() <==> pixel <= start + length,
{
    lemma_whole_order(pixel, place, start);
    lemma_whole_order(pixel, place, start + length);
    lemma_whole_order(pixel, place, start + length + 1);
}

proof fn lemma_whole_order(pixel: int, place: int, k: int)
    requires
        pixel * one_units() <= place < (pixel + 1) * one_units(),
    ensures
        k * one_units() <= place <==> k <= pixel,
{
    lemma_slack();
    let one = one_units() as int;
    if k <= pixel {
        assert(k * one <= pixel * one) by (nonlinear_arith)
            requires
                k <= pixel,
                one > 0,
        ;
    } else {
        assert((pixel + 1) * one <= k * one) by (nonlinear_arith)
            requires
                pixel + 1 <= k,
                one > 0,
        ;
    }
}

// ---------------------------------------------------------------------------
// What is drawn over the zones
// ---------------------------------------------------------------------------

/// Every zone outside the drop target is dimmed.
pub proof fn zones_outside_the_target_are_dimmed(state: ZoneDragState, n: nat, i: int)
    requires
        0 <= i < n,
        !(state.target matches Some(hit) && hit.zones@.contains(i as usize)),
    ensures
        exists|k: int|
            0 <= k < state.dimmed_elements(n).len() && (#[trigger] state.dimmed_elements(n)[k] matches OverlayElement::Dimmed {
                key,
                geometry,
            } && geometry == zone_pixels(
                state.context.layout.zones@[i],
                state.context.area,
                state.context.gaps.1,
            )),
    decreases n,
{
    let all = state.dimmed_elements(n);
    let before = state.dimmed_elements((n - 1) as nat);
    if i < n - 1 {
        zones_outside_the_target_are_dimmed(state, (n - 1) as nat, i);
        let k = choose|k: int|
            0 <= k < before.len() && (#[trigger] before[k] matches OverlayElement::Dimmed { key, geometry }
                && geometry == zone_pixels(state.context.layout.zones@[i], state.context.area, state.context.gaps.1));
        assert(all[k] == before[k]);
    } else {
        assert(!state.targeted(i));
        assert(all[before.len() as int] == (OverlayElement::Dimmed {
            key: zone_key(i as nat),
            geometry: state.pixels(i),
        }));
    }
}

/// Each badge bears the number of its zone and stands in the middle of the zone.
pub proof fn badges_stand_on_their_zones(state: ZoneDragState, n: nat, i: int)
    requires
        0 <= i < n,
    ensures
        state.badge_elements(n).len() == n,
        state.badge_elements(n)[i] matches OverlayElement::Badge { number, location } && number
            == state.numbers@[i].elem.number && location == badge_place(
            zone_pixels(state.context.layout.zones@[i], state.context.area, state.context.gaps.1),
        ),
    decreases n,
{
    if n > 1 {
        badges_stand_on_their_zones(
            state,
            (n - 1) as nat,
            if i < n - 1 {
                i
            } else {
                0
            },
        );
    } else {
        assert(state.badge_elements(0).len() == 0);
    }
}

/// What stands in front of what: the badges before the drop target, its border before
/// its fill, and both before the zones outside it.
pub proof fn the_target_stands_out(state: ZoneDragState, i: int)
    requires
        0 <= i < state.overlay_elements().len(),
        state.target is Some,
    ensures
        ({
            let all = state.overlay_elements();
            let badges = state.badge_elements(state.badge_count()).len();
            &&& all.len() >= badges + 2
            &&& i < badges ==> all[i] is Badge
            &&& i == badges ==> (all[i] matches OverlayElement::TargetBorder { key, geometry } && geometry
                == state.target->0.geometry)
            &&& i == badges + 1 ==> (all[i] matches OverlayElement::TargetFill { key, geometry } && geometry
                == state.target->0.geometry)
            &&& i > badges + 1 ==> all[i] is Dimmed
        }),
{
    let zones = state.context.layout.zones@.len();
    let badges = state.badge_elements(state.badge_count());
    if i < badges.len() {
        if state.badge_count() > 0 {
            badges_stand_on_their_zones(state, state.badge_count(), 0);
            badges_stand_on_their_zones(state, state.badge_count(), i);
        }
    } else if i > badges.len() + 1 {
        targeted_zones_are_not_dimmed(state, zones, i - badges.len() - 2);
    }
}

/// No zone's overlay has the key of the drop target, and the first zones have keys of
/// their own.
pub proof fn overlay_keys_are_told_apart(a: nat, b: nat)
    ensures
        zone_key(a) != ZONE_TARGET_KEY,
        a < b && a < ZONE_KEY_MAX ==> zone_key(a) != zone_key(b),
{
}

// ---------------------------------------------------------------------------
// Where the cursor takes it
// ---------------------------------------------------------------------------

/// A window that is not from the tiling is pulled onto the edges of the output, across
/// by its width and down by its height, each on its own: onto the near edge where it is
/// nearer to it than the threshold, else onto the far one where it is nearer to that. One
/// from the tiling goes wherever the cursor goes.
pub proof fn windows_are_pulled_across_and_down(
    previous: ManagedLayer,
    offset: PixelPoint,
    location: Location,
    output: PixelRect,
    size: PixelSize,
    threshold: Binary64,
    x: int,
    y: int,
)
    requires
        is_at(location.x, x),
        is_at(location.y, y),
        apart(x, 0) <= 0x100_0000_0000,
        apart(y, 0) <= 0x100_0000_0000,
        threshold.is_finite(),
    ensures
        ({
            let after = taken_to(previous, offset, location, output, size, threshold);
            let left = apart(x + offset.x, output.loc.x as int) * one_units() < threshold.value();
            let right = apart(x + offset.x + size.w, output.loc.x + output.size.w) * one_units() < threshold.value();
            let top = apart(y + offset.y, output.loc.y as int) * one_units() < threshold.value();
            let bottom = apart(y + offset.y + size.h, output.loc.y + output.size.h) * one_units() < threshold.value();
            &&& previous == ManagedLayer::Tiling || (!left && !right) ==> after.x == location.x
            &&& previous == ManagedLayer::Tiling || (!top && !bottom) ==> after.y == location.y
            &&& previous != ManagedLayer::Tiling && left ==> is_at(after.x, output.loc.x - offset.x)
            &&& previous != ManagedLayer::Tiling && !left && right ==> is_at(
                after.x,
                output.loc.x + output.size.w - size.w - offset.x,
            )
            &&& previous != ManagedLayer::Tiling && top ==> is_at(after.y, output.loc.y - offset.y)
            &&& previous != ManagedLayer::Tiling && !top && bottom ==> is_at(
                after.y,
                output.loc.y + output.size.h - size.h - offset.y,
            )
        }),
{
    windows_are_pulled_within_the_threshold(
        location.x,
        x,
        offset.x,
        size.w,
        output.loc.x,
        output.size.w,
        threshold,
    );
    windows_are_pulled_within_the_threshold(
        location.y,
        y,
        offset.y,
        size.h,
        output.loc.y,
        output.size.h,
        threshold,
    );
}

/// Zones are armed exactly while they are enabled and every configured modifier is held,
/// of which there is at least one.
pub proof fn zones_are_armed_by_the_configured_modifiers(config: ZonesConfig, held: Option<ModifiersState>)
    ensures
        zone_mode(config, held) <==> {
            let want = config.modifier;
            &&& config.enabled
            &&& held is Some
            &&& want.ctrl || want.alt || want.shift || want.logo
            &&& !(want.ctrl && !held->0.ctrl)
            &&& !(want.alt && !held->0.alt)
            &&& !(want.shift && !held->0.shift)
            &&& !(want.logo && !held->0.logo)
        },
{
}

// ---------------------------------------------------------------------------
// Where what is shown
// ---------------------------------------------------------------------------

/// A grab by a held button lasts as long as any button is pressed, one by a click until
/// a button is.
pub proof fn grabs_last_until_they_are_released(any_pressed: bool, pressed_now: bool)
    ensures
        ends_grab(ReleaseMode::NoMouseButtons, true, pressed_now) == false,
        ends_grab(ReleaseMode::NoMouseButtons, false, pressed_now) == true,
        ends_grab(ReleaseMode::Click, any_pressed, true) == true,
        ends_grab(ReleaseMode::Click, any_pressed, false) == false,
{
}

/// A window is solid on the output that the cursor is on, and two fifths so on any
/// other.
pub proof fn windows_are_solid_where_the_cursor_is(cursor_output: u64, output: u64)
    ensures
        cursor_output == output ==> alpha_on(cursor_output, output).value() == one_units(),
        cursor_output != output ==> apart(5 * alpha_on(cursor_output, output).value(), 2 * one_units() as int)
            <= tolerance(),
{
    lemma_constants();
    lemma_opacities();
}

/// Badges and the border of the drop target are solid, its fill is two fifths so, and
/// the other zones are dimmed as configured.
pub proof fn the_target_is_more_solid_than_the_rest(state: ZoneDragState, element: OverlayElement)
    ensures
        element is Badge || element is TargetBorder ==> state.alpha_of(element).value() == one_units(),
        element is TargetFill ==> apart(5 * state.alpha_of(element).value(), 2 * one_units() as int) <= tolerance(),
        element is Dimmed ==> state.alpha_of(element) == state.inactive_alpha,
{
    lemma_constants();
    lemma_opacities();
}

/// The edge overlay is shown on the output that the cursor is on alone, and only where
/// the window would snap to an edge.
pub proof fn the_edge_overlay_is_where_the_cursor_is(
    state: MoveGrabState,
    output: u64,
    area: PixelRect,
    gaps: (i32, i32),
)
    ensures
        state.shown_edge(output, area, gaps) is Some <==> state.snapping_zone is Some && state.cursor_output == output,
        state.snapping_zone == Some(SnappingZone::Maximize) && state.cursor_output == output ==> state.shown_edge(
            output,
            area,
            gaps,
        ) == Some(area),
{
}

/// A window at a scale is that part of its width wide and that part of its height tall,
/// to the nearest pixel.
pub proof fn windows_are_drawn_to_scale(size: PixelSize, scale: Binary64, drawn: PixelSize)
    requires
        apart(size.w as int, 0) <= 0x1000_0000,
        apart(size.h as int, 0) <= 0x1000_0000,
        scale.is_finite(),
        0 <= scale.value() <= one_units(),
        drawn == size_at(size, scale),
    ensures
        2 * apart(drawn.w * one_units(), size.w * scale.value()) <= one_units() + 2 * tolerance(),
        2 * apart(drawn.h * one_units(), size.h * scale.value()) <= one_units() + 2 * tolerance(),
{
    lemma_scaled(size.w, scale);
    lemma_scaled(size.h, scale);
}

/// With the modifiers let go, a window that floated snaps to the edge that is near to the
/// cursor's pixel of the output; with them held it snaps to the zones that are hit there.
pub proof fn snapping_goes_by_the_pixel_of_the_output(
    before: MoveGrabState,
    after: MoveGrabState,
    config: ZonesConfig,
    held: Option<ModifiersState>,
    output: OutputPlace,
    workspace: Option<Seq<char>>,
    theme: (i32, i32),
    location: Location,
    x: i32,
    y: i32,
)
    requires
        before.previous == ManagedLayer::Floating,
        after.follows(before, config, held, output, workspace, theme, location),
        is_at(location.x, output.geometry.loc.x + x),
        is_at(location.y, output.geometry.loc.y + y),
    ensures
        !zone_mode(config, held) ==> SnappingZone::first_at(
            PixelPoint { x, y },
            PixelRect { loc: PixelPoint { x: 0, y: 0 }, size: output.geometry.size },
            after.snapping_zone,
        ),
        zone_mode(config, held) ==> after.snapping_zone is None,
        zone_mode(config, held) && after.zones is Some ==> after.zones->0.context.hits(
            PixelPoint { x, y },
            after.zones->0.target,
        ),
{
    places_are_counted_from_the_output(
        location,
        output.geometry,
        output.geometry.loc.x + x,
        output.geometry.loc.y + y,
    );
}

/// A window that was not floating snaps to nothing new, whatever the cursor does.
pub proof fn only_floating_windows_find_something_to_snap_to(
    before: MoveGrabState,
    after: MoveGrabState,
    config: ZonesConfig,
    held: Option<ModifiersState>,
    output: OutputPlace,
    workspace: Option<Seq<char>>,
    theme: (i32, i32),
    location: Location,
)
    requires
        before.previous != ManagedLayer::Floating,
        after.follows(before, config, held, output, workspace, theme, location),
    ensures
        after.snapping_zone == before.snapping_zone,
        after.zones == before.zones,
        after.zones_output == before.zones_output,
{
}

} // verus!
