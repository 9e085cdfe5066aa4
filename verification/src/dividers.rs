//! Editing a layout as a grid: boundaries, and what moving, splitting and merging
//! across them does to the zones.

use crate::binary64::Binary64;
use crate::rect::{fixed, ZoneRect, EPSILON, ONE};
use vstd::prelude::*;

verus! {

/// The bits of 0.05, the smallest that a zone may be dragged to, as a fraction.
/// Stops a drag from collapsing a zone to nothing and making it unrecoverable.
pub const MIN_FRACTION: u64 = 0x3fa9_9999_9999_999a;

#[derive(Clone, Copy, Debug, PartialEq, Eq, Structural)]
pub enum Axis {
    Vertical,
    Horizontal,
}

/// A boundary shared by zones on either side of it.
#[derive(Clone, Copy, Debug, PartialEq)]
pub struct Divider {
    pub axis: Axis,
    pub position: Binary64,
}

/// Whether two edges are the same boundary, up to the tolerance.
#[verifier::opaque]
pub open spec fn close(a: Binary64, b: Binary64) -> bool {
    a.minus(b).absolute().below(Binary64 { bits: EPSILON })
}

/// Where a zone begins, measured across boundaries of an axis.
pub open spec fn low(zone: ZoneRect, axis: Axis) -> Binary64 {
    match axis {
        Axis::Vertical => zone.x,
        Axis::Horizontal => zone.y,
    }
}

/// Where a zone ends, measured across boundaries of an axis.
pub open spec fn high(zone: ZoneRect, axis: Axis) -> Binary64 {
    match axis {
        Axis::Vertical => zone.right(),
        Axis::Horizontal => zone.bottom(),
    }
}

/// Length of a zone, measured across boundaries of an axis.
pub open spec fn extent(zone: ZoneRect, axis: Axis) -> Binary64 {
    match axis {
        Axis::Vertical => zone.w,
        Axis::Horizontal => zone.h,
    }
}

/// Whether a zone ends at a boundary.
pub open spec fn ends_at(zone: ZoneRect, divider: Divider) -> bool {
    close(high(zone, divider.axis), divider.position)
}

/// Whether a zone begins at a boundary.
pub open spec fn begins_at(zone: ZoneRect, divider: Divider) -> bool {
    close(low(zone, divider.axis), divider.position)
}

/// Whether a boundary lies within the screen and has zones on both sides.
pub open spec fn is_interior(zones: Seq<ZoneRect>, divider: Divider) -> bool {
    let eps = Binary64 { bits: EPSILON };
    &&& !divider.position.at_most(eps)
    &&& !(Binary64 { bits: ONE }).minus(eps).at_most(divider.position)
    &&& exists|i: int| 0 <= i < zones.len() && ends_at(#[trigger] zones[i], divider)
    &&& exists|i: int| 0 <= i < zones.len() && begins_at(#[trigger] zones[i], divider)
}

/// Whether a boundary is among some boundaries, up to the tolerance.
pub open spec fn is_known(found: Seq<Divider>, divider: Divider) -> bool {
    exists|i: int|
        0 <= i < found.len() && (#[trigger] found[i]).axis == divider.axis && close(
            found[i].position,
            divider.position,
        )
}

/// The edges of a zone.
pub open spec fn edges(zone: ZoneRect) -> Seq<Divider> {
    seq![
        Divider { axis: Axis::Vertical, position: zone.x },
        Divider { axis: Axis::Vertical, position: zone.right() },
        Divider { axis: Axis::Horizontal, position: zone.y },
        Divider { axis: Axis::Horizontal, position: zone.bottom() },
    ]
}

/// Some boundaries together with another one, if it is interior and new.
pub open spec fn with_edge(zones: Seq<ZoneRect>, found: Seq<Divider>, edge: Divider) -> Seq<Divider> {
    if is_interior(zones, edge) && !is_known(found, edge) {
        found.push(edge)
    } else {
        found
    }
}

/// Some boundaries together with those of a zone's edges that are interior and
/// new.
pub open spec fn with_zone(zones: Seq<ZoneRect>, found: Seq<Divider>, zone: ZoneRect) -> Seq<Divider> {
    let e = edges(zone);
    with_edge(zones, with_edge(zones, with_edge(zones, with_edge(zones, found, e[0]), e[1]), e[2]), e[3])
}

/// The interior boundaries among the edges of the first `n` zones.
pub open spec fn boundaries(zones: Seq<ZoneRect>, n: nat) -> Seq<Divider>
    decreases n,
{
    if n == 0 {
        Seq::empty()
    } else {
        with_zone(zones, boundaries(zones, (n - 1) as nat), zones[n - 1])
    }
}

/// Whether two edges are the same boundary, up to the tolerance.
pub fn is_close(a: Binary64, b: Binary64) -> (r: bool)
    ensures
        r == close(a, b),
{
    reveal(close);
    a.minus(b).absolute().below(fixed(EPSILON))
}

fn zone_low(zone: &ZoneRect, axis: Axis) -> (r: Binary64)
    ensures
        r == low(*zone, axis),
{
    match axis {
        Axis::Vertical => zone.x,
        Axis::Horizontal => zone.y,
    }
}

fn zone_high(zone: &ZoneRect, axis: Axis) -> (r: Binary64)
    ensures
        r == high(*zone, axis),
{
    match axis {
        Axis::Vertical => zone.right(),
        Axis::Horizontal => zone.bottom(),
    }
}

/// Whether any zone ends at a boundary.
fn any_ends(zones: &[ZoneRect], divider: Divider) -> (r: bool)
    ensures
        r == exists|i: int| 0 <= i < zones@.len() && ends_at(#[trigger] zones@[i], divider),
{
    let mut i: usize = 0;
    while i < zones.len()
        invariant
            i <= zones@.len(),
            forall|j: int| 0 <= j < i ==> !ends_at(#[trigger] zones@[j], divider),
        decreases zones@.len() - i,
    {
        if is_close(zone_high(&zones[i], divider.axis), divider.position) {
            assert(ends_at(zones@[i as int], divider));
            return true;
        }
        i = i + 1;
    }
    false
}

/// Whether any zone begins at a boundary.
fn any_begins(zones: &[ZoneRect], divider: Divider) -> (r: bool)
    ensures
        r == exists|i: int| 0 <= i < zones@.len() && begins_at(#[trigger] zones@[i], divider),
{
    let mut i: usize = 0;
    while i < zones.len()
        invariant
            i <= zones@.len(),
            forall|j: int| 0 <= j < i ==> !begins_at(#[trigger] zones@[j], divider),
        decreases zones@.len() - i,
    {
        if is_close(zone_low(&zones[i], divider.axis), divider.position) {
            assert(begins_at(zones@[i as int], divider));
            return true;
        }
        i = i + 1;
    }
    false
}

/// Whether a boundary is among some boundaries.
fn known(found: &Vec<Divider>, divider: Divider) -> (r: bool)
    ensures
        r == is_known(found@, divider),
{
    let mut i: usize = 0;
    while i < found.len()
        invariant
            i <= found@.len(),
            forall|j: int|
                0 <= j < i ==> !((#[trigger] found@[j]).axis == divider.axis && close(
                    found@[j].position,
                    divider.position,
                )),
        decreases found@.len() - i,
    {
        if found[i].axis == divider.axis && is_close(found[i].position, divider.position) {
            return true;
        }
        i = i + 1;
    }
    false
}

/// Take an edge into account as a boundary.
fn consider(zones: &[ZoneRect], found: &mut Vec<Divider>, axis: Axis, position: Binary64)
    ensures
        final(found)@ == with_edge(zones@, old(found)@, Divider { axis, position }),
{
    let eps = fixed(EPSILON);
    if position.at_most(eps) || fixed(ONE).minus(eps).at_most(position) {
        return;
    }
    let divider = Divider { axis, position };
    if any_ends(zones, divider) && any_begins(zones, divider) && !known(found, divider) {
        found.push(divider);
    }
}

/// Interior boundaries of a layout.
///
/// Only boundaries with zones on *both* sides are returned: the outer edges of the
/// screen are not draggable, and a one-sided edge would tear the tiling.
pub fn dividers(zones: &[ZoneRect]) -> (r: Vec<Divider>)
    ensures
        r@ == boundaries(zones@, zones@.len()),
{
    let mut found: Vec<Divider> = Vec::new();
    let mut i: usize = 0;
    while i < zones.len()
        invariant
            i <= zones@.len(),
            found@ == boundaries(zones@, i as nat),
        decreases zones@.len() - i,
    {
        let zone = zones[i];
        consider(zones, &mut found, Axis::Vertical, zone.x);
        consider(zones, &mut found, Axis::Vertical, zone.right());
        consider(zones, &mut found, Axis::Horizontal, zone.y);
        consider(zones, &mut found, Axis::Horizontal, zone.bottom());
        i = i + 1;
    }
    found
}

/// Taking an edge into account keeps the boundaries interior and distinct, and makes
/// the edge known if it is interior.
proof fn lemma_with_edge(zones: Seq<ZoneRect>, found: Seq<Divider>, edge: Divider)
    requires
        forall|k: int| 0 <= k < found.len() ==> is_interior(zones, #[trigger] found[k]),
        forall|k: int, l: int|
            #![trigger found[k], found[l]]
            0 <= k < l < found.len() && found[k].axis == found[l].axis ==> !close(found[k].position, found[l].position),
    ensures
        ({
            let more = with_edge(zones, found, edge);
            &&& found.len() <= more.len()
            &&& forall|k: int| 0 <= k < found.len() ==> more[k] == #[trigger] found[k]
            &&& forall|k: int| 0 <= k < more.len() ==> is_interior(zones, #[trigger] more[k])
            &&& forall|k: int, l: int|
                #![trigger more[k], more[l]]
                0 <= k < l < more.len() && more[k].axis == more[l].axis ==> !close(more[k].position, more[l].position)
            &&& is_interior(zones, edge) && close(edge.position, edge.position) ==> is_known(more, edge)
        }),
{
    let more = with_edge(zones, found, edge);
    if is_interior(zones, edge) && !is_known(found, edge) {
        assert(more.last() == edge);
        assert(more[more.len() - 1] == edge);
    }
}

/// What is known stays known when boundaries are added at the end.
proof fn lemma_known_stays(found: Seq<Divider>, more: Seq<Divider>, divider: Divider)
    requires
        is_known(found, divider),
        found.len() <= more.len(),
        forall|k: int| 0 <= k < found.len() ==> more[k] == #[trigger] found[k],
    ensures
        is_known(more, divider),
{
    let i = choose|i: int|
        0 <= i < found.len() && (#[trigger] found[i]).axis == divider.axis && close(
            found[i].position,
            divider.position,
        );
    assert(more[i] == found[i]);
}

/// The dividers of a layout are interior boundaries, no boundary is found twice,
/// and every interior edge of a zone is found.
pub proof fn dividers_are_the_interior_boundaries(zones: Seq<ZoneRect>, n: nat)
    requires
        n <= zones.len(),
    ensures
        forall|k: int| 0 <= k < boundaries(zones, n).len() ==> is_interior(zones, #[trigger] boundaries(zones, n)[k]),
        forall|k: int, l: int|
            #![trigger boundaries(zones, n)[k], boundaries(zones, n)[l]]
            0 <= k < l < boundaries(zones, n).len() && boundaries(zones, n)[k].axis == boundaries(zones, n)[l].axis
                ==> !close(boundaries(zones, n)[k].position, boundaries(zones, n)[l].position),
        forall|i: int, e: int|
            #![trigger edges(zones[i])[e]]
            0 <= i < n && 0 <= e < 4 && is_interior(zones, edges(zones[i])[e]) && close(
                edges(zones[i])[e].position,
                edges(zones[i])[e].position,
            ) ==> is_known(boundaries(zones, n), edges(zones[i])[e]),
    decreases n,
{
    if n > 0 {
        let before = boundaries(zones, (n - 1) as nat);
        dividers_are_the_interior_boundaries(zones, (n - 1) as nat);
        let e = edges(zones[n - 1]);
        let a = with_edge(zones, before, e[0]);
        let b = with_edge(zones, a, e[1]);
        let c = with_edge(zones, b, e[2]);
        let d = with_edge(zones, c, e[3]);
        lemma_with_edge(zones, before, e[0]);
        lemma_with_edge(zones, a, e[1]);
        lemma_with_edge(zones, b, e[2]);
        lemma_with_edge(zones, c, e[3]);
        assert(d == boundaries(zones, n));
        assert forall|k: int| 0 <= k < before.len() implies d[k] == #[trigger] before[k] by {
            assert(a[k] == before[k]);
            assert(b[k] == a[k]);
            assert(c[k] == b[k]);
            assert(d[k] == c[k]);
        }
        assert forall|k: int| 0 <= k < a.len() implies d[k] == #[trigger] a[k] by {
            assert(b[k] == a[k]);
            assert(c[k] == b[k]);
            assert(d[k] == c[k]);
        }
        assert forall|k: int| 0 <= k < b.len() implies d[k] == #[trigger] b[k] by {
            assert(c[k] == b[k]);
            assert(d[k] == c[k]);
        }
        assert forall|i: int, f: int|
            #![trigger edges(zones[i])[f]]
            0 <= i < n && 0 <= f < 4 && is_interior(zones, edges(zones[i])[f]) && close(
                edges(zones[i])[f].position,
                edges(zones[i])[f].position,
            ) implies is_known(d, edges(zones[i])[f]) by {
            let edge = edges(zones[i])[f];
            if i < n - 1 {
                assert(is_known(before, edge));
                lemma_known_stays(before, d, edge);
            } else if f == 0 {
                lemma_known_stays(a, d, edge);
            } else if f == 1 {
                lemma_known_stays(b, d, edge);
            } else if f == 2 {
                lemma_known_stays(c, d, edge);
            }
        }
    }
}

// ---------------------------------------------------------------------------
// Moving
// ---------------------------------------------------------------------------

/// A position held so far within the screen that a zone keeps a usable size.
pub open spec fn pinned(to: Binary64) -> Binary64 {
    let min = Binary64 { bits: MIN_FRACTION };
    to.bounded(min, (Binary64 { bits: ONE }).minus(min))
}

/// A zone after a boundary moved: one that ended there ends at the new position,
/// one that began there begins there and keeps its other edge.
pub open spec fn moved_zone(zone: ZoneRect, divider: Divider, to: Binary64) -> ZoneRect {
    match divider.axis {
        Axis::Vertical => if ends_at(zone, divider) {
            ZoneRect { x: zone.x, y: zone.y, w: to.minus(zone.x), h: zone.h }
        } else if begins_at(zone, divider) {
            ZoneRect { x: to, y: zone.y, w: zone.right().minus(to), h: zone.h }
        } else {
            zone
        },
        Axis::Horizontal => if ends_at(zone, divider) {
            ZoneRect { x: zone.x, y: zone.y, w: zone.w, h: to.minus(zone.y) }
        } else if begins_at(zone, divider) {
            ZoneRect { x: zone.x, y: to, w: zone.w, h: zone.bottom().minus(to) }
        } else {
            zone
        },
    }
}

/// Whether a zone is too small to be used.
pub open spec fn is_sliver(zone: ZoneRect) -> bool {
    let min = Binary64 { bits: MIN_FRACTION };
    zone.w.below(min) || zone.h.below(min)
}

/// The zones after a boundary moved.
pub open spec fn moved(zones: Seq<ZoneRect>, divider: Divider, to: Binary64) -> Seq<ZoneRect> {
    Seq::new(zones.len(), |i: int| moved_zone(zones[i], divider, pinned(to)))
}

/// The zones after a boundary moved, unless that would leave a sliver.
pub open spec fn move_result(zones: Seq<ZoneRect>, divider: Divider, to: Binary64) -> Option<Seq<ZoneRect>> {
    if exists|i: int| 0 <= i < zones.len() && is_sliver(#[trigger] moved(zones, divider, to)[i]) {
        None
    } else {
        Some(moved(zones, divider, to))
    }
}

/// The zones in a list of them, where there is one.
pub open spec fn laid_out(zones: Option<Vec<ZoneRect>>) -> Option<Seq<ZoneRect>> {
    match zones {
        Some(list) => Some(list@),
        None => None,
    }
}

/// A position held within the screen.
pub fn pin(to: Binary64) -> (r: Binary64)
    ensures
        r == pinned(to),
{
    let min = fixed(MIN_FRACTION);
    to.bounded(min, fixed(ONE).minus(min))
}

/// A zone after a boundary moved.
fn move_zone(zone: ZoneRect, divider: Divider, to: Binary64) -> (r: ZoneRect)
    ensures
        r == moved_zone(zone, divider, to),
{
    let ends = is_close(zone_high(&zone, divider.axis), divider.position);
    let begins = is_close(zone_low(&zone, divider.axis), divider.position);
    match divider.axis {
        Axis::Vertical => if ends {
            ZoneRect { x: zone.x, y: zone.y, w: to.minus(zone.x), h: zone.h }
        } else if begins {
            ZoneRect { x: to, y: zone.y, w: zone.right().minus(to), h: zone.h }
        } else {
            zone
        },
        Axis::Horizontal => if ends {
            ZoneRect { x: zone.x, y: zone.y, w: zone.w, h: to.minus(zone.y) }
        } else if begins {
            ZoneRect { x: zone.x, y: to, w: zone.w, h: zone.bottom().minus(to) }
        } else {
            zone
        },
    }
}

/// Move a boundary, resizing the zones on both sides.
///
/// The target is clamped so the dragged boundary stays on screen and its own two
/// zones keep a usable size: a drag past the edge pins rather than collapsing.
/// Clamping cannot protect zones beyond the adjacent pair, though, so a move that
/// would invert one of those returns `None` and the caller keeps the previous
/// layout.
pub fn move_divider(zones: &[ZoneRect], divider: Divider, to: Binary64) -> (r: Option<Vec<ZoneRect>>)
    ensures
        laid_out(r) == move_result(zones@, divider, to),
{
    let at = pin(to);
    let min = fixed(MIN_FRACTION);
    let mut out: Vec<ZoneRect> = Vec::new();
    let mut sliver = false;
    let mut i: usize = 0;
    while i < zones.len()
        invariant
            i <= zones@.len(),
            at == pinned(to),
            min == (Binary64 { bits: MIN_FRACTION }),
            out@.len() == i,
            forall|j: int| 0 <= j < i ==> #[trigger] out@[j] == moved(zones@, divider, to)[j],
            sliver == exists|j: int| 0 <= j < i && is_sliver(#[trigger] moved(zones@, divider, to)[j]),
        decreases zones@.len() - i,
    {
        let zone = move_zone(zones[i], divider, at);
        assert(zone == moved(zones@, divider, to)[i as int]);
        if zone.w.below(min) || zone.h.below(min) {
            assert(is_sliver(moved(zones@, divider, to)[i as int]));
            sliver = true;
        }
        out.push(zone);
        i = i + 1;
    }
    if sliver {
        return None;
    }
    assert(out@ == moved(zones@, divider, to));
    Some(out)
}

/// However far a boundary is dragged, no zone of the result is a sliver.
pub proof fn moving_leaves_no_sliver(zones: Seq<ZoneRect>, divider: Divider, to: Binary64, i: int)
    requires
        move_result(zones, divider, to) is Some,
        0 <= i < zones.len(),
    ensures
        !is_sliver(move_result(zones, divider, to)->0[i]),
{
    assert(!is_sliver(moved(zones, divider, to)[i]));
}

/// Moving a boundary changes only the zones that end or begin there, and every
/// one of them: what ended there ends at the new position, what began there begins
/// there.
pub proof fn moving_moves_every_adjacent_zone(zones: Seq<ZoneRect>, divider: Divider, to: Binary64, i: int)
    requires
        0 <= i < zones.len(),
    ensures
        ({
            let zone = zones[i];
            let after = moved(zones, divider, to)[i];
            &&& !ends_at(zone, divider) && !begins_at(zone, divider) ==> after == zone
            &&& ends_at(zone, divider) ==> low(after, divider.axis) == low(zone, divider.axis)
            &&& begins_at(zone, divider) && !ends_at(zone, divider) ==> low(after, divider.axis) == pinned(to)
            &&& divider.axis == Axis::Vertical ==> after.y == zone.y && after.h == zone.h
            &&& divider.axis == Axis::Horizontal ==> after.x == zone.x && after.w == zone.w
        }),
{
}

/// A boundary that no zone ends or begins at cannot be moved: the zones stay as
/// they are. So a drag has to start from the zones that the boundary was grabbed
/// in; from the moved ones it would go nowhere.
pub proof fn moving_a_stale_boundary_does_nothing(zones: Seq<ZoneRect>, divider: Divider, to: Binary64)
    requires
        forall|i: int|
            0 <= i < zones.len() ==> !ends_at(#[trigger] zones[i], divider) && !begins_at(zones[i], divider),
    ensures
        moved(zones, divider, to) == zones,
{
    assert forall|i: int| 0 <= i < zones.len() implies moved(zones, divider, to)[i] == zones[i] by {
        assert(!ends_at(zones[i], divider));
    }
    assert(moved(zones, divider, to) =~= zones);
}

// ---------------------------------------------------------------------------
// Splitting
// ---------------------------------------------------------------------------

/// The two halves of a zone that is split at a place, unless one of them would be
/// a sliver.
pub open spec fn halves(zone: ZoneRect, at: Binary64, axis: Axis) -> Option<(ZoneRect, ZoneRect)> {
    let min = Binary64 { bits: MIN_FRACTION };
    let before = at.minus(low(zone, axis));
    let after = high(zone, axis).minus(at);
    if before.below(min) || after.below(min) {
        None
    } else {
        match axis {
            Axis::Vertical => Some(
                (
                    ZoneRect { x: zone.x, y: zone.y, w: before, h: zone.h },
                    ZoneRect { x: at, y: zone.y, w: after, h: zone.h },
                ),
            ),
            Axis::Horizontal => Some(
                (
                    ZoneRect { x: zone.x, y: zone.y, w: zone.w, h: before },
                    ZoneRect { x: zone.x, y: at, w: zone.w, h: after },
                ),
            ),
        }
    }
}

/// The zones after one of them is split.
pub open spec fn split_result(zones: Seq<ZoneRect>, index: usize, at: Binary64, axis: Axis) -> Option<Seq<ZoneRect>> {
    if index < zones.len() {
        match halves(zones[index as int], at, axis) {
            Some((first, second)) => Some(zones.update(index as int, first).insert(index + 1, second)),
            None => None,
        }
    } else {
        None
    }
}

/// Split a zone in two at `at`, measured along `axis`.
///
/// `axis` names the orientation of the new boundary, matching [`Divider`]: a
/// vertical split produces side-by-side zones. Returns `None` if either half would
/// be unusably small, so a stray click cannot shave off a sliver.
pub fn split_zone(zones: &[ZoneRect], index: usize, at: Binary64, axis: Axis) -> (r: Option<Vec<ZoneRect>>)
    ensures
        laid_out(r) == split_result(zones@, index, at, axis),
{
    if index >= zones.len() {
        return None;
    }
    let zone = zones[index];
    let min = fixed(MIN_FRACTION);
    let before = at.minus(zone_low(&zone, axis));
    let after = zone_high(&zone, axis).minus(at);
    if before.below(min) || after.below(min) {
        return None;
    }
    let (first, second) = match axis {
        Axis::Vertical => (
            ZoneRect { x: zone.x, y: zone.y, w: before, h: zone.h },
            ZoneRect { x: at, y: zone.y, w: after, h: zone.h },
        ),
        Axis::Horizontal => (
            ZoneRect { x: zone.x, y: zone.y, w: zone.w, h: before },
            ZoneRect { x: zone.x, y: at, w: zone.w, h: after },
        ),
    };
    let ghost whole = zones@.update(index as int, first).insert(index + 1, second);
    // The second half stands next to its sibling so zone numbers stay in reading
    // order.
    let mut out: Vec<ZoneRect> = Vec::new();
    let mut i: usize = 0;
    while i < zones.len()
        invariant
            i <= zones@.len(),
            index < zones@.len(),
            whole == zones@.update(index as int, first).insert(index + 1, second),
            out@ == whole.take(
                if i <= index {
                    i as int
                } else {
                    i + 1
                },
            ),
        decreases zones@.len() - i,
    {
        if i == index {
            out.push(first);
            out.push(second);
            assert(out@ == whole.take(i + 2));
        } else {
            out.push(zones[i]);
        }
        i = i + 1;
    }
    assert(out@ == whole);
    Some(out)
}

/// Splitting a zone leaves every other zone as it was, in the same order, with the
/// two halves next to each other in the place of the one that was split.
pub proof fn splitting_keeps_the_other_zones(zones: Seq<ZoneRect>, index: usize, at: Binary64, axis: Axis)
    requires
        split_result(zones, index, at, axis) is Some,
    ensures
        ({
            let after = split_result(zones, index, at, axis)->0;
            let (first, second) = halves(zones[index as int], at, axis)->0;
            &&& after.len() == zones.len() + 1
            &&& after[index as int] == first
            &&& after[index + 1] == second
            &&& forall|i: int| 0 <= i < index ==> after[i] == #[trigger] zones[i]
            &&& forall|i: int| index < i < zones.len() ==> after[i + 1] == #[trigger] zones[i]
        }),
{
}

// ---------------------------------------------------------------------------
// Merging
// ---------------------------------------------------------------------------

/// Whether zone `b` continues zone `a` across a boundary, in line with it.
pub open spec fn continues(a: ZoneRect, b: ZoneRect, divider: Divider) -> bool {
    &&& begins_at(b, divider)
    &&& match divider.axis {
        Axis::Vertical => close(b.y, a.y) && close(b.h, a.h),
        Axis::Horizontal => close(b.x, a.x) && close(b.w, a.w),
    }
}

/// The zones while they are being merged: each as it is by now, and whether it was
/// taken into another one.
pub struct Merging {
    pub zones: Seq<ZoneRect>,
    pub gone: Seq<bool>,
}

/// The first zone from `j` on, other than zone `i` and not gone, that continues
/// zone `i` across a boundary.
pub open spec fn partner(zones: Seq<ZoneRect>, gone: Seq<bool>, divider: Divider, i: int, j: int) -> Option<int>
    decreases zones.len() - j,
{
    if j < 0 || j >= zones.len() {
        None
    } else if j != i && !gone[j] && continues(zones[i], zones[j], divider) {
        Some(j)
    } else {
        partner(zones, gone, divider, i, j + 1)
    }
}

/// One step of merging: zone `i`, if it is still there and ends at the boundary,
/// takes in its partner.
pub open spec fn merge_step(zones: Seq<ZoneRect>, state: Merging, divider: Divider, i: int) -> Merging {
    if state.gone[i] || !ends_at(zones[i], divider) {
        state
    } else {
        match partner(zones, state.gone, divider, i, 0) {
            Some(j) => Merging {
                zones: state.zones.update(i, zones[i].union(&zones[j])),
                gone: state.gone.update(j, true),
            },
            None => state,
        }
    }
}

/// The zones after the first `n` of them have looked for a partner.
pub open spec fn merging(zones: Seq<ZoneRect>, divider: Divider, n: nat) -> Merging
    decreases n,
{
    if n == 0 {
        Merging { zones, gone: Seq::new(zones.len(), |i: int| false) }
    } else {
        merge_step(zones, merging(zones, divider, (n - 1) as nat), divider, n - 1)
    }
}

/// Those of the first `n` zones that are not gone.
pub open spec fn remaining(state: Merging, n: nat) -> Seq<ZoneRect>
    decreases n,
{
    if n == 0 {
        Seq::empty()
    } else if state.gone[n - 1] {
        remaining(state, (n - 1) as nat)
    } else {
        remaining(state, (n - 1) as nat).push(state.zones[n - 1])
    }
}

/// The zones after a boundary is removed.
pub open spec fn merge_result(zones: Seq<ZoneRect>, divider: Divider) -> Option<Seq<ZoneRect>> {
    let state = merging(zones, divider, zones.len());
    if exists|i: int| 0 <= i < zones.len() && #[trigger] state.gone[i] {
        Some(remaining(state, zones.len()))
    } else {
        None
    }
}

/// [`partner`] is the first zone that qualifies.
pub proof fn lemma_partner(zones: Seq<ZoneRect>, gone: Seq<bool>, divider: Divider, i: int, j: int)
    requires
        0 <= j <= zones.len(),
    ensures
        match partner(zones, gone, divider, i, j) {
            Some(k) => j <= k < zones.len() && k != i && !gone[k] && continues(zones[i], zones[k], divider),
            None => forall|k: int|
                j <= k < zones.len() && k != i && !gone[k] ==> !continues(zones[i], #[trigger] zones[k], divider),
        },
    decreases zones.len() - j,
{
    if j < zones.len() {
        lemma_partner(zones, gone, divider, i, j + 1);
    }
}

/// Whether zone `i` took in another zone that continues it across the boundary.
pub open spec fn has_merged(zones: Seq<ZoneRect>, state: Merging, divider: Divider, i: int) -> bool {
    &&& ends_at(zones[i], divider)
    &&& exists|j: int|
        {
            &&& 0 <= j < zones.len()
            &&& j != i
            &&& state.gone[j]
            &&& continues(zones[i], #[trigger] zones[j], divider)
            &&& state.zones[i] == zones[i].union(&zones[j])
        }
}

/// What holds of the zones while they are merged.
proof fn lemma_merging(zones: Seq<ZoneRect>, divider: Divider, n: nat)
    requires
        n <= zones.len(),
    ensures
        ({
            let state = merging(zones, divider, n);
            &&& state.zones.len() == zones.len()
            &&& state.gone.len() == zones.len()
            &&& forall|i: int|
                0 <= i < zones.len() ==> #[trigger] state.zones[i] == zones[i] || has_merged(zones, state, divider, i)
            &&& forall|i: int| n <= i < zones.len() ==> #[trigger] state.zones[i] == zones[i]
            &&& forall|i: int, j: int|
                #![trigger zones[i], zones[j]]
                0 <= i < n && 0 <= j < zones.len() && i != j && ends_at(zones[i], divider) && !state.gone[i]
                    && !state.gone[j] && continues(zones[i], zones[j], divider) ==> has_merged(
                    zones,
                    state,
                    divider,
                    i,
                )
        }),
    decreases n,
{
    if n > 0 {
        let before = merging(zones, divider, (n - 1) as nat);
        let state = merging(zones, divider, n);
        lemma_merging(zones, divider, (n - 1) as nat);
        lemma_partner(zones, before.gone, divider, n - 1, 0);
        assert forall|i: int|
            #![trigger has_merged(zones, state, divider, i)]
            0 <= i < zones.len() && has_merged(zones, before, divider, i) implies has_merged(zones, state, divider, i)
            || i == n - 1 by {
            let j = choose|j: int|
                {
                    &&& 0 <= j < zones.len()
                    &&& j != i
                    &&& before.gone[j]
                    &&& continues(zones[i], #[trigger] zones[j], divider)
                    &&& before.zones[i] == zones[i].union(&zones[j])
                };
            if i != n - 1 {
                assert(state.zones[i] == before.zones[i]);
                assert(state.gone[j]);
            }
        }
        if !before.gone[n - 1] && ends_at(zones[n - 1], divider) {
            if let Some(j) = partner(zones, before.gone, divider, n - 1, 0) {
                assert(state.gone[j] && state.zones[n - 1] == zones[n - 1].union(&zones[j]));
                assert(has_merged(zones, state, divider, n - 1));
            }
        }
        assert forall|i: int| 0 <= i < zones.len() implies #[trigger] state.zones[i] == zones[i] || has_merged(
            zones,
            state,
            divider,
            i,
        ) by {
            assert(before.zones[i] == zones[i] || has_merged(zones, before, divider, i));
        }
        assert forall|i: int, j: int|
            #![trigger zones[i], zones[j]]
            0 <= i < n && 0 <= j < zones.len() && i != j && ends_at(zones[i], divider) && !state.gone[i]
                && !state.gone[j] && continues(zones[i], zones[j], divider) implies has_merged(
            zones,
            state,
            divider,
            i,
        ) by {
            assert(!before.gone[i]);
            assert(!before.gone[j]);
            if i < n - 1 {
                assert(has_merged(zones, before, divider, i));
            }
        }
    }
}

/// The number of zones among the first `n` that are gone.
pub open spec fn gone_count(state: Merging, n: nat) -> nat
    decreases n,
{
    if n == 0 {
        0
    } else {
        gone_count(state, (n - 1) as nat) + if state.gone[n - 1] {
            1nat
        } else {
            0nat
        }
    }
}

/// Every zone that is left after a boundary is removed is one of the zones before,
/// or one that ended at the boundary together with one that continued it, in line.
pub proof fn merged_zones_line_up(zones: Seq<ZoneRect>, divider: Divider, i: int)
    requires
        0 <= i < zones.len(),
    ensures
        ({
            let state = merging(zones, divider, zones.len());
            state.zones[i] == zones[i] || has_merged(zones, state, divider, i)
        }),
{
    lemma_merging(zones, divider, zones.len());
    assert(merging(zones, divider, zones.len()).zones[i] == zones[i] || has_merged(
        zones,
        merging(zones, divider, zones.len()),
        divider,
        i,
    ));
}

/// Removing a boundary joins every pair along it, not just the first: of two zones
/// that are both left and line up across it, the first took in another one.
pub proof fn merging_joins_every_pair(zones: Seq<ZoneRect>, divider: Divider, i: int, j: int)
    requires
        0 <= i < zones.len(),
        0 <= j < zones.len(),
        i != j,
        ends_at(zones[i], divider),
        continues(zones[i], zones[j], divider),
        !merging(zones, divider, zones.len()).gone[i],
        !merging(zones, divider, zones.len()).gone[j],
    ensures
        has_merged(zones, merging(zones, divider, zones.len()), divider, i),
{
    lemma_merging(zones, divider, zones.len());
    assert(zones[i] == zones[i] && zones[j] == zones[j]);
}

/// Where no two zones line up across a boundary, removing it is refused.
pub proof fn merging_ragged_zones_is_refused(zones: Seq<ZoneRect>, divider: Divider)
    requires
        forall|i: int, j: int|
            #![trigger zones[i], zones[j]]
            0 <= i < zones.len() && 0 <= j < zones.len() && i != j && ends_at(zones[i], divider) ==> !continues(
                zones[i],
                zones[j],
                divider,
            ),
    ensures
        merge_result(zones, divider) is None,
{
    lemma_ragged(zones, divider, zones.len());
}

proof fn lemma_ragged(zones: Seq<ZoneRect>, divider: Divider, n: nat)
    requires
        n <= zones.len(),
        forall|i: int, j: int|
            #![trigger zones[i], zones[j]]
            0 <= i < zones.len() && 0 <= j < zones.len() && i != j && ends_at(zones[i], divider) ==> !continues(
                zones[i],
                zones[j],
                divider,
            ),
    ensures
        forall|k: int| 0 <= k < zones.len() ==> !#[trigger] merging(zones, divider, n).gone[k],
    decreases n,
{
    if n > 0 {
        lemma_ragged(zones, divider, (n - 1) as nat);
        lemma_partner(zones, merging(zones, divider, (n - 1) as nat).gone, divider, n - 1, 0);
    }
}

/// As many zones are left as were not taken into another one.
pub proof fn merging_drops_one_zone_per_pair(state: Merging, n: nat)
    ensures
        remaining(state, n).len() + gone_count(state, n) == n,
    decreases n,
{
    if n > 0 {
        merging_drops_one_zone_per_pair(state, (n - 1) as nat);
    }
}

/// The zone that a zone is merged with.
fn find_partner(zones: &[ZoneRect], gone: &Vec<bool>, divider: Divider, i: usize) -> (r: Option<usize>)
    requires
        i < zones@.len(),
        gone@.len() == zones@.len(),
    ensures
        match r {
            Some(j) => j < zones@.len() && partner(zones@, gone@, divider, i as int, 0) == Some(j as int),
            None => partner(zones@, gone@, divider, i as int, 0) is None,
        },
{
    let a = zones[i];
    let mut j: usize = 0;
    while j < zones.len()
        invariant
            j <= zones@.len(),
            i < zones@.len(),
            a == zones@[i as int],
            gone@.len() == zones@.len(),
            partner(zones@, gone@, divider, i as int, 0) == partner(zones@, gone@, divider, i as int, j as int),
        decreases zones@.len() - j,
    {
        if j != i && !gone[j] {
            let b = zones[j];
            let in_line = is_close(zone_low(&b, divider.axis), divider.position) && match divider.axis {
                Axis::Vertical => is_close(b.y, a.y) && is_close(b.h, a.h),
                Axis::Horizontal => is_close(b.x, a.x) && is_close(b.w, a.w),
            };
            if in_line {
                return Some(j);
            }
        }
        j = j + 1;
    }
    None
}

/// Remove a boundary, merging the zones on either side of it.
///
/// Zones are paired across the boundary only when they line up exactly on the
/// perpendicular axis, so merging a grid column joins each row's pair and leaves a
/// ragged layout untouched rather than producing overlaps. Returns `None` when
/// nothing could be paired.
pub fn merge_at(zones: &[ZoneRect], divider: Divider) -> (r: Option<Vec<ZoneRect>>)
    ensures
        laid_out(r) == merge_result(zones@, divider),
{
    let mut out: Vec<ZoneRect> = Vec::new();
    let mut gone: Vec<bool> = Vec::new();
    let mut k: usize = 0;
    while k < zones.len()
        invariant
            k <= zones@.len(),
            out@ == zones@.take(k as int),
            gone@ == Seq::new(k as nat, |i: int| false),
        decreases zones@.len() - k,
    {
        out.push(zones[k]);
        gone.push(false);
        k = k + 1;
    }
    assert(out@ == zones@);
    let mut merged_any = false;
    let mut i: usize = 0;
    assert(out@ == merging(zones@, divider, 0).zones);
    assert(gone@ == merging(zones@, divider, 0).gone);
    while i < zones.len()
        invariant
            i <= zones@.len(),
            out@.len() == zones@.len(),
            gone@.len() == zones@.len(),
            out@ == merging(zones@, divider, i as nat).zones,
            gone@ == merging(zones@, divider, i as nat).gone,
            merged_any == exists|j: int| 0 <= j < zones@.len() && #[trigger] gone@[j],
        decreases zones@.len() - i,
    {
        let ghost state = merging(zones@, divider, i as nat);
        let a = zones[i];
        if !gone[i] && is_close(zone_high(&a, divider.axis), divider.position) {
            match find_partner(zones, &gone, divider, i) {
                Some(j) => {
                    out.set(i, a.union(&zones[j]));
                    gone.set(j, true);
                    assert(gone@[j as int]);
                    merged_any = true;
                },
                None => {},
            }
        }
        i = i + 1;
        assert(merging(zones@, divider, i as nat) == merge_step(zones@, state, divider, i - 1));
    }
    if !merged_any {
        return None;
    }
    let ghost state = merging(zones@, divider, zones@.len());
    let mut kept: Vec<ZoneRect> = Vec::new();
    let mut k: usize = 0;
    while k < out.len()
        invariant
            k <= out@.len(),
            out@.len() == gone@.len(),
            out@ == state.zones,
            gone@ == state.gone,
            kept@ == remaining(state, k as nat),
        decreases out@.len() - k,
    {
        if !gone[k] {
            kept.push(out[k]);
        }
        k = k + 1;
    }
    Some(kept)
}

} // verus!
