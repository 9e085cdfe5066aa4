//! Edits keep a layout tiled: splitting a zone, moving a boundary and merging zones
//! across one open no gap and make no overlap.

use crate::binary64::{one_units, Binary64};
use crate::covering::{
    all_valid, area_sum, beside, holds_across, holds_point, is_on_screen, is_reached, is_tiled, separate,
    separate_across, tiled_layouts_cover_the_whole_screen, without_gaps, without_overlaps,
};
use crate::dividers::{
    begins_at, ends_at, extent, halves, high, is_sliver, low, move_result, moved, moved_zone, pinned, split_result,
    Axis, Divider, MIN_FRACTION,
};
use crate::precision::{apart, lemma_negated, lemma_small_plus, slack};
use crate::rect::{ZoneRect, EPSILON, ONE};
use crate::tiling::{
    dragged_boundaries_stay_on_screen, lemma_difference_sign, lemma_min_fraction, lemma_split_place,
    split_halves_fill_the_zone, split_halves_meet,
};
use crate::tolerance::{lemma_magnitudes, lemma_reach, lemma_valid_zone, tolerance};
use crate::undoing::{lemma_close_apart, lemma_valid_across};
use vstd::prelude::*;

verus! {

/// The axis across another one.
pub open spec fn crossing(axis: Axis) -> Axis {
    match axis {
        Axis::Vertical => Axis::Horizontal,
        Axis::Horizontal => Axis::Vertical,
    }
}

// ---------------------------------------------------------------------------
// Splitting
// ---------------------------------------------------------------------------

/// Where the halves of a zone lie in it.
proof fn lemma_halves(zone: ZoneRect, at: Binary64, axis: Axis)
    requires
        zone.is_valid(),
        at.is_finite(),
        halves(zone, at, axis) is Some,
    ensures
        ({
            let (first, second) = halves(zone, at, axis)->0;
            &&& low(first, axis) == low(zone, axis)
            &&& low(second, axis) == at
            &&& low(zone, axis).value() <= at.value() <= high(zone, axis).value()
            &&& apart(high(first, axis).value(), at.value()) <= 2 * slack()
            &&& high(first, axis).value() <= high(zone, axis).value()
            &&& apart(high(second, axis).value(), high(zone, axis).value()) <= 2 * slack()
            &&& low(first, crossing(axis)) == low(zone, crossing(axis))
            &&& high(first, crossing(axis)) == high(zone, crossing(axis))
            &&& low(second, crossing(axis)) == low(zone, crossing(axis))
            &&& high(second, crossing(axis)) == high(zone, crossing(axis))
        }),
{
    split_halves_meet(zone, at, axis);
    lemma_valid_across(zone, axis);
    lemma_magnitudes();
    lemma_min_fraction();
    let from = low(zone, axis);
    let to = high(zone, axis);
    if at.value() < from.value() {
        lemma_difference_sign(at, from);
    }
    if to.value() < at.value() {
        lemma_difference_sign(to, at);
    }
    lemma_reach(from, at);
    lemma_reach(at, to);
}

/// Whether a zone lies in another one, up to a distance.
pub open spec fn lies_within(part: ZoneRect, whole: ZoneRect, off: int) -> bool {
    &&& low(whole, Axis::Vertical).value() <= low(part, Axis::Vertical).value()
    &&& high(part, Axis::Vertical).value() <= high(whole, Axis::Vertical).value() + off
    &&& low(whole, Axis::Horizontal).value() <= low(part, Axis::Horizontal).value()
    &&& high(part, Axis::Horizontal).value() <= high(whole, Axis::Horizontal).value() + off
}

/// What lies in a zone does not overlap what the zone does not.
proof fn lemma_part_separate(part: ZoneRect, whole: ZoneRect, other: ZoneRect, off: int, more: int)
    requires
        lies_within(part, whole, more),
        separate(whole, other, off) || separate(other, whole, off),
        more >= 0,
    ensures
        separate(part, other, off + more),
        separate(other, part, off + more),
{
}

proof fn lemma_halves_within(zone: ZoneRect, at: Binary64, axis: Axis, off: int)
    requires
        zone.is_valid(),
        at.is_finite(),
        halves(zone, at, axis) is Some,
        off >= 0,
    ensures
        ({
            let (first, second) = halves(zone, at, axis)->0;
            &&& lies_within(first, zone, 2 * slack())
            &&& lies_within(second, zone, 2 * slack())
            &&& separate(first, second, off + 2 * slack())
            &&& separate(second, first, off + 2 * slack())
            &&& is_on_screen(zone, off) ==> is_on_screen(first, off + 2 * slack()) && is_on_screen(
                second,
                off + 2 * slack(),
            )
            &&& forall|x: int, y: int| #[trigger]
                holds_point(zone, x, y, off) ==> holds_point(first, x, y, off + 2 * slack()) || holds_point(
                    second,
                    x,
                    y,
                    off + 2 * slack(),
                )
        }),
{
    lemma_magnitudes();
    lemma_halves(zone, at, axis);
    let (first, second) = halves(zone, at, axis)->0;
    assert(beside(first, second, axis, off + 2 * slack()));
    match axis {
        Axis::Vertical => {
            assert(lies_within(first, zone, 2 * slack()));
        },
        Axis::Horizontal => {
            assert(lies_within(first, zone, 2 * slack()));
        },
    }
}

/// Splitting a zone keeps a layout tiled, up to what rounding loses.
pub proof fn splitting_keeps_the_layout_tiled(zones: Seq<ZoneRect>, index: usize, at: Binary64, axis: Axis, off: int)
    requires
        all_valid(zones),
        !at.is_nan(),
        off >= 0,
        is_tiled(zones, off),
        split_result(zones, index, at, axis) is Some,
    ensures
        is_tiled(split_result(zones, index, at, axis)->0, off + 2 * slack()),
{
    let k = index as int;
    let zone = zones[k];
    let after = split_result(zones, index, at, axis)->0;
    let (first, second) = halves(zone, at, axis)->0;
    let more = 2 * slack();
    lemma_magnitudes();
    assert(zone.is_valid() && is_on_screen(zone, off));
    lemma_split_place(zone, at, axis);
    lemma_halves_within(zone, at, axis, off);
    assert(after[k] == first && after[k + 1] == second);
    assert forall|i: int| 0 <= i < after.len() implies is_on_screen(#[trigger] after[i], off + more) by {
        if i < k {
            assert(after[i] == zones[i]);
        } else if i > k + 1 {
            assert(after[i] == zones[i - 1]);
        }
    }
    assert forall|x: int, y: int| 0 <= x < one_units() && 0 <= y < one_units() implies #[trigger] is_reached(
        after,
        x,
        y,
        off + more,
    ) by {
        assert(is_reached(zones, x, y, off));
        let i = choose|i: int| 0 <= i < zones.len() && holds_point(#[trigger] zones[i], x, y, off);
        if i < k {
            assert(holds_point(after[i], x, y, off + more));
        } else if i > k {
            assert(after[i + 1] == zones[i]);
            assert(holds_point(after[i + 1], x, y, off + more));
        } else {
            assert(holds_point(after[k], x, y, off + more) || holds_point(after[k + 1], x, y, off + more));
        }
    }
    assert forall|i: int, j: int|
        #![trigger after[i], after[j]]
        0 <= i < after.len() && 0 <= j < after.len() && i != j implies separate(after[i], after[j], off + more) by {
        lemma_split_separate(zones, k, after, first, second, off, more, i, j);
    }
}

/// Two zones of a layout in which one was split.
proof fn lemma_split_separate(
    zones: Seq<ZoneRect>,
    k: int,
    after: Seq<ZoneRect>,
    first: ZoneRect,
    second: ZoneRect,
    off: int,
    more: int,
    i: int,
    j: int,
)
    requires
        0 <= k < zones.len(),
        after == zones.update(k, first).insert(k + 1, second),
        without_overlaps(zones, off),
        lies_within(first, zones[k], more),
        lies_within(second, zones[k], more),
        separate(first, second, off + more),
        separate(second, first, off + more),
        more >= 0,
        0 <= i < after.len(),
        0 <= j < after.len(),
        i != j,
    ensures
        separate(after[i], after[j], off + more),
{
    let a = if i <= k {
        i
    } else {
        i - 1
    };
    let b = if j <= k {
        j
    } else {
        j - 1
    };
    if a != b {
        assert(separate(zones[a], zones[b], off));
        if a == k {
            lemma_part_separate(after[i], zones[a], zones[b], off, more);
        } else if b == k {
            lemma_part_separate(after[j], zones[b], zones[a], off, more);
        }
    }
}

/// Adding up areas from either end.
proof fn lemma_area_sum_splits(zones: Seq<ZoneRect>, more: Seq<ZoneRect>)
    ensures
        area_sum(zones + more) == area_sum(zones) + area_sum(more),
    decreases more.len(),
{
    if more.len() == 0 {
        assert(zones + more =~= zones);
    } else {
        lemma_area_sum_splits(zones, more.drop_last());
        assert((zones + more).drop_last() =~= zones + more.drop_last());
    }
}

proof fn lemma_area_sum_of_two(a: ZoneRect, b: ZoneRect)
    ensures
        area_sum(seq![a]) == a.area().value(),
        area_sum(seq![a, b]) == a.area().value() + b.area().value(),
{
    assert(seq![a, b].drop_last() =~= seq![a]);
    assert(seq![a].drop_last() =~= Seq::<ZoneRect>::empty());
    assert(area_sum(Seq::<ZoneRect>::empty()) == 0);
    assert(seq![a].last() == a && seq![a, b].last() == b);
    assert(area_sum(seq![a]) == a.area().value());
}

/// Splitting a zone keeps the total area, up to what rounding loses.
pub proof fn splitting_keeps_the_total_area(zones: Seq<ZoneRect>, index: usize, at: Binary64, axis: Axis)
    requires
        all_valid(zones),
        !at.is_nan(),
        split_result(zones, index, at, axis) is Some,
    ensures
        apart(area_sum(split_result(zones, index, at, axis)->0), area_sum(zones)) <= 18 * slack(),
{
    let k = index as int;
    let zone = zones[k];
    assert(zone.is_valid());
    let after = split_result(zones, index, at, axis)->0;
    let (first, second) = halves(zone, at, axis)->0;
    split_halves_fill_the_zone(zone, at, axis);
    let head = zones.take(k);
    let tail = zones.skip(k + 1);
    assert(zones =~= head + seq![zone] + tail);
    assert(after =~= head + seq![first, second] + tail);
    lemma_area_sum_splits(head, seq![zone]);
    lemma_area_sum_splits(head + seq![zone], tail);
    lemma_area_sum_splits(head, seq![first, second]);
    lemma_area_sum_splits(head + seq![first, second], tail);
    lemma_area_sum_of_two(zone, zone);
    lemma_area_sum_of_two(first, second);
}

// ---------------------------------------------------------------------------
// Moving
// ---------------------------------------------------------------------------

/// Whether it is plain which of a zone's edges are at a boundary: each is, or is
/// well away from it, and not both are.
pub open spec fn is_sharp(zone: ZoneRect, divider: Divider) -> bool {
    let at = divider.position.value();
    &&& begins_at(zone, divider) || apart(low(zone, divider.axis).value(), at) >= 8 * tolerance()
    &&& ends_at(zone, divider) || apart(high(zone, divider.axis).value(), at) >= 8 * tolerance()
    &&& !(begins_at(zone, divider) && ends_at(zone, divider))
}

/// Whether a boundary is well within the screen.
pub open spec fn is_well_inside(divider: Divider) -> bool {
    &&& divider.position.is_finite()
    &&& 8 * tolerance() <= divider.position.value() <= one_units() - 8 * tolerance()
}

/// A zone that ended at a boundary, and what it is after the boundary moved.
spec fn follows_end(zone: ZoneRect, after: ZoneRect, axis: Axis, at: int, to: int) -> bool {
    &&& apart(high(zone, axis).value(), at) < tolerance() + slack()
    &&& low(zone, axis).value() <= at - 8 * tolerance()
    &&& low(after, axis).value() == low(zone, axis).value()
    &&& apart(high(after, axis).value(), to) <= 2 * slack()
    &&& to - low(zone, axis).value() >= 16 * tolerance() - slack()
}

/// A zone that began at a boundary, and what it is after the boundary moved.
spec fn follows_start(zone: ZoneRect, after: ZoneRect, axis: Axis, at: int, to: int) -> bool {
    &&& apart(low(zone, axis).value(), at) < tolerance() + slack()
    &&& high(zone, axis).value() >= at + 8 * tolerance()
    &&& low(after, axis).value() == to
    &&& apart(high(after, axis).value(), high(zone, axis).value()) <= 2 * slack()
    &&& high(zone, axis).value() - to >= 16 * tolerance() - slack()
}

/// A zone that a boundary has nothing to do with.
spec fn stays(zone: ZoneRect, after: ZoneRect, axis: Axis, at: int) -> bool {
    &&& apart(low(zone, axis).value(), at) >= 8 * tolerance()
    &&& apart(high(zone, axis).value(), at) >= 8 * tolerance()
    &&& low(after, axis).value() == low(zone, axis).value()
    &&& high(after, axis).value() == high(zone, axis).value()
}

/// What becomes of a zone when a boundary moves.
spec fn follows(zone: ZoneRect, after: ZoneRect, axis: Axis, at: int, to: int) -> bool {
    &&& follows_end(zone, after, axis, at, to) || follows_start(zone, after, axis, at, to) || stays(
        zone,
        after,
        axis,
        at,
    )
    &&& low(zone, axis).value() < high(zone, axis).value()
    &&& low(after, crossing(axis)).value() == low(zone, crossing(axis)).value()
    &&& high(after, crossing(axis)).value() == high(zone, crossing(axis)).value()
    &&& high(zone, crossing(axis)).value() - low(zone, crossing(axis)).value() >= tolerance() - slack()
}

proof fn lemma_follows(zone: ZoneRect, divider: Divider, to: Binary64)
    requires
        zone.is_valid(),
        !to.is_nan(),
        is_sharp(zone, divider),
        is_well_inside(divider),
        !is_sliver(moved_zone(zone, divider, pinned(to))),
    ensures
        follows(
            zone,
            moved_zone(zone, divider, pinned(to)),
            divider.axis,
            divider.position.value(),
            pinned(to).value(),
        ),
{
    let axis = divider.axis;
    let at = divider.position;
    let p = pinned(to);
    let after = moved_zone(zone, divider, p);
    lemma_magnitudes();
    lemma_min_fraction();
    lemma_valid_zone(zone);
    lemma_valid_across(zone, axis);
    lemma_valid_across(zone, crossing(axis));
    dragged_boundaries_stay_on_screen(to);
    let from = low(zone, axis);
    let end = high(zone, axis);
    if ends_at(zone, divider) {
        lemma_close_apart(end, at);
        lemma_reach(from, p);
        assert(extent(after, axis) == p.minus(from));
        assert(high(after, axis) == from.plus(p.minus(from)));
        assert(!extent(after, axis).below(Binary64 { bits: MIN_FRACTION }));
    } else if begins_at(zone, divider) {
        lemma_close_apart(from, at);
        lemma_reach(p, end);
        assert(extent(after, axis) == end.minus(p));
        assert(high(after, axis) == p.plus(end.minus(p)));
        assert(!extent(after, axis).below(Binary64 { bits: MIN_FRACTION }));
    }
}

/// A zone that holds a place, in the order of an axis and the one across it.
proof fn lemma_reached_across(zones: Seq<ZoneRect>, axis: Axis, t: int, u: int, off: int) -> (i: int)
    requires
        without_gaps(zones, off),
        0 <= t < one_units(),
        0 <= u < one_units(),
    ensures
        0 <= i < zones.len(),
        holds_across(zones[i], axis, t, off),
        holds_across(zones[i], crossing(axis), u, off),
{
    match axis {
        Axis::Vertical => {
            assert(is_reached(zones, t, u, off));
            choose|i: int| 0 <= i < zones.len() && holds_point(#[trigger] zones[i], t, u, off)
        },
        Axis::Horizontal => {
            assert(is_reached(zones, u, t, off));
            choose|i: int| 0 <= i < zones.len() && holds_point(#[trigger] zones[i], u, t, off)
        },
    }
}

/// Two zones that both hold a place across an axis, one of them well so, are
/// separate along the other.
proof fn lemma_separate_along(a: ZoneRect, b: ZoneRect, axis: Axis, u: int, off: int)
    requires
        separate(a, b, off),
        low(a, crossing(axis)).value() + 2 * off <= u < high(a, crossing(axis)).value() - 2 * off,
        holds_across(b, crossing(axis), u, off),
        off > 0,
    ensures
        separate_across(a, b, axis, off),
{
}

proof fn lemma_on_screen_across(zone: ZoneRect, axis: Axis, off: int)
    requires
        is_on_screen(zone, off),
    ensures
        -off <= low(zone, axis).value(),
        high(zone, axis).value() <= one_units() + off,
{
}

/// The whole of what is known while a boundary moves.
spec fn is_moving(
    zones: Seq<ZoneRect>,
    after: Seq<ZoneRect>,
    axis: Axis,
    at: int,
    to: int,
    off: int,
) -> bool {
    &&& is_tiled(zones, off)
    &&& after.len() == zones.len()
    &&& 0 < slack() <= off
    &&& 8 * off <= tolerance()
    &&& 8 * tolerance() <= at <= one_units() - 8 * tolerance()
    &&& tolerance() <= to <= one_units() - tolerance()
    &&& forall|i: int|
        #![trigger zones[i]]
        #![trigger after[i]]
        0 <= i < zones.len() ==> follows(zones[i], after[i], axis, at, to)
}

/// A zone between two others that leave room between them and share a place across.
proof fn lemma_between(
    zones: Seq<ZoneRect>,
    after: Seq<ZoneRect>,
    axis: Axis,
    at: int,
    to: int,
    off: int,
    i: int,
    j: int,
    t: int,
) -> (b: int)
    requires
        is_moving(zones, after, axis, at, to, off),
        0 <= i < zones.len(),
        0 <= j < zones.len(),
        !separate_across(zones[i], zones[j], crossing(axis), 5 * off),
        0 <= t < one_units(),
        high(zones[i], axis).value() + off <= t < low(zones[j], axis).value() - off,
    ensures
        0 <= b < zones.len(),
        holds_across(zones[b], axis, t, off),
        separate_across(zones[i], zones[b], axis, off),
        separate_across(zones[j], zones[b], axis, off),
        follows(zones[b], after[b], axis, at, to),
{
    let z = zones[i];
    let c = zones[j];
    let across = crossing(axis);
    assert(follows(z, after[i], axis, at, to) && follows(c, after[j], axis, at, to));
    let u = 2 * off + if low(z, across).value() >= low(c, across).value() {
        low(z, across).value()
    } else {
        low(c, across).value()
    };
    assert(is_on_screen(z, off) && is_on_screen(c, off));
    lemma_on_screen_across(z, across, off);
    lemma_on_screen_across(c, across, off);
    let b = lemma_reached_across(zones, axis, t, u, off);
    assert(b != i && b != j);
    assert(separate(zones[i], zones[b], off));
    assert(separate(zones[j], zones[b], off));
    lemma_separate_along(z, zones[b], axis, u, off);
    lemma_separate_along(c, zones[b], axis, u, off);
    assert(zones[b] == zones[b]);
    b
}

/// A zone and one after it, once a boundary moved.
proof fn lemma_moved_beside(
    zones: Seq<ZoneRect>,
    after: Seq<ZoneRect>,
    axis: Axis,
    at: int,
    to: int,
    off: int,
    i: int,
    j: int,
)
    requires
        is_moving(zones, after, axis, at, to, off),
        0 <= i < zones.len(),
        0 <= j < zones.len(),
        i != j,
        beside(zones[i], zones[j], axis, off),
        !separate_across(zones[i], zones[j], crossing(axis), 5 * off),
    ensures
        beside(after[i], after[j], axis, 5 * off),
{
    let z = zones[i];
    let c = zones[j];
    let unit = tolerance();
    assert(follows(z, after[i], axis, at, to));
    assert(follows(c, after[j], axis, at, to));
    if follows_end(z, after[i], axis, at, to) && !follows_start(c, after[j], axis, at, to) {
        assert(stays(c, after[j], axis, at));
        let b = lemma_between(zones, after, axis, at, to, off, i, j, at + 4 * unit);
        assert(follows_start(zones[b], after[b], axis, at, to));
    } else if !follows_end(z, after[i], axis, at, to) && follows_start(c, after[j], axis, at, to) {
        assert(stays(z, after[i], axis, at));
        let b = lemma_between(zones, after, axis, at, to, off, i, j, at - 4 * unit);
        assert(follows_end(zones[b], after[b], axis, at, to));
    }
}

/// A place that a zone held is held by some zone, once a boundary moved.
proof fn lemma_moved_reached(
    zones: Seq<ZoneRect>,
    after: Seq<ZoneRect>,
    axis: Axis,
    at: int,
    to: int,
    off: int,
    t: int,
    u: int,
) -> (i: int)
    requires
        is_moving(zones, after, axis, at, to, off),
        0 <= t < one_units(),
        0 <= u < one_units(),
    ensures
        0 <= i < zones.len(),
        holds_across(after[i], axis, t, 5 * off),
        holds_across(after[i], crossing(axis), u, 5 * off),
{
    let across = crossing(axis);
    let unit = tolerance();
    let a = lemma_reached_across(zones, axis, t, u, off);
    let zone = zones[a];
    assert(follows(zone, after[a], axis, at, to));
    if holds_across(after[a], axis, t, 5 * off) {
        a
    } else {
        assert(is_on_screen(zone, off));
        lemma_on_screen_across(zone, across, off);
        let first = low(zone, across).value() + 3 * off;
        let last = high(zone, across).value() - 3 * off - 1;
        let v = if u < first {
            first
        } else if u > last {
            last
        } else {
            u
        };
        let s = if follows_end(zone, after[a], axis, at, to) {
            at + 4 * unit
        } else {
            at - 4 * unit
        };
        let b = lemma_reached_across(zones, axis, s, v, off);
        assert(follows(zones[b], after[b], axis, at, to));
        assert(b != a);
        assert(separate(zone, zones[b], off));
        lemma_separate_along(zone, zones[b], axis, v, off);
        if follows_end(zone, after[a], axis, at, to) {
            assert(follows_start(zones[b], after[b], axis, at, to));
        } else {
            assert(follows_start(zone, after[a], axis, at, to));
            assert(follows_end(zones[b], after[b], axis, at, to));
        }
        b
    }
}

/// Moving a boundary keeps a layout tiled: no gap opens and no zones come to
/// overlap, up to what they did before.
pub proof fn moving_keeps_the_layout_tiled(zones: Seq<ZoneRect>, divider: Divider, to: Binary64, off: int)
    requires
        all_valid(zones),
        is_tiled(zones, off),
        slack() <= off,
        8 * off <= tolerance(),
        is_well_inside(divider),
        forall|i: int| 0 <= i < zones.len() ==> is_sharp(#[trigger] zones[i], divider),
        !to.is_nan(),
        move_result(zones, divider, to) is Some,
    ensures
        is_tiled(move_result(zones, divider, to)->0, 5 * off),
{
    let axis = divider.axis;
    let at = divider.position.value();
    let p = pinned(to).value();
    let after = moved(zones, divider, to);
    lemma_magnitudes();
    dragged_boundaries_stay_on_screen(to);
    assert forall|i: int| #![trigger zones[i]] #![trigger after[i]] 0 <= i < zones.len() implies follows(
        zones[i],
        after[i],
        axis,
        at,
        p,
    ) by {
        assert(zones[i].is_valid() && is_sharp(zones[i], divider));
        assert(!is_sliver(after[i]));
        lemma_follows(zones[i], divider, to);
    }
    assert(is_moving(zones, after, axis, at, p, off));
    assert forall|i: int| 0 <= i < after.len() implies is_on_screen(#[trigger] after[i], 5 * off) by {
        assert(is_on_screen(zones[i], off));
        assert(follows(zones[i], after[i], axis, at, p));
    }
    assert forall|x: int, y: int| 0 <= x < one_units() && 0 <= y < one_units() implies #[trigger] is_reached(
        after,
        x,
        y,
        5 * off,
    ) by {
        let (t, u) = match axis {
            Axis::Vertical => (x, y),
            Axis::Horizontal => (y, x),
        };
        let i = lemma_moved_reached(zones, after, axis, at, p, off, t, u);
        assert(holds_point(after[i], x, y, 5 * off));
    }
    assert forall|i: int, j: int|
        #![trigger after[i], after[j]]
        0 <= i < after.len() && 0 <= j < after.len() && i != j implies separate(after[i], after[j], 5 * off) by {
        assert(separate(zones[i], zones[j], off));
        assert(follows(zones[i], after[i], axis, at, p));
        assert(follows(zones[j], after[j], axis, at, p));
        if !separate_across(zones[i], zones[j], crossing(axis), 5 * off) {
            if beside(zones[i], zones[j], axis, off) {
                lemma_moved_beside(zones, after, axis, at, p, off, i, j);
            } else {
                lemma_moved_beside(zones, after, axis, at, p, off, j, i);
            }
            assert(separate_across(after[i], after[j], axis, 5 * off));
        } else {
            assert(separate_across(after[i], after[j], crossing(axis), 5 * off));
        }
    }
}

/// A zone that is on the screen and no sliver is usable.
proof fn lemma_usable(zone: ZoneRect, off: int)
    requires
        zone.x.is_finite(),
        zone.y.is_finite(),
        zone.w.is_finite(),
        zone.h.is_finite(),
        zone.right().is_finite(),
        zone.bottom().is_finite(),
        !is_sliver(zone),
        is_on_screen(zone, off),
        2 * off <= tolerance(),
    ensures
        zone.is_valid(),
{
    lemma_magnitudes();
    lemma_min_fraction();
    lemma_negated(Binary64 { bits: EPSILON });
    lemma_small_plus(Binary64 { bits: ONE }, Binary64 { bits: EPSILON });
}

/// What a zone of usable numbers becomes has usable numbers.
proof fn lemma_moved_finite(zone: ZoneRect, divider: Divider, to: Binary64)
    requires
        zone.is_valid(),
        !to.is_nan(),
    ensures
        ({
            let after = moved_zone(zone, divider, pinned(to));
            &&& after.x.is_finite()
            &&& after.y.is_finite()
            &&& after.w.is_finite()
            &&& after.h.is_finite()
            &&& after.right().is_finite()
            &&& after.bottom().is_finite()
        }),
{
    lemma_magnitudes();
    lemma_valid_zone(zone);
    lemma_valid_across(zone, divider.axis);
    dragged_boundaries_stay_on_screen(to);
    lemma_reach(low(zone, divider.axis), pinned(to));
    lemma_reach(pinned(to), high(zone, divider.axis));
}

/// Moving a boundary of a tiled layout keeps every zone usable and the total area,
/// up to what the zones may overlap or leave between them.
pub proof fn moving_keeps_the_total_area(zones: Seq<ZoneRect>, divider: Divider, to: Binary64, off: int)
    requires
        all_valid(zones),
        is_tiled(zones, off),
        slack() <= off,
        10 * off <= tolerance(),
        is_well_inside(divider),
        forall|i: int| 0 <= i < zones.len() ==> is_sharp(#[trigger] zones[i], divider),
        !to.is_nan(),
        move_result(zones, divider, to) is Some,
    ensures
        all_valid(move_result(zones, divider, to)->0),
        apart(area_sum(move_result(zones, divider, to)->0), area_sum(zones)) <= (12 * zones.len() + 5) * (6 * off),
{
    lemma_magnitudes();
    let after = moved(zones, divider, to);
    moving_keeps_the_layout_tiled(zones, divider, to, off);
    assert forall|i: int| 0 <= i < after.len() implies (#[trigger] after[i]).is_valid() by {
        assert(zones[i].is_valid());
        assert(is_on_screen(after[i], 5 * off));
        assert(!is_sliver(after[i]));
        lemma_moved_finite(zones[i], divider, to);
        lemma_usable(after[i], 5 * off);
    }
    tiled_layouts_cover_the_whole_screen(zones, off);
    tiled_layouts_cover_the_whole_screen(after, 5 * off);
    let c = 12 * zones.len() + 5;
    assert(c * off + c * (5 * off) == c * (6 * off)) by (nonlinear_arith);
}

} // verus!
