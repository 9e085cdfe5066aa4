//! What a span is placed as: the smallest rectangle around the zones that it names,
//! however it names them.

use crate::binary64::{one_units, Binary64};
use crate::dividers::{extent, high, low, Axis};
use crate::layout::{ascending, bounding, fills, inside, swallowed};
use crate::precision::{apart, lemma_small_minus, lemma_small_plus, slack};
use crate::rect::{ZoneRect, EPSILON};
use crate::spans::extension;
use crate::stability::{
    carried, is_even, is_inner, lemma_carried_monotone, lemma_even_floor, lemma_even_lid, lemma_floor,
    lemma_floor_beyond, lemma_lid, lemma_lid_beyond,
};
use crate::tolerance::{lemma_magnitudes, lemma_reach, lemma_valid_zone, many, tolerance, within};
use vstd::prelude::*;

verus! {

/// How many zones begin before the screen does, at a place or after it.
pub open spec fn beyond(zones: Seq<ZoneRect>, axis: Axis, from: int) -> nat
    decreases zones.len(),
{
    if zones.len() == 0 {
        0
    } else {
        beyond(zones.drop_last(), axis, from) + if from <= low(zones.last(), axis).value() < 0 {
            1nat
        } else {
            0nat
        }
    }
}

/// How many zones begin before the screen does. Usable zones do so by no more than
/// the tolerance.
pub open spec fn outside(zones: Seq<ZoneRect>, axis: Axis) -> nat {
    beyond(zones, axis, -tolerance())
}

/// How far rounding may put an edge off, once so many near edges below zero have
/// come up.
pub open spec fn allowance(count: nat) -> int {
    (6 * (count + 1)) * slack()
}

/// How far a side of the rectangle around zones of a layout may be off: a few units
/// in the last place of one, however many zones are taken together and however often,
/// and as many again for each zone that begins before the screen does.
pub open spec fn drift(zones: Seq<ZoneRect>, axis: Axis) -> int {
    allowance(outside(zones, axis))
}

proof fn lemma_allowance(count: nat)
    ensures
        allowance(count + 1) == allowance(count) + 6 * slack(),
        allowance(count) >= 6 * slack(),
        count >= 1 ==> allowance(count) >= 12 * slack(),
        count <= many() ==> 8 * allowance(count) <= tolerance(),
        slack() > 0,
{
    lemma_magnitudes();
    let s = slack();
    assert((6 * (count + 2)) * s == (6 * (count + 1)) * s + 6 * s) by (nonlinear_arith);
    assert((6 * (count + 1)) * s >= 6 * s) by (nonlinear_arith)
        requires
            s > 0,
    ;
    if count >= 1 {
        assert((6 * (count + 1)) * s >= 12 * s) by (nonlinear_arith)
            requires
                s > 0,
                count >= 1,
        ;
    }
    if count <= many() {
        assert(8 * ((6 * (count + 1)) * s) <= (48 * many() + 64) * s) by (nonlinear_arith)
            requires
                s > 0,
                count <= many(),
        ;
    }
}

proof fn lemma_allowance_grows(a: nat, b: nat)
    requires
        a <= b,
    ensures
        allowance(a) <= allowance(b),
{
    lemma_magnitudes();
    let s = slack();
    assert((6 * (a + 1)) * s <= (6 * (b + 1)) * s) by (nonlinear_arith)
        requires
            a <= b,
            s > 0,
    ;
}

/// Further back there are no fewer zones.
proof fn lemma_beyond(zones: Seq<ZoneRect>, axis: Axis, back: int, from: int)
    requires
        back <= from,
    ensures
        beyond(zones, axis, from) <= beyond(zones, axis, back),
        from >= 0 ==> beyond(zones, axis, from) == 0,
    decreases zones.len(),
{
    if zones.len() > 0 {
        lemma_beyond(zones.drop_last(), axis, back, from);
    }
}

/// And one more where a zone begins.
proof fn lemma_beyond_more(zones: Seq<ZoneRect>, axis: Axis, i: int, from: int)
    requires
        0 <= i < zones.len(),
        low(zones[i], axis).value() < 0,
        low(zones[i], axis).value() < from,
    ensures
        beyond(zones, axis, low(zones[i], axis).value()) >= beyond(zones, axis, from) + 1,
    decreases zones.len(),
{
    let rest = zones.drop_last();
    let back = low(zones[i], axis).value();
    lemma_beyond(rest, axis, back, from);
    if i < rest.len() {
        assert(rest[i] == zones[i]);
        lemma_beyond_more(rest, axis, i, from);
    }
}

/// Whether a number bounds the far edge of any union that begins at a place, of
/// zones that end at `top` at the latest.
spec fn is_roof(zones: Seq<ZoneRect>, axis: Axis, from: Binary64, top: int, bound: Binary64) -> bool {
    &&& bound.is_finite()
    &&& top <= bound.value() <= top + allowance(beyond(zones, axis, from.value()))
    &&& from.value() >= 0 ==> is_even(bound)
    &&& from.value() < 0 ==> carried(from, bound).value() <= bound.value()
}

/// Whether a number bounds it from below, once one of them ends at `top`.
spec fn is_ground(zones: Seq<ZoneRect>, axis: Axis, from: Binary64, top: int, bound: Binary64) -> bool {
    &&& bound.is_finite()
    &&& top - allowance(beyond(zones, axis, from.value())) <= bound.value() <= top
    &&& from.value() >= 0 ==> is_inner(bound)
    &&& from.value() < 0 ==> carried(from, bound).value() >= bound.value()
}

/// What is known of the layout.
#[verifier::opaque]
spec fn is_sound(zones: Seq<ZoneRect>, axis: Axis) -> bool {
    &&& forall|i: int| 0 <= i < zones.len() ==> (#[trigger] zones[i]).is_valid()
    &&& outside(zones, axis) <= many()
}

/// What is known of a zone of it.
proof fn lemma_zone(zones: Seq<ZoneRect>, axis: Axis, i: int)
    requires
        is_sound(zones, axis),
        0 <= i < zones.len(),
    ensures
        within(low(zones[i], axis), extent(zones[i], axis)),
        high(zones[i], axis) == low(zones[i], axis).plus(extent(zones[i], axis)),
        0 <= high(zones[i], axis).value(),
        beyond(zones, axis, low(zones[i], axis).value()) <= outside(zones, axis),
        8 * allowance(beyond(zones, axis, low(zones[i], axis).value())) <= tolerance(),
        low(zones[i], axis).value() < 0 ==> beyond(zones, axis, low(zones[i], axis).value()) >= 1,
{
    reveal(is_sound);
    assert(zones[i].is_valid());
    lemma_valid_zone(zones[i]);
    lemma_magnitudes();
    let from = low(zones[i], axis).value();
    lemma_beyond(zones, axis, -tolerance(), from);
    lemma_allowance(beyond(zones, axis, from));
    if from < 0 {
        lemma_beyond_more(zones, axis, i, 0);
    }
    // The exact end is past zero, so the rounded one is not before it.
    crate::stability::lemma_not_before(low(zones[i], axis), extent(zones[i], axis));
}

/// A bound from above where a zone begins.
proof fn lemma_roof_start(zones: Seq<ZoneRect>, axis: Axis, i: int, top: int) -> (bound: Binary64)
    requires
        is_sound(zones, axis),
        0 <= i < zones.len(),
        0 <= top <= one_units() + 2 * tolerance(),
    ensures
        is_roof(zones, axis, low(zones[i], axis), top, bound),
{
    let from = low(zones[i], axis);
    lemma_zone(zones, axis, i);
    lemma_magnitudes();
    lemma_allowance(beyond(zones, axis, from.value()));
    let b = lemma_lid(top);
    if from.value() >= 0 {
        b
    } else {
        lemma_lid_beyond(from, b)
    }
}

/// A bound from above after a zone that begins earlier came up.
proof fn lemma_roof_next(
    zones: Seq<ZoneRect>,
    axis: Axis,
    from: Binary64,
    i: int,
    top: int,
    before: Binary64,
) -> (bound: Binary64)
    requires
        is_sound(zones, axis),
        0 <= i < zones.len(),
        low(zones[i], axis).value() < from.value(),
        0 <= top <= one_units() + 2 * tolerance(),
        is_roof(zones, axis, from, top, before),
    ensures
        is_roof(zones, axis, low(zones[i], axis), top, bound),
        before.value() <= bound.value(),
{
    let back = low(zones[i], axis);
    lemma_zone(zones, axis, i);
    lemma_magnitudes();
    if back.value() >= 0 {
        lemma_beyond(zones, axis, back.value(), back.value());
        lemma_beyond(zones, axis, back.value(), from.value());
        before
    } else {
        lemma_beyond_more(zones, axis, i, from.value());
        lemma_allowance(beyond(zones, axis, from.value()));
        lemma_allowance_grows(beyond(zones, axis, from.value()) + 1, beyond(zones, axis, back.value()));
        lemma_lid_beyond(back, before)
    }
}

/// Nothing below a bound is carried above it.
proof fn lemma_roof_holds(zones: Seq<ZoneRect>, axis: Axis, i: int, top: int, bound: Binary64, to: Binary64)
    requires
        is_sound(zones, axis),
        0 <= i < zones.len(),
        low(zones[i], axis).value() <= top,
        0 <= top <= one_units() + 2 * tolerance(),
        is_roof(zones, axis, low(zones[i], axis), top, bound),
        to.is_finite(),
        low(zones[i], axis).value() <= to.value() <= bound.value(),
    ensures
        carried(low(zones[i], axis), to).value() <= bound.value(),
{
    let from = low(zones[i], axis);
    lemma_zone(zones, axis, i);
    lemma_magnitudes();
    lemma_carried_monotone(from, to, bound);
    if from.value() >= 0 {
        lemma_even_lid(from, bound);
    }
}

/// A bound from below where a zone begins, for one that ends at `top`.
proof fn lemma_ground_start(zones: Seq<ZoneRect>, axis: Axis, i: int, end: Binary64) -> (bound: Binary64)
    requires
        is_sound(zones, axis),
        0 <= i < zones.len(),
        end.is_finite(),
        0 <= end.value() <= one_units() + 2 * tolerance(),
        2 * (end.value() - low(zones[i], axis).value()) >= tolerance(),
    ensures
        is_ground(zones, axis, low(zones[i], axis), end.value(), bound),
{
    let from = low(zones[i], axis);
    lemma_zone(zones, axis, i);
    lemma_magnitudes();
    lemma_allowance(beyond(zones, axis, from.value()));
    if from.value() >= 0 {
        lemma_floor(end.value())
    } else {
        lemma_floor_beyond(from, end)
    }
}

/// A bound from below after a zone that begins earlier came up.
proof fn lemma_ground_next(
    zones: Seq<ZoneRect>,
    axis: Axis,
    from: Binary64,
    i: int,
    top: int,
    before: Binary64,
) -> (bound: Binary64)
    requires
        is_sound(zones, axis),
        0 <= i < zones.len(),
        low(zones[i], axis).value() < from.value(),
        0 <= top <= one_units() + 2 * tolerance(),
        2 * (top - from.value()) >= tolerance(),
        is_ground(zones, axis, from, top, before),
    ensures
        is_ground(zones, axis, low(zones[i], axis), top, bound),
        bound.value() <= before.value(),
{
    let back = low(zones[i], axis);
    lemma_zone(zones, axis, i);
    lemma_magnitudes();
    if back.value() >= 0 {
        lemma_beyond(zones, axis, back.value(), back.value());
        lemma_beyond(zones, axis, back.value(), from.value());
        before
    } else {
        lemma_beyond_more(zones, axis, i, from.value());
        lemma_allowance(beyond(zones, axis, from.value()));
        lemma_allowance_grows(beyond(zones, axis, from.value()) + 1, beyond(zones, axis, back.value()));
        lemma_floor_beyond(back, before)
    }
}

/// Nothing above a bound is carried below it.
proof fn lemma_ground_holds(zones: Seq<ZoneRect>, axis: Axis, i: int, top: int, bound: Binary64, to: Binary64)
    requires
        is_sound(zones, axis),
        0 <= i < zones.len(),
        0 <= top <= one_units() + 2 * tolerance(),
        2 * (top - low(zones[i], axis).value()) >= tolerance(),
        is_ground(zones, axis, low(zones[i], axis), top, bound),
        to.is_finite(),
        bound.value() <= to.value() <= one_units() + 3 * tolerance(),
    ensures
        carried(low(zones[i], axis), to).value() >= bound.value(),
{
    let from = low(zones[i], axis);
    lemma_zone(zones, axis, i);
    lemma_magnitudes();
    lemma_carried_monotone(from, bound, to);
    if from.value() >= 0 {
        lemma_even_floor(from, bound);
    }
}

/// Whether zone `k` of a list of indices is there.
pub open spec fn names_zone(zones: Seq<ZoneRect>, indices: Seq<usize>, k: int) -> bool {
    0 <= k < indices.len() && indices[k] < zones.len()
}

/// Whether no zone that some indices name ends after a place.
spec fn all_end_by(zones: Seq<ZoneRect>, indices: Seq<usize>, axis: Axis, top: int) -> bool {
    forall|k: int| #[trigger]
        names_zone(zones, indices, k) ==> high(zones[indices[k] as int], axis).value() <= top
}

/// What a union of zones is, measured across an axis, when it begins where zone `i`
/// does and ends by a bound.
spec fn is_held(
    zones: Seq<ZoneRect>,
    axis: Axis,
    rect: ZoneRect,
    i: int,
    top: int,
    bound: Binary64,
) -> bool {
    &&& 0 <= i < zones.len()
    &&& low(rect, axis) == low(zones[i], axis)
    &&& extent(rect, axis).is_finite()
    &&& high(rect, axis) == low(rect, axis).plus(extent(rect, axis))
    &&& high(rect, axis).is_finite()
    &&& apart(high(rect, axis).value(), low(rect, axis).value() + extent(rect, axis).value()) <= slack()
    &&& is_roof(zones, axis, low(rect, axis), top, bound)
    &&& high(rect, axis).value() <= bound.value()
}

/// A union, measured across an axis.
proof fn lemma_union_shape(a: ZoneRect, b: ZoneRect, axis: Axis)
    ensures
        low(a.union(&b), axis) == low(a, axis).least(low(b, axis)),
        extent(a.union(&b), axis) == high(a, axis).greatest(high(b, axis)).minus(low(a.union(&b), axis)),
        high(a.union(&b), axis) == carried(low(a.union(&b), axis), high(a, axis).greatest(high(b, axis))),
        high(a.union(&b), axis) == low(a.union(&b), axis).plus(extent(a.union(&b), axis)),
{
}

/// Which of two zones begins first.
spec fn first_of(zones: Seq<ZoneRect>, axis: Axis, i: int, j: int) -> int {
    if low(zones[j], axis).value() < low(zones[i], axis).value() {
        j
    } else {
        i
    }
}

/// A bound from above where the first of two zones begins.
proof fn lemma_roof_of_two(
    zones: Seq<ZoneRect>,
    axis: Axis,
    i: int,
    j: int,
    top: int,
    before: Binary64,
) -> (bound: Binary64)
    requires
        is_sound(zones, axis),
        0 <= i < zones.len(),
        0 <= j < zones.len(),
        0 <= top <= one_units() + 2 * tolerance(),
        is_roof(zones, axis, low(zones[i], axis), top, before),
    ensures
        is_roof(zones, axis, low(zones[first_of(zones, axis, i, j)], axis), top, bound),
        before.value() <= bound.value(),
{
    if low(zones[j], axis).value() < low(zones[i], axis).value() {
        lemma_roof_next(zones, axis, low(zones[i], axis), j, top, before)
    } else {
        before
    }
}

/// An edge below a bound, told by its distance from where a zone begins.
proof fn lemma_carried_edge(zones: Seq<ZoneRect>, axis: Axis, i: int, top: int, bound: Binary64, to: Binary64)
    requires
        is_sound(zones, axis),
        0 <= i < zones.len(),
        low(zones[i], axis).value() <= top,
        0 <= top <= one_units() + 2 * tolerance(),
        is_roof(zones, axis, low(zones[i], axis), top, bound),
        to.is_finite(),
        low(zones[i], axis).value() <= to.value() <= bound.value(),
    ensures
        to.minus(low(zones[i], axis)).is_finite(),
        carried(low(zones[i], axis), to).is_finite(),
        apart(
            carried(low(zones[i], axis), to).value(),
            low(zones[i], axis).value() + to.minus(low(zones[i], axis)).value(),
        ) <= slack(),
        carried(low(zones[i], axis), to).value() <= bound.value(),
{
    let from = low(zones[i], axis);
    lemma_roof_holds(zones, axis, i, top, bound, to);
    lemma_zone(zones, axis, i);
    lemma_magnitudes();
    lemma_reach(from, to);
    lemma_small_plus(from, to.minus(from));
}

/// Taking in another zone.
proof fn lemma_held_union(
    zones: Seq<ZoneRect>,
    axis: Axis,
    rect: ZoneRect,
    i: int,
    top: int,
    before: Binary64,
    j: int,
) -> (bound: Binary64)
    requires
        is_sound(zones, axis),
        is_held(zones, axis, rect, i, top, before),
        0 <= j < zones.len(),
        low(zones[i], axis).value() <= top <= one_units() + 2 * tolerance(),
        0 <= high(zones[j], axis).value() <= top,
    ensures
        is_held(zones, axis, rect.union(&zones[j]), first_of(zones, axis, i, j), top, bound),
        low(rect.union(&zones[j]), axis).value() <= low(rect, axis).value(),
        low(rect.union(&zones[j]), axis).value() <= low(zones[j], axis).value(),
        high(rect.union(&zones[j]), axis) == carried(
            low(rect.union(&zones[j]), axis),
            high(rect, axis).greatest(high(zones[j], axis)),
        ),
{
    let owner = first_of(zones, axis, i, j);
    let to = high(rect, axis).greatest(high(zones[j], axis));
    let bound = lemma_roof_of_two(zones, axis, i, j, top, before);
    lemma_union_shape(rect, zones[j], axis);
    lemma_ends_after(zones, axis, j);
    assert(low(rect, axis).least(low(zones[j], axis)) == low(zones[owner], axis)) by {
        lemma_ends_after(zones, axis, i);
    }
    assert(to.is_finite() && high(zones[j], axis).value() <= to.value() <= bound.value());
    lemma_carried_edge(zones, axis, owner, top, bound, to);
    bound
}

/// A zone ends after it begins.
proof fn lemma_ends_after(zones: Seq<ZoneRect>, axis: Axis, i: int)
    requires
        is_sound(zones, axis),
        0 <= i < zones.len(),
    ensures
        low(zones[i], axis).is_finite(),
        high(zones[i], axis).is_finite(),
        low(zones[i], axis).value() < high(zones[i], axis).value(),
{
    lemma_zone(zones, axis, i);
    lemma_magnitudes();
}

/// Whether no zone that some indices name begins before a rectangle.
spec fn all_begin_after(zones: Seq<ZoneRect>, indices: Seq<usize>, axis: Axis, rect: ZoneRect) -> bool {
    forall|k: int| #[trigger]
        names_zone(zones, indices, k) ==> low(rect, axis).value() <= low(zones[indices[k] as int], axis).value()
}

/// What holds of a list of indices holds without the last of them.
proof fn lemma_rest_ends_by(zones: Seq<ZoneRect>, indices: Seq<usize>, axis: Axis, top: int)
    requires
        indices.len() > 0,
        all_end_by(zones, indices, axis, top),
    ensures
        all_end_by(zones, indices.drop_last(), axis, top),
{
    let rest = indices.drop_last();
    assert forall|k: int| #[trigger] names_zone(zones, rest, k) implies high(zones[rest[k] as int], axis).value()
        <= top by {
        assert(names_zone(zones, indices, k) && indices[k] == rest[k]);
    }
}

/// A rectangle that begins no later than another one begins before what that one
/// does, and before what it takes in.
proof fn lemma_begins_before(zones: Seq<ZoneRect>, indices: Seq<usize>, axis: Axis, inner: ZoneRect, rect: ZoneRect)
    requires
        indices.len() > 0,
        all_begin_after(zones, indices.drop_last(), axis, inner),
        low(rect, axis).value() <= low(inner, axis).value(),
        indices.last() < zones.len() ==> low(rect, axis).value() <= low(zones[indices.last() as int], axis).value(),
    ensures
        all_begin_after(zones, indices, axis, rect),
{
    let rest = indices.drop_last();
    assert forall|k: int| #[trigger] names_zone(zones, indices, k) implies low(rect, axis).value() <= low(
        zones[indices[k] as int],
        axis,
    ).value() by {
        if k < rest.len() {
            assert(names_zone(zones, rest, k) && indices[k] == rest[k]);
        }
    }
}

/// The rectangle around some zones begins where the first of them does, and a bound
/// holds it.
proof fn lemma_held(zones: Seq<ZoneRect>, indices: Seq<usize>, axis: Axis, top: int) -> (r: (int, Binary64))
    requires
        is_sound(zones, axis),
        all_end_by(zones, indices, axis, top),
        top <= one_units() + 2 * tolerance(),
        bounding(zones, indices) is Some,
    ensures
        names_zone(zones, indices, r.0),
        is_held(zones, axis, bounding(zones, indices)->0, indices[r.0] as int, top, r.1),
        all_begin_after(zones, indices, axis, bounding(zones, indices)->0),
    decreases indices.len(),
{
    let rest = indices.drop_last();
    let n = rest.len() as int;
    let last = indices.last();
    lemma_rest_ends_by(zones, indices, axis, top);
    let rect = bounding(zones, indices)->0;
    if bounding(zones, rest) is None {
        assert(names_zone(zones, indices, n) && indices[n] == last);
        lemma_zone(zones, axis, last as int);
        assert(rect == zones[last as int]);
        assert(all_begin_after(zones, indices, axis, rect)) by {
            assert forall|k: int| #[trigger] names_zone(zones, indices, k) implies k == n by {
                if k < n {
                    lemma_nothing_named(zones, rest, k);
                    assert(names_zone(zones, rest, k));
                }
            }
        }
        let bound = lemma_roof_start(zones, axis, last as int, top);
        (n, bound)
    } else {
        let (p, before) = lemma_held(zones, rest, axis, top);
        let inner = bounding(zones, rest)->0;
        assert(names_zone(zones, indices, p) && indices[p] == rest[p]);
        let i = indices[p] as int;
        if last < zones.len() {
            assert(names_zone(zones, indices, n) && indices[n] == last);
            lemma_zone(zones, axis, last as int);
            assert(low(zones[i], axis).value() <= top) by {
                lemma_zone(zones, axis, i);
                lemma_magnitudes();
                assert(high(zones[i], axis).value() <= top);
            }
            let bound = lemma_held_union(zones, axis, inner, i, top, before, last as int);
            assert(rect == inner.union(&zones[last as int]));
            lemma_begins_before(zones, indices, axis, inner, rect);
            if low(zones[last as int], axis).value() < low(inner, axis).value() {
                (n, bound)
            } else {
                (p, bound)
            }
        } else {
            assert(rect == inner);
            lemma_begins_before(zones, indices, axis, inner, rect);
            (p, before)
        }
    }
}

/// Where there is no rectangle, no index names a zone.
proof fn lemma_nothing_named(zones: Seq<ZoneRect>, indices: Seq<usize>, k: int)
    requires
        0 <= k < indices.len(),
        bounding(zones, indices) is None,
    ensures
        !names_zone(zones, indices, k),
    decreases indices.len(),
{
    if k < indices.len() - 1 {
        lemma_nothing_named(zones, indices.drop_last(), k);
    }
}

/// Where there is one, some index does.
proof fn lemma_something_named(zones: Seq<ZoneRect>, indices: Seq<usize>) -> (k: int)
    requires
        bounding(zones, indices) is Some,
    ensures
        names_zone(zones, indices, k),
    decreases indices.len(),
{
    if indices.last() < zones.len() {
        indices.len() - 1
    } else {
        lemma_something_named(zones, indices.drop_last())
    }
}

/// One of the named zones that none ends after.
proof fn lemma_last_end(zones: Seq<ZoneRect>, indices: Seq<usize>, axis: Axis) -> (m: int)
    requires
        bounding(zones, indices) is Some,
    ensures
        names_zone(zones, indices, m),
        all_end_by(zones, indices, axis, high(zones[indices[m] as int], axis).value()),
    decreases indices.len(),
{
    let rest = indices.drop_last();
    let n = rest.len() as int;
    let last = indices.last();
    if bounding(zones, rest) is None {
        assert forall|k: int| #[trigger] names_zone(zones, indices, k) implies k == n by {
            if k < n {
                lemma_nothing_named(zones, rest, k);
            }
        }
        assert(names_zone(zones, indices, n));
        n
    } else {
        let m = lemma_last_end(zones, rest, axis);
        assert(names_zone(zones, indices, m) && indices[m] == rest[m]);
        let best = if last < zones.len() && high(zones[last as int], axis).value() > high(
            zones[rest[m] as int],
            axis,
        ).value() {
            n
        } else {
            m
        };
        assert forall|k: int| #[trigger] names_zone(zones, indices, k) implies high(
            zones[indices[k] as int],
            axis,
        ).value() <= high(zones[indices[best] as int], axis).value() by {
            if k < n {
                assert(names_zone(zones, rest, k) && indices[k] == rest[k]);
            }
        }
        assert(names_zone(zones, indices, best));
        best
    }
}

/// The rectangle around some zones ends no earlier than a bound for the one of them
/// that ends last.
proof fn lemma_grounded(zones: Seq<ZoneRect>, indices: Seq<usize>, axis: Axis, m: int) -> (bound: Binary64)
    requires
        is_sound(zones, axis),
        names_zone(zones, indices, m),
        all_end_by(zones, indices, axis, high(zones[indices[m] as int], axis).value()),
        bounding(zones, indices) is Some,
    ensures
        ({
            let rect = bounding(zones, indices)->0;
            &&& is_ground(zones, axis, low(rect, axis), high(zones[indices[m] as int], axis).value(), bound)
            &&& bound.value() <= high(rect, axis).value()
        }),
    decreases indices.len(),
{
    let rest = indices.drop_last();
    let n = rest.len() as int;
    let last = indices.last();
    let rect = bounding(zones, indices)->0;
    let end = high(zones[indices[m] as int], axis);
    let top = end.value();
    lemma_zone(zones, axis, indices[m] as int);
    lemma_magnitudes();
    let (p, roof) = lemma_held(zones, indices, axis, top);
    let i = indices[p] as int;
    lemma_zone(zones, axis, i);
    assert(low(rect, axis).value() <= low(zones[indices[m] as int], axis).value());
    if bounding(zones, rest) is None {
        assert(m == n) by {
            if m < n {
                lemma_nothing_named(zones, rest, m);
                assert(names_zone(zones, rest, m));
            }
        }
        assert(rect == zones[last as int]);
        let bound = lemma_ground_start(zones, axis, last as int, end);
        bound
    } else {
        let inner = bounding(zones, rest)->0;
        lemma_rest_ends_by(zones, indices, axis, top);
        let (q, lid) = lemma_held(zones, rest, axis, top);
        let j = rest[q] as int;
        assert(names_zone(zones, indices, q) && indices[q] == rest[q]);
        lemma_zone(zones, axis, j);
        if last >= zones.len() {
            assert(m < n);
            assert(rect == inner);
            assert(names_zone(zones, rest, m) && indices[m] == rest[m]);
            lemma_grounded(zones, rest, axis, m)
        } else {
            assert(names_zone(zones, indices, n) && indices[n] == last);
            lemma_zone(zones, axis, last as int);
            let _ = lemma_held_union(zones, axis, inner, j, top, lid, last as int);
            assert(rect == inner.union(&zones[last as int]));
            let to = high(inner, axis).greatest(high(zones[last as int], axis));
            let x = low(inner, axis);
            let bound = if m == n {
                lemma_ground_start(zones, axis, i, end)
            } else {
                assert(names_zone(zones, rest, m) && indices[m] == rest[m]);
                let before = lemma_grounded(zones, rest, axis, m);
                if low(zones[last as int], axis).value() < x.value() {
                    assert(low(rect, axis) == low(zones[last as int], axis));
                    assert(x.value() <= low(zones[rest[m] as int], axis).value());
                    lemma_ground_next(zones, axis, x, last as int, top, before)
                } else {
                    assert(low(rect, axis) == x);
                    before
                }
            };
            lemma_ground_holds(zones, axis, i, top, bound, to);
            bound
        }
    }
}

/// Whether a rectangle contains every zone that some indices name, measured across
/// an axis.
pub open spec fn covers_all(zones: Seq<ZoneRect>, indices: Seq<usize>, rect: ZoneRect, axis: Axis) -> bool {
    forall|k: int| #[trigger]
        names_zone(zones, indices, k) ==> low(rect, axis).value() <= low(zones[indices[k] as int], axis).value()
            && high(zones[indices[k] as int], axis).value() <= high(rect, axis).value() + drift(zones, axis)
}

/// Whether a rectangle is the smallest one around some zones, measured across an
/// axis: it begins exactly where one of them begins and ends, up to what rounding
/// loses, where one of them ends; none of them begins earlier or ends later.
pub open spec fn is_tight(zones: Seq<ZoneRect>, indices: Seq<usize>, rect: ZoneRect, axis: Axis) -> bool {
    &&& exists|p: int| #[trigger]
        names_zone(zones, indices, p) && low(rect, axis) == low(zones[indices[p] as int], axis)
    &&& exists|q: int| #[trigger]
        names_zone(zones, indices, q) && apart(
            high(rect, axis).value(),
            high(zones[indices[q] as int], axis).value(),
        ) <= drift(zones, axis)
    &&& covers_all(zones, indices, rect, axis)
    &&& low(rect, axis).is_finite()
    &&& extent(rect, axis).is_finite()
    &&& high(rect, axis).is_finite()
    &&& apart(high(rect, axis).value(), low(rect, axis).value() + extent(rect, axis).value()) <= slack()
}

proof fn lemma_tight(zones: Seq<ZoneRect>, indices: Seq<usize>, axis: Axis)
    requires
        is_sound(zones, axis),
        bounding(zones, indices) is Some,
    ensures
        is_tight(zones, indices, bounding(zones, indices)->0, axis),
{
    let rect = bounding(zones, indices)->0;
    let m = lemma_last_end(zones, indices, axis);
    let top = high(zones[indices[m] as int], axis).value();
    lemma_zone(zones, axis, indices[m] as int);
    lemma_magnitudes();
    let (p, roof) = lemma_held(zones, indices, axis, top);
    let ground = lemma_grounded(zones, indices, axis, m);
    lemma_zone(zones, axis, indices[p] as int);
    lemma_allowance_grows(beyond(zones, axis, low(rect, axis).value()), outside(zones, axis));
    assert(apart(high(rect, axis).value(), top) <= drift(zones, axis));
    assert(covers_all(zones, indices, rect, axis)) by {
        assert forall|k: int| #[trigger] names_zone(zones, indices, k) implies low(rect, axis).value() <= low(
            zones[indices[k] as int],
            axis,
        ).value() && high(zones[indices[k] as int], axis).value() <= high(rect, axis).value() + drift(
            zones,
            axis,
        ) by {}
    }
}

/// Whether no more zones begin before the screen does than what rounding loses over
/// them stays below the tolerance.
pub open spec fn few_outside(zones: Seq<ZoneRect>) -> bool {
    outside(zones, Axis::Vertical) <= many() && outside(zones, Axis::Horizontal) <= many()
}

/// A span is placed if and only if one of its indices names a zone, and it is placed
/// as the smallest rectangle around the zones that it names, however many indices it
/// has: each of its sides is a side of one of them, up to what rounding loses, and
/// none of them reaches beyond it.
pub proof fn a_span_is_the_smallest_container(zones: Seq<ZoneRect>, indices: Seq<usize>)
    requires
        forall|i: int| 0 <= i < zones.len() ==> (#[trigger] zones[i]).is_valid(),
        few_outside(zones),
    ensures
        bounding(zones, indices) is Some <==> exists|k: int| names_zone(zones, indices, k),
        bounding(zones, indices) matches Some(rect) ==> is_tight(zones, indices, rect, Axis::Vertical) && is_tight(
            zones,
            indices,
            rect,
            Axis::Horizontal,
        ),
{
    if bounding(zones, indices) is Some {
        let k = lemma_something_named(zones, indices);
        assert(names_zone(zones, indices, k));
        reveal(is_sound);
        lemma_tight(zones, indices, Axis::Vertical);
        lemma_tight(zones, indices, Axis::Horizontal);
    } else {
        assert forall|k: int| !names_zone(zones, indices, k) by {
            if 0 <= k < indices.len() {
                lemma_nothing_named(zones, indices, k);
            }
        }
    }
}

/// The zones whose sides a tight rectangle has.
proof fn lemma_witnesses(zones: Seq<ZoneRect>, indices: Seq<usize>, rect: ZoneRect, axis: Axis) -> (r: (int, int))
    requires
        is_tight(zones, indices, rect, axis),
    ensures
        names_zone(zones, indices, r.0),
        names_zone(zones, indices, r.1),
        low(rect, axis) == low(zones[indices[r.0] as int], axis),
        apart(high(rect, axis).value(), high(zones[indices[r.1] as int], axis).value()) <= drift(zones, axis),
{
    let p = choose|p: int| #[trigger]
        names_zone(zones, indices, p) && low(rect, axis) == low(zones[indices[p] as int], axis);
    let q = choose|q: int| #[trigger]
        names_zone(zones, indices, q) && apart(high(rect, axis).value(), high(zones[indices[q] as int], axis).value())
            <= drift(zones, axis);
    (p, q)
}

/// One axis of two rectangles around the same zones.
proof fn lemma_same_sides(
    zones: Seq<ZoneRect>,
    indices: Seq<usize>,
    others: Seq<usize>,
    a: ZoneRect,
    b: ZoneRect,
    axis: Axis,
)
    requires
        is_tight(zones, indices, a, axis),
        is_tight(zones, others, b, axis),
        forall|i: usize| i < zones.len() ==> (#[trigger] indices.contains(i) <==> others.contains(i)),
    ensures
        low(a, axis).value() == low(b, axis).value(),
        apart(high(a, axis).value(), high(b, axis).value()) <= 2 * drift(zones, axis),
        apart(extent(a, axis).value(), extent(b, axis).value()) <= 2 * drift(zones, axis) + 2 * slack(),
{
    let (p, q) = lemma_witnesses(zones, indices, a, axis);
    let (r, t) = lemma_witnesses(zones, others, b, axis);
    assert(indices.contains(indices[p]) && indices.contains(indices[q]));
    assert(others.contains(others[r]) && others.contains(others[t]));
    assert(others.contains(indices[p]) && others.contains(indices[q]));
    assert(indices.contains(others[r]) && indices.contains(others[t]));
    let p2 = choose|k: int| 0 <= k < others.len() && others[k] == indices[p];
    let q2 = choose|k: int| 0 <= k < others.len() && others[k] == indices[q];
    let r2 = choose|k: int| 0 <= k < indices.len() && indices[k] == others[r];
    let t2 = choose|k: int| 0 <= k < indices.len() && indices[k] == others[t];
    assert(names_zone(zones, others, p2) && names_zone(zones, others, q2));
    assert(names_zone(zones, indices, r2) && names_zone(zones, indices, t2));
}

/// What a span is placed as depends on nothing but the zones that it names: the
/// order of its indices, repeated ones and ones that name no zone make no difference
/// but for what rounding loses, however many there are.
pub proof fn a_span_is_told_by_its_zones(zones: Seq<ZoneRect>, indices: Seq<usize>, others: Seq<usize>)
    requires
        forall|i: int| 0 <= i < zones.len() ==> (#[trigger] zones[i]).is_valid(),
        few_outside(zones),
        forall|i: usize| i < zones.len() ==> (#[trigger] indices.contains(i) <==> others.contains(i)),
    ensures
        bounding(zones, indices) is Some <==> bounding(zones, others) is Some,
        bounding(zones, indices) matches Some(a) ==> {
            let b = bounding(zones, others)->0;
            &&& a.x.value() == b.x.value()
            &&& a.y.value() == b.y.value()
            &&& apart(a.w.value(), b.w.value()) <= 2 * drift(zones, Axis::Vertical) + 2 * slack()
            &&& apart(a.h.value(), b.h.value()) <= 2 * drift(zones, Axis::Horizontal) + 2 * slack()
        },
{
    a_span_is_the_smallest_container(zones, indices);
    a_span_is_the_smallest_container(zones, others);
    if bounding(zones, indices) is Some {
        let k = choose|k: int| names_zone(zones, indices, k);
        assert(indices.contains(indices[k]));
        let l = choose|l: int| 0 <= l < others.len() && others[l] == indices[k];
        assert(names_zone(zones, others, l));
        let a = bounding(zones, indices)->0;
        let b = bounding(zones, others)->0;
        lemma_same_sides(zones, indices, others, a, b, Axis::Vertical);
        lemma_same_sides(zones, indices, others, a, b, Axis::Horizontal);
    }
    if bounding(zones, others) is Some {
        let k = choose|k: int| names_zone(zones, others, k);
        assert(others.contains(others[k]));
        assert(indices.contains(others[k]));
        let l = choose|l: int| 0 <= l < indices.len() && indices[l] == others[k];
        assert(names_zone(zones, indices, l));
    }
}

/// On a layout none of whose zones begins before the screen does, what a span is
/// placed as is off by a few units in the last place of one at most, whatever its
/// indices are.
pub proof fn on_the_screen_spans_hardly_drift(zones: Seq<ZoneRect>, axis: Axis)
    requires
        forall|i: int| 0 <= i < zones.len() ==> low(#[trigger] zones[i], axis).value() >= 0,
    ensures
        drift(zones, axis) == 6 * slack(),
{
    lemma_none_outside(zones, axis);
}

proof fn lemma_none_outside(zones: Seq<ZoneRect>, axis: Axis)
    requires
        forall|i: int| 0 <= i < zones.len() ==> low(#[trigger] zones[i], axis).value() >= 0,
    ensures
        outside(zones, axis) == 0,
    decreases zones.len(),
{
    if zones.len() > 0 {
        let rest = zones.drop_last();
        assert forall|i: int| 0 <= i < rest.len() implies low(#[trigger] rest[i], axis).value() >= 0 by {
            assert(rest[i] == zones[i]);
        }
        lemma_none_outside(rest, axis);
        assert(low(zones[zones.len() - 1], axis).value() >= 0);
    }
}

/// One axis of a rectangle that covers a zone includes it, up to the tolerance.
proof fn lemma_covered_is_inside(
    zones: Seq<ZoneRect>,
    indices: Seq<usize>,
    rect: ZoneRect,
    axis: Axis,
    k: int,
)
    requires
        is_sound(zones, axis),
        is_tight(zones, indices, rect, axis),
        high(rect, axis) == low(rect, axis).plus(extent(rect, axis)),
        names_zone(zones, indices, k),
    ensures
        low(rect, axis).minus(Binary64 { bits: EPSILON }).at_most(low(zones[indices[k] as int], axis)),
        high(zones[indices[k] as int], axis).at_most(high(rect, axis).plus(Binary64 { bits: EPSILON })),
{
    reveal(is_sound);
    lemma_magnitudes();
    lemma_allowance(outside(zones, axis));
    let (p, q) = lemma_witnesses(zones, indices, rect, axis);
    lemma_zone(zones, axis, indices[p] as int);
    lemma_zone(zones, axis, indices[q] as int);
    lemma_zone(zones, axis, indices[k] as int);
    let eps = Binary64 { bits: EPSILON };
    lemma_small_minus(low(rect, axis), eps);
    lemma_small_plus(high(rect, axis), eps);
}

/// A span covers the zones that it names: each of them lies in the rectangle that
/// the span is placed as.
pub proof fn a_span_covers_its_zones(zones: Seq<ZoneRect>, indices: Seq<usize>, k: int)
    requires
        forall|i: int| 0 <= i < zones.len() ==> (#[trigger] zones[i]).is_valid(),
        few_outside(zones),
        names_zone(zones, indices, k),
    ensures
        bounding(zones, indices) matches Some(rect) && inside(zones[indices[k] as int], rect),
{
    a_span_is_the_smallest_container(zones, indices);
    let rect = bounding(zones, indices)->0;
    reveal(is_sound);
    lemma_covered_is_inside(zones, indices, rect, Axis::Vertical, k);
    lemma_covered_is_inside(zones, indices, rect, Axis::Horizontal, k);
}

/// [`swallowed`] lists the zones that lie in a rectangle, ascending.
pub proof fn lemma_swallowed(zones: Seq<ZoneRect>, n: nat, rect: ZoneRect)
    requires
        n <= zones.len() <= usize::MAX,
    ensures
        ascending(swallowed(zones, n, rect)),
        forall|i: usize|
            #[trigger] swallowed(zones, n, rect).contains(i) <==> i < n && inside(zones[i as int], rect),
    decreases n,
{
    if n > 0 {
        let m = (n - 1) as nat;
        lemma_swallowed(zones, m, rect);
        let before = swallowed(zones, m, rect);
        let after = swallowed(zones, n, rect);
        assert forall|i: int, j: int| #![trigger after[i], after[j]] 0 <= i < j < after.len() implies after[i]
            < after[j] by {
            if j == before.len() {
                assert(before.contains(before[i]));
            }
        }
        assert forall|i: usize| #[trigger] after.contains(i) <==> i < n && inside(zones[i as int], rect) by {
            if after.contains(i) {
                let p = choose|p: int| 0 <= p < after.len() && after[p] == i;
                if p < before.len() {
                    assert(before.contains(before[p]));
                }
            }
            if i < n && inside(zones[i as int], rect) {
                if i < m {
                    assert(before.contains(i));
                    let p = choose|p: int| 0 <= p < before.len() && before[p] == i;
                    assert(after[p] == i);
                } else {
                    assert(after[before.len() as int] == i);
                }
            }
        }
    }
}

/// Growing a span never gives up a zone that it covered: the wider span names every
/// zone of the span and the one that was taken in, and fills its rectangle.
pub proof fn growing_keeps_every_zone(zones: Seq<ZoneRect>, span: Seq<usize>, i: usize, j: usize)
    requires
        forall|k: int| 0 <= k < zones.len() ==> (#[trigger] zones[k]).is_valid(),
        zones.len() <= usize::MAX,
        few_outside(zones),
        extension(zones, span, i) is Some,
        i < zones.len(),
        j == i || (span.contains(j) && j < zones.len()),
    ensures
        extension(zones, span, i)->0.contains(j),
        fills(zones, extension(zones, span, i)->0),
        extension(zones, span, i)->0.len() > span.len(),
{
    reveal(extension);
    let taken = span.push(i);
    let rect = bounding(zones, taken)->0;
    lemma_swallowed(zones, zones.len(), rect);
    let k = if j == i {
        span.len() as int
    } else {
        choose|k: int| 0 <= k < span.len() && span[k] == j
    };
    assert(taken[k] == j);
    assert(names_zone(zones, taken, k));
    a_span_covers_its_zones(zones, taken, k);
}

} // verus!
