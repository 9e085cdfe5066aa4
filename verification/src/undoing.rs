//! Edits of a whole layout that undo one another: moving a boundary back, and
//! merging what was split.

use crate::binary64::{lemma_signed, one_units, Binary64};
use crate::dividers::{
    begins_at, close, continues, ends_at, extent, halves, high, lemma_partner, low, merge_result, merging, move_result,
    moved, moved_zone, partner, pinned, remaining, split_result, Axis, Divider, Merging, MIN_FRACTION,
};
use crate::precision::{apart, lemma_small_minus, slack};
use crate::rect::ZoneRect;
use crate::tiling::{
    dragged_boundaries_stay_on_screen, lemma_close, lemma_difference_sign, lemma_min_fraction, lemma_split_place,
    merging_undoes_splitting,
};
use crate::tolerance::{lemma_magnitudes, lemma_reach, lemma_valid_zone, tolerance, within};
use vstd::prelude::*;

verus! {

/// Places that differ by more than the tolerance are not the same boundary.
pub proof fn lemma_not_close(a: Binary64, b: Binary64)
    requires
        a.is_finite(),
        b.is_finite(),
        tolerance() + slack() <= apart(a.value(), b.value()) <= 2 * one_units(),
    ensures
        !close(a, b),
{
    reveal(close);
    lemma_magnitudes();
    lemma_small_minus(a, b);
    let d = a.minus(b);
    lemma_signed(false, d.code());
    assert(d.absolute().value() == apart(d.value(), 0));
}

/// Places that are the same boundary differ by hardly more than the tolerance.
pub proof fn lemma_close_apart(a: Binary64, b: Binary64)
    requires
        a.is_finite(),
        b.is_finite(),
        apart(a.value(), b.value()) <= 2 * one_units(),
        close(a, b),
    ensures
        apart(a.value(), b.value()) < tolerance() + slack(),
{
    if apart(a.value(), b.value()) >= tolerance() + slack() {
        lemma_not_close(a, b);
    }
}

/// What validity says of a zone, measured across an axis.
pub proof fn lemma_valid_across(zone: ZoneRect, axis: Axis)
    requires
        zone.is_valid(),
    ensures
        within(low(zone, axis), extent(zone, axis)),
        high(zone, axis) == low(zone, axis).plus(extent(zone, axis)),
{
    lemma_valid_zone(zone);
}

/// Whether two zones are the same up to a distance.
pub open spec fn nearly(a: ZoneRect, b: ZoneRect, off: int) -> bool {
    &&& apart(a.x.value(), b.x.value()) <= off
    &&& apart(a.y.value(), b.y.value()) <= off
    &&& apart(a.w.value(), b.w.value()) <= off
    &&& apart(a.h.value(), b.h.value()) <= off
}

/// Whether a zone is wide and high enough that moving one of its edges within the
/// tolerance leaves no sliver.
pub open spec fn is_ample(zone: ZoneRect) -> bool {
    let least = (Binary64 { bits: MIN_FRACTION }).value() + 2 * tolerance();
    zone.w.value() >= least && zone.h.value() >= least
}

/// Whether no edge of a zone is anywhere near a boundary.
pub open spec fn is_clear_of(zone: ZoneRect, divider: Divider) -> bool {
    &&& apart(low(zone, divider.axis).value(), divider.position.value()) >= 2 * tolerance()
    &&& apart(high(zone, divider.axis).value(), divider.position.value()) >= 2 * tolerance()
}

/// A zone that is clear of a boundary neither ends nor begins there.
proof fn lemma_clear(zone: ZoneRect, divider: Divider)
    requires
        zone.is_valid(),
        divider.position.is_finite(),
        0 <= divider.position.value() <= one_units(),
        is_clear_of(zone, divider),
    ensures
        !ends_at(zone, divider),
        !begins_at(zone, divider),
{
    lemma_magnitudes();
    lemma_valid_across(zone, divider.axis);
    lemma_not_close(low(zone, divider.axis), divider.position);
    lemma_not_close(high(zone, divider.axis), divider.position);
}

/// A zone after a boundary was moved away and back.
proof fn lemma_moved_back(zone: ZoneRect, divider: Divider, to: Binary64)
    requires
        zone.is_valid(),
        is_ample(zone),
        !to.is_nan(),
        !divider.position.is_nan(),
        pinned(to) == to,
        pinned(divider.position) == divider.position,
        is_clear_of(zone, Divider { axis: divider.axis, position: to }),
    ensures
        ({
            let there = Divider { axis: divider.axis, position: to };
            let back = moved_zone(moved_zone(zone, divider, to), there, divider.position);
            &&& nearly(back, zone, tolerance() + 8 * slack())
            &&& back.w.is_finite() && back.w.value() >= (Binary64 { bits: MIN_FRACTION }).value()
            &&& back.h.is_finite() && back.h.value() >= (Binary64 { bits: MIN_FRACTION }).value()
        }),
{
    let axis = divider.axis;
    let there = Divider { axis, position: to };
    lemma_magnitudes();
    lemma_valid_across(zone, axis);
    lemma_valid_zone(zone);
    dragged_boundaries_stay_on_screen(to);
    dragged_boundaries_stay_on_screen(divider.position);
    lemma_clear(zone, there);
    let after = moved_zone(zone, divider, to);
    let from = low(zone, axis);
    let end = high(zone, axis);
    let at = divider.position;
    if ends_at(zone, divider) {
        lemma_close_apart(end, at);
        lemma_reach(from, to);
        assert(high(after, axis) == from.plus(to.minus(from)));
        lemma_close(high(after, axis), to);
        assert(ends_at(after, there));
        let back = moved_zone(after, there, at);
        lemma_reach(from, at);
        assert(extent(back, axis) == at.minus(from));
    } else if begins_at(zone, divider) {
        lemma_close_apart(from, at);
        lemma_reach(to, end);
        assert(high(after, axis) == to.plus(end.minus(to)));
        lemma_not_close(high(after, axis), to);
        lemma_close(to, to);
        assert(begins_at(after, there) && !ends_at(after, there));
        let back = moved_zone(after, there, at);
        lemma_reach(at, high(after, axis));
        assert(extent(back, axis) == high(after, axis).minus(at));
    }
}

/// Moving a boundary back to where it was restores the layout: every zone is as it
/// was, up to the tolerance within which its edge was at the boundary and what
/// rounding loses.
pub proof fn moving_back_restores_the_layout(zones: Seq<ZoneRect>, divider: Divider, to: Binary64)
    requires
        forall|i: int| 0 <= i < zones.len() ==> (#[trigger] zones[i]).is_valid() && is_ample(zones[i]),
        !to.is_nan(),
        !divider.position.is_nan(),
        pinned(to) == to,
        pinned(divider.position) == divider.position,
        forall|i: int|
            0 <= i < zones.len() ==> is_clear_of(
                #[trigger] zones[i],
                Divider { axis: divider.axis, position: to },
            ),
        move_result(zones, divider, to) is Some,
    ensures
        move_result(
            move_result(zones, divider, to)->0,
            Divider { axis: divider.axis, position: to },
            divider.position,
        ) matches Some(back) && back.len() == zones.len() && forall|i: int|
            0 <= i < zones.len() ==> nearly(#[trigger] back[i], zones[i], tolerance() + 8 * slack()),
{
    let there = Divider { axis: divider.axis, position: to };
    let after = moved(zones, divider, to);
    let back = moved(after, there, divider.position);
    assert forall|i: int| 0 <= i < zones.len() implies !crate::dividers::is_sliver(#[trigger] back[i]) && nearly(
        back[i],
        zones[i],
        tolerance() + 8 * slack(),
    ) by {
        assert(zones[i].is_valid());
        lemma_moved_back(zones[i], divider, to);
        assert(after[i] == moved_zone(zones[i], divider, to));
    }
    assert(back.len() == zones.len());
}

// ---------------------------------------------------------------------------
// Splitting and merging
// ---------------------------------------------------------------------------

/// What becomes of the zones when exactly one of them has a partner across a
/// boundary, and that is its successor.
proof fn lemma_one_pair(zones: Seq<ZoneRect>, divider: Divider, index: int, n: nat)
    requires
        0 <= index,
        index + 1 < zones.len(),
        n <= zones.len(),
        ends_at(zones[index], divider),
        continues(zones[index], zones[index + 1], divider),
        forall|i: int| 0 <= i < zones.len() && i != index ==> !ends_at(#[trigger] zones[i], divider),
        forall|i: int| 0 <= i < zones.len() && i != index + 1 ==> !begins_at(#[trigger] zones[i], divider),
    ensures
        ({
            let state = merging(zones, divider, n);
            &&& state.zones == if n <= index {
                zones
            } else {
                zones.update(index, zones[index].union(&zones[index + 1]))
            }
            &&& state.gone == Seq::new(zones.len(), |i: int| n > index && i == index + 1)
        }),
    decreases n,
{
    let state = merging(zones, divider, n);
    if n > 0 {
        lemma_one_pair(zones, divider, index, (n - 1) as nat);
        let before = merging(zones, divider, (n - 1) as nat);
        if n - 1 == index {
            lemma_partner(zones, before.gone, divider, index, 0);
            assert(!before.gone[index + 1]);
            match partner(zones, before.gone, divider, index, 0) {
                Some(j) => {
                    assert(begins_at(zones[j], divider));
                    assert(j == index + 1);
                },
                None => {
                    assert(!continues(zones[index], zones[index + 1], divider));
                },
            }
        } else {
            assert(!ends_at(zones[n - 1], divider));
        }
    }
    assert(state.gone =~= Seq::new(zones.len(), |i: int| n > index && i == index + 1));
}

/// What remains when one zone is gone.
proof fn lemma_one_gone(state: Merging, gone: int, n: nat)
    requires
        0 <= gone < state.zones.len(),
        n <= state.zones.len(),
        state.gone == Seq::new(state.zones.len(), |i: int| i == gone),
    ensures
        remaining(state, n) == if n <= gone {
            state.zones.take(n as int)
        } else {
            state.zones.take(n as int).remove(gone)
        },
    decreases n,
{
    if n > 0 {
        lemma_one_gone(state, gone, (n - 1) as nat);
        assert(state.gone[n - 1] == (n - 1 == gone));
        if n - 1 == gone {
            assert(state.zones.take(n as int).remove(gone) =~= state.zones.take(n - 1));
        } else if n - 1 < gone {
            assert(state.zones.take(n as int) =~= state.zones.take(n - 1).push(state.zones[n - 1]));
        } else {
            assert(state.zones.take(n as int).remove(gone) =~= state.zones.take(n - 1).remove(gone).push(
                state.zones[n - 1],
            ));
        }
    } else {
        assert(remaining(state, 0) =~= state.zones.take(0));
    }
}

/// The halves of a zone that no edge but the new one is near: only the first ends at
/// the new boundary, only the second begins there, they line up across it, and their
/// union is the zone.
proof fn lemma_halves_pair(zone: ZoneRect, at: Binary64, axis: Axis)
    requires
        zone.is_valid(),
        at.is_finite(),
        halves(zone, at, axis) is Some,
        is_clear_of(zone, Divider { axis, position: at }),
    ensures
        ({
            let (first, second) = halves(zone, at, axis)->0;
            let divider = Divider { axis, position: at };
            &&& 0 <= at.value() <= one_units()
            &&& ends_at(first, divider)
            &&& !begins_at(first, divider)
            &&& !ends_at(second, divider)
            &&& continues(first, second, divider)
            &&& nearly(first.union(&second), zone, 8 * slack())
        }),
{
    let divider = Divider { axis, position: at };
    let (first, second) = halves(zone, at, axis)->0;
    lemma_magnitudes();
    lemma_min_fraction();
    lemma_valid_across(zone, axis);
    lemma_valid_zone(zone);
    let from = low(zone, axis);
    let to = high(zone, axis);
    if at.value() < from.value() {
        lemma_difference_sign(at, from);
    }
    if to.value() < at.value() {
        lemma_difference_sign(to, at);
    }
    lemma_reach(from, at);
    lemma_reach(at, to);
    merging_undoes_splitting(zone, at, axis);
    // The far edge of the second half is where the zone's was.
    assert(high(second, axis) == at.plus(to.minus(at)));
    lemma_not_close(high(second, axis), at);
    lemma_clear(zone, divider);
    assert(low(first, axis) == from);
    let end = high(first, axis).greatest(high(second, axis));
    assert(end == high(second, axis));
    lemma_reach(from, end);
    lemma_reach(zone.x, zone.right());
    lemma_reach(zone.y, zone.bottom());
}

/// Merging a layout in which exactly one zone has a partner, and that is its
/// successor.
proof fn lemma_merge_one_pair(zones: Seq<ZoneRect>, divider: Divider, k: int)
    requires
        0 <= k,
        k + 1 < zones.len(),
        ends_at(zones[k], divider),
        continues(zones[k], zones[k + 1], divider),
        forall|i: int| 0 <= i < zones.len() && i != k ==> !ends_at(#[trigger] zones[i], divider),
        forall|i: int| 0 <= i < zones.len() && i != k + 1 ==> !begins_at(#[trigger] zones[i], divider),
    ensures
        merge_result(zones, divider) == Some(
            zones.update(k, zones[k].union(&zones[k + 1])).remove(k + 1),
        ),
{
    lemma_one_pair(zones, divider, k, zones.len());
    let state = merging(zones, divider, zones.len());
    assert(state.gone =~= Seq::new(state.zones.len(), |i: int| i == k + 1));
    assert(state.gone[k + 1]);
    lemma_one_gone(state, k + 1, zones.len());
    assert(state.zones.take(zones.len() as int) =~= state.zones);
}

/// Merging a layout along the boundary that one of its zones was split at undoes the
/// split: every other zone is as it was, and so is that one, up to what rounding
/// loses.
pub proof fn merging_gives_back_the_layout(zones: Seq<ZoneRect>, index: usize, at: Binary64, axis: Axis)
    requires
        forall|i: int| 0 <= i < zones.len() ==> (#[trigger] zones[i]).is_valid(),
        !at.is_nan(),
        split_result(zones, index, at, axis) is Some,
        forall|i: int| 0 <= i < zones.len() ==> is_clear_of(#[trigger] zones[i], Divider { axis, position: at }),
    ensures
        merge_result(split_result(zones, index, at, axis)->0, Divider { axis, position: at }) matches Some(merged)
            && merged.len() == zones.len() && nearly(merged[index as int], zones[index as int], 8 * slack())
            && forall|i: int| 0 <= i < zones.len() && i != index ==> #[trigger] merged[i] == zones[i],
{
    let k = index as int;
    let divider = Divider { axis, position: at };
    let (first, second) = halves(zones[k], at, axis)->0;
    let split = split_result(zones, index, at, axis)->0;
    assert(zones[k].is_valid());
    lemma_split_place(zones[k], at, axis);
    lemma_halves_pair(zones[k], at, axis);
    assert(split.len() == zones.len() + 1);
    assert(split[k] == first && split[k + 1] == second);
    assert forall|i: int| 0 <= i < split.len() && i != k && i != k + 1 implies !ends_at(#[trigger] split[i], divider)
        && !begins_at(split[i], divider) by {
        let j = if i < k {
            i
        } else {
            i - 1
        };
        assert(split[i] == zones[j]);
        assert(zones[j].is_valid());
        lemma_clear(zones[j], divider);
    }
    lemma_merge_one_pair(split, divider, k);
    assert(split.update(k, first.union(&second)).remove(k + 1) =~= zones.update(k, first.union(&second)));
}

} // verus!
