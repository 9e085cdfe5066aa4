//! Merging keeps a layout tiled, and its total area.

use crate::binary64::one_units;
use crate::covering::{
    all_valid, area_sum, holds_point, is_on_screen, is_reached, is_tiled, separate, separate_across,
};
use crate::dividers::{
    begins_at, continues, ends_at, extent, high, lemma_partner, low, merge_result, merge_step, merging, partner,
    remaining, Axis, Divider, Merging,
};
use crate::precision::{apart, lemma_small_plus, lemma_small_times, slack};
use crate::rect::ZoneRect;
use crate::retiling::crossing;
use crate::tiling::a_union_is_the_smallest_container;
use crate::tolerance::{lemma_magnitudes, lemma_reach, lemma_valid_zone, tolerance};
use crate::undoing::{lemma_close_apart, lemma_valid_across};
use vstd::arithmetic::power2::lemma_pow2_pos;
use vstd::prelude::*;

verus! {

// ---------------------------------------------------------------------------
// Which zones are merged
// ---------------------------------------------------------------------------

/// The zone that zone `i` takes in when a boundary is removed.
pub open spec fn mate(zones: Seq<ZoneRect>, divider: Divider, i: int) -> Option<int> {
    let before = merging(zones, divider, i as nat);
    if before.gone[i] || !ends_at(zones[i], divider) {
        None
    } else {
        partner(zones, before.gone, divider, i, 0)
    }
}

/// A zone together with what it takes in.
pub open spec fn joined(zones: Seq<ZoneRect>, divider: Divider, i: int) -> ZoneRect {
    match mate(zones, divider, i) {
        Some(j) => zones[i].union(&zones[j]),
        None => zones[i],
    }
}

/// What a mate is.
proof fn lemma_mate(zones: Seq<ZoneRect>, divider: Divider, i: int)
    requires
        0 <= i < zones.len(),
    ensures
        mate(zones, divider, i) matches Some(j) ==> {
            &&& 0 <= j < zones.len()
            &&& j != i
            &&& ends_at(zones[i], divider)
            &&& continues(zones[i], zones[j], divider)
            &&& !merging(zones, divider, i as nat).gone[i]
            &&& !merging(zones, divider, i as nat).gone[j]
        },
{
    lemma_partner(zones, merging(zones, divider, i as nat).gone, divider, i, 0);
}

/// Which zones are merged into which, after the first `n` of them have looked for a
/// partner.
proof fn lemma_mates(zones: Seq<ZoneRect>, divider: Divider, n: nat)
    requires
        n <= zones.len(),
    ensures
        ({
            let state = merging(zones, divider, n);
            &&& state.zones.len() == zones.len()
            &&& state.gone.len() == zones.len()
            &&& forall|i: int| 0 <= i < n ==> #[trigger] state.zones[i] == joined(zones, divider, i)
            &&& forall|i: int| n <= i < zones.len() ==> #[trigger] state.zones[i] == zones[i]
            &&& forall|i: int|
                0 <= i < n ==> (#[trigger] mate(zones, divider, i) matches Some(j) ==> state.gone[j])
            &&& forall|j: int|
                0 <= j < zones.len() && #[trigger] state.gone[j] ==> exists|i: int|
                    0 <= i < n && #[trigger] mate(zones, divider, i) == Some(j)
        }),
    decreases n,
{
    let state = merging(zones, divider, n);
    if n > 0 {
        let m = n - 1;
        lemma_mates(zones, divider, m as nat);
        lemma_mate(zones, divider, m);
        let before = merging(zones, divider, m as nat);
        assert(state == merge_step(zones, before, divider, m));
        assert forall|i: int| 0 <= i < n implies #[trigger] state.zones[i] == joined(zones, divider, i) by {
            if i < m {
                assert(before.zones[i] == joined(zones, divider, i));
            }
        }
        assert forall|i: int| 0 <= i < n implies (#[trigger] mate(zones, divider, i) matches Some(j)
            ==> state.gone[j]) by {
            lemma_mate(zones, divider, i);
        }
        assert forall|j: int| 0 <= j < zones.len() && #[trigger] state.gone[j] implies exists|i: int|
            0 <= i < n && #[trigger] mate(zones, divider, i) == Some(j) by {
            if before.gone[j] {
                let i = choose|i: int| 0 <= i < m && #[trigger] mate(zones, divider, i) == Some(j);
                assert(mate(zones, divider, i) == Some(j));
            } else {
                assert(mate(zones, divider, m) == Some(j));
            }
        }
    }
}

/// No zone is taken in twice.
proof fn lemma_mates_differ(zones: Seq<ZoneRect>, divider: Divider, i: int, k: int)
    requires
        0 <= i < k < zones.len(),
        mate(zones, divider, i) is Some,
    ensures
        mate(zones, divider, i) != mate(zones, divider, k),
{
    lemma_mates(zones, divider, k as nat);
    lemma_mate(zones, divider, k);
    assert(mate(zones, divider, i) matches Some(j) ==> merging(zones, divider, k as nat).gone[j]);
}

/// The numbers of those of the first `n` zones that are not gone.
pub open spec fn kept(state: Merging, n: nat) -> Seq<int>
    decreases n,
{
    if n == 0 {
        Seq::empty()
    } else if state.gone[n - 1] {
        kept(state, (n - 1) as nat)
    } else {
        kept(state, (n - 1) as nat).push(n - 1)
    }
}

proof fn lemma_kept(state: Merging, n: nat)
    ensures
        kept(state, n).len() == remaining(state, n).len(),
        forall|k: int|
            0 <= k < kept(state, n).len() ==> remaining(state, n)[k] == state.zones[#[trigger] kept(state, n)[k]]
                && 0 <= kept(state, n)[k] < n && !state.gone[kept(state, n)[k]],
        forall|k: int, l: int|
            #![trigger kept(state, n)[k], kept(state, n)[l]]
            0 <= k < l < kept(state, n).len() ==> kept(state, n)[k] < kept(state, n)[l],
        forall|i: int| 0 <= i < n && !#[trigger] state.gone[i] ==> kept(state, n).contains(i),
    decreases n,
{
    if n > 0 {
        let m = (n - 1) as nat;
        lemma_kept(state, m);
        let before = kept(state, m);
        let after = kept(state, n);
        assert forall|i: int| 0 <= i < n && !#[trigger] state.gone[i] implies after.contains(i) by {
            if i < m {
                assert(before.contains(i));
                let k = choose|k: int| 0 <= k < before.len() && before[k] == i;
                assert(after[k] == i);
            } else {
                assert(after[after.len() - 1] == i);
            }
        }
    }
}

// ---------------------------------------------------------------------------
// What merging does to gaps and overlaps
// ---------------------------------------------------------------------------

/// Whether zones that are merged across a boundary line up up to a distance: they
/// meet at it, and begin and end at the same places across.
pub open spec fn pairs_line_up(zones: Seq<ZoneRect>, divider: Divider, skew: int) -> bool {
    forall|i: int, j: int|
        #![trigger zones[i], zones[j]]
        0 <= i < zones.len() && 0 <= j < zones.len() && i != j && ends_at(zones[i], divider) && continues(
            zones[i],
            zones[j],
            divider,
        ) ==> in_line(zones[i], zones[j], divider.axis, skew)
}

/// Whether a zone is continued by another one, up to a distance.
pub open spec fn in_line(a: ZoneRect, b: ZoneRect, axis: Axis, skew: int) -> bool {
    &&& apart(high(a, axis).value(), low(b, axis).value()) <= skew
    &&& apart(low(a, crossing(axis)).value(), low(b, crossing(axis)).value()) <= skew
    &&& apart(high(a, crossing(axis)).value(), high(b, crossing(axis)).value()) <= skew
}

/// Zones are merged only where they line up, up to three times the tolerance at
/// most.
pub proof fn merged_pairs_line_up(zones: Seq<ZoneRect>, divider: Divider)
    requires
        all_valid(zones),
        divider.position.is_finite(),
        0 <= divider.position.value() <= one_units(),
    ensures
        pairs_line_up(zones, divider, 3 * tolerance()),
{
    assert forall|i: int, j: int|
        #![trigger zones[i], zones[j]]
        0 <= i < zones.len() && 0 <= j < zones.len() && i != j && ends_at(zones[i], divider) && continues(
            zones[i],
            zones[j],
            divider,
        ) implies in_line(zones[i], zones[j], divider.axis, 3 * tolerance()) by {
        assert(zones[i].is_valid() && zones[j].is_valid());
        lemma_in_line(zones[i], zones[j], divider);
    }
}

proof fn lemma_in_line(a: ZoneRect, b: ZoneRect, divider: Divider)
    requires
        a.is_valid(),
        b.is_valid(),
        divider.position.is_finite(),
        0 <= divider.position.value() <= one_units(),
        ends_at(a, divider),
        continues(a, b, divider),
    ensures
        in_line(a, b, divider.axis, 3 * tolerance()),
{
    let axis = divider.axis;
    let across = crossing(axis);
    lemma_magnitudes();
    lemma_valid_across(a, axis);
    lemma_valid_across(b, axis);
    lemma_valid_across(a, across);
    lemma_valid_across(b, across);
    lemma_close_apart(high(a, axis), divider.position);
    lemma_close_apart(low(b, axis), divider.position);
    lemma_close_apart(low(b, across), low(a, across));
    lemma_close_apart(extent(b, across), extent(a, across));
}

/// Whether a rectangle is where the union of two zones is, up to what rounding
/// loses.
spec fn encloses(u: ZoneRect, a: ZoneRect, b: ZoneRect, axis: Axis) -> bool {
    &&& low(u, axis).value() == low(a, axis).value() || low(u, axis).value() == low(b, axis).value()
    &&& low(u, axis).value() <= low(a, axis).value() && low(u, axis).value() <= low(b, axis).value()
    &&& apart(high(u, axis).value(), high(a, axis).value()) <= 2 * slack() || apart(
        high(u, axis).value(),
        high(b, axis).value(),
    ) <= 2 * slack()
    &&& high(a, axis).value() <= high(u, axis).value() + 2 * slack()
    &&& high(b, axis).value() <= high(u, axis).value() + 2 * slack()
}

proof fn lemma_encloses(a: ZoneRect, b: ZoneRect, axis: Axis)
    requires
        a.is_valid(),
        b.is_valid(),
    ensures
        encloses(a.union(&b), a, b, axis),
        encloses(a.union(&b), a, b, crossing(axis)),
{
    lemma_magnitudes();
    a_union_is_the_smallest_container(a, b);
}

/// How long a zone is, measured from edge to edge across an axis.
pub open spec fn span_across(zone: ZoneRect, axis: Axis) -> int {
    high(zone, axis).value() - low(zone, axis).value()
}

/// What overlaps neither of two zones that continue one another does not overlap
/// their union.
proof fn lemma_union_separate(a: ZoneRect, b: ZoneRect, u: ZoneRect, c: ZoneRect, axis: Axis, off: int, skew: int)
    requires
        encloses(u, a, b, axis),
        encloses(u, a, b, crossing(axis)),
        in_line(a, b, axis, skew),
        off >= 0,
        skew >= 0,
        slack() >= 0,
        separate(a, c, off) || separate(c, a, off),
        separate(b, c, off) || separate(c, b, off),
        span_across(a, axis) >= skew,
        span_across(b, axis) >= skew,
        span_across(c, axis) > skew + 2 * off,
    ensures
        separate(u, c, off + skew + 2 * slack()),
        separate(c, u, off + skew + 2 * slack()),
{
    let more = off + skew + 2 * slack();
    let across = crossing(axis);
    if separate_across(a, c, across, off) || separate_across(b, c, across, off) {
        assert(separate_across(u, c, across, more));
    } else {
        assert(separate_across(a, c, axis, off) && separate_across(b, c, axis, off));
        assert(separate_across(u, c, axis, more));
    }
}

/// What is known of the zones while they are merged.
spec fn is_joining(zones: Seq<ZoneRect>, divider: Divider, off: int, skew: int) -> bool {
    &&& all_valid(zones)
    &&& is_tiled(zones, off)
    &&& pairs_line_up(zones, divider, skew)
    &&& 0 < slack() <= off
    &&& skew >= 0
    &&& forall|i: int|
        0 <= i < zones.len() ==> span_across(#[trigger] zones[i], divider.axis) >= 4 * skew + 16 * off && !(begins_at(
            zones[i],
            divider,
        ) && ends_at(zones[i], divider))
}

/// A zone with what it took in, against a zone that is left alone.
proof fn lemma_joined_separate(zones: Seq<ZoneRect>, divider: Divider, off: int, skew: int, i: int, c: int)
    requires
        is_joining(zones, divider, off, skew),
        0 <= i < zones.len(),
        0 <= c < zones.len(),
        i != c,
        mate(zones, divider, i) != Some(c),
    ensures
        separate(joined(zones, divider, i), zones[c], off + skew + 2 * slack()),
        separate(zones[c], joined(zones, divider, i), off + skew + 2 * slack()),
        span_across(joined(zones, divider, i), divider.axis) >= 4 * skew + 14 * off,
{
    assert(separate(zones[i], zones[c], off));
    assert(zones[i].is_valid() && zones[c].is_valid());
    assert(span_across(zones[i], divider.axis) >= 4 * skew + 16 * off);
    assert(span_across(zones[c], divider.axis) >= 4 * skew + 16 * off);
    if let Some(j) = mate(zones, divider, i) {
        lemma_mate(zones, divider, i);
        assert(separate(zones[j], zones[c], off));
        assert(zones[j].is_valid());
        assert(span_across(zones[j], divider.axis) >= 4 * skew + 16 * off);
        assert(in_line(zones[i], zones[j], divider.axis, skew));
        lemma_encloses(zones[i], zones[j], divider.axis);
        lemma_union_separate(
            zones[i],
            zones[j],
            zones[i].union(&zones[j]),
            zones[c],
            divider.axis,
            off,
            skew,
        );
    }
}

/// Two zones that are left, each with what it took in.
proof fn lemma_both_separate(zones: Seq<ZoneRect>, divider: Divider, off: int, skew: int, i: int, k: int)
    requires
        is_joining(zones, divider, off, skew),
        0 <= i < zones.len(),
        0 <= k < zones.len(),
        i != k,
        mate(zones, divider, i) != Some(k),
        mate(zones, divider, k) != Some(i),
    ensures
        separate(joined(zones, divider, i), joined(zones, divider, k), off + 2 * skew + 4 * slack()),
{
    let more = off + skew + 2 * slack();
    let u = joined(zones, divider, i);
    lemma_joined_separate(zones, divider, off, skew, i, k);
    if let Some(l) = mate(zones, divider, k) {
        lemma_mate(zones, divider, k);
        if mate(zones, divider, i) is Some {
            if i < k {
                lemma_mates_differ(zones, divider, i, k);
            } else {
                lemma_mates_differ(zones, divider, k, i);
            }
        }
        lemma_joined_separate(zones, divider, off, skew, i, l);
        assert(zones[k].is_valid() && zones[l].is_valid());
        assert(span_across(zones[k], divider.axis) >= 4 * skew + 16 * off);
        assert(span_across(zones[l], divider.axis) >= 4 * skew + 16 * off);
        assert(in_line(zones[k], zones[l], divider.axis, skew));
        lemma_encloses(zones[k], zones[l], divider.axis);
        lemma_union_separate(
            zones[k],
            zones[l],
            zones[k].union(&zones[l]),
            u,
            divider.axis,
            more,
            skew,
        );
    }
}

/// A zone with what it took in lies on the screen and holds what both held.
proof fn lemma_joined_holds(zones: Seq<ZoneRect>, divider: Divider, off: int, skew: int, i: int)
    requires
        is_joining(zones, divider, off, skew),
        0 <= i < zones.len(),
    ensures
        is_on_screen(joined(zones, divider, i), off + 2 * slack()),
        forall|x: int, y: int| #[trigger]
            holds_point(zones[i], x, y, off) ==> holds_point(joined(zones, divider, i), x, y, off + 2 * slack()),
        mate(zones, divider, i) matches Some(j) ==> forall|x: int, y: int| #[trigger]
            holds_point(zones[j], x, y, off) ==> holds_point(joined(zones, divider, i), x, y, off + 2 * slack()),
{
    assert(is_on_screen(zones[i], off) && zones[i].is_valid());
    if let Some(j) = mate(zones, divider, i) {
        lemma_mate(zones, divider, i);
        assert(is_on_screen(zones[j], off) && zones[j].is_valid());
        lemma_encloses(zones[i], zones[j], Axis::Vertical);
    }
}

/// Merging zones across a boundary keeps a layout tiled, up to how far the merged
/// zones are out of line.
pub proof fn merging_keeps_the_layout_tiled(zones: Seq<ZoneRect>, divider: Divider, off: int, skew: int)
    requires
        all_valid(zones),
        is_tiled(zones, off),
        slack() <= off,
        0 <= skew,
        pairs_line_up(zones, divider, skew),
        forall|i: int|
            0 <= i < zones.len() ==> span_across(#[trigger] zones[i], divider.axis) >= 4 * skew + 16 * off && !(
            begins_at(zones[i], divider) && ends_at(zones[i], divider)),
        merge_result(zones, divider) is Some,
    ensures
        is_tiled(merge_result(zones, divider)->0, off + 2 * skew + 4 * slack()),
{
    lemma_magnitudes();
    assert(is_joining(zones, divider, off, skew));
    let n = zones.len();
    let more = off + 2 * skew + 4 * slack();
    let state = merging(zones, divider, n);
    let after = remaining(state, n);
    let origin = kept(state, n);
    lemma_mates(zones, divider, n);
    lemma_kept(state, n);
    assert forall|k: int| #![trigger after[k]] 0 <= k < after.len() implies 0 <= origin[k] < n && after[k] == joined(
        zones,
        divider,
        origin[k],
    ) && !state.gone[origin[k]] by {
        assert(state.zones[origin[k]] == joined(zones, divider, origin[k]));
    }
    assert forall|k: int| 0 <= k < after.len() implies is_on_screen(#[trigger] after[k], more) by {
        lemma_joined_holds(zones, divider, off, skew, origin[k]);
    }
    assert forall|x: int, y: int| 0 <= x < one_units() && 0 <= y < one_units() implies #[trigger] is_reached(
        after,
        x,
        y,
        more,
    ) by {
        assert(is_reached(zones, x, y, off));
        let i = choose|i: int| 0 <= i < zones.len() && holds_point(#[trigger] zones[i], x, y, off);
        let owner = if state.gone[i] {
            choose|k: int| 0 <= k < n && #[trigger] mate(zones, divider, k) == Some(i)
        } else {
            i
        };
        lemma_joined_holds(zones, divider, off, skew, owner);
        if state.gone[i] {
            lemma_mate(zones, divider, owner);
            lemma_not_gone(zones, divider, owner);
        }
        assert(origin.contains(owner));
        let k = choose|k: int| 0 <= k < origin.len() && origin[k] == owner;
        assert(holds_point(after[k], x, y, more));
    }
    assert forall|k: int, l: int|
        #![trigger after[k], after[l]]
        0 <= k < after.len() && 0 <= l < after.len() && k != l implies separate(after[k], after[l], more) by {
        let i = origin[k];
        let j = origin[l];
        assert(i != j);
        assert(mate(zones, divider, i) == Some(j) ==> state.gone[j]);
        assert(mate(zones, divider, j) == Some(i) ==> state.gone[i]);
        lemma_both_separate(zones, divider, off, skew, i, j);
    }
}

/// A zone that took another one in is not taken in itself, unless it both begins and
/// ends at the boundary.
proof fn lemma_not_gone(zones: Seq<ZoneRect>, divider: Divider, i: int)
    requires
        0 <= i < zones.len(),
        mate(zones, divider, i) is Some,
        !(begins_at(zones[i], divider) && ends_at(zones[i], divider)),
    ensures
        !merging(zones, divider, zones.len()).gone[i],
{
    lemma_mates(zones, divider, zones.len());
    lemma_mate(zones, divider, i);
    if merging(zones, divider, zones.len()).gone[i] {
        let k = choose|k: int| 0 <= k < zones.len() && #[trigger] mate(zones, divider, k) == Some(i);
        lemma_mate(zones, divider, k);
    }
}

// ---------------------------------------------------------------------------
// What merging does to the area
// ---------------------------------------------------------------------------

/// A zone's area is what its edges say, up to what rounding loses.
proof fn lemma_area_from_edges(zone: ZoneRect, axis: Axis)
    requires
        zone.w.is_finite(),
        zone.h.is_finite(),
        0 <= span_across(zone, axis) <= one_units() + 4 * tolerance(),
        0 <= span_across(zone, crossing(axis)) <= one_units() + 4 * tolerance(),
        apart(span_across(zone, axis), extent(zone, axis).value()) <= slack(),
        apart(span_across(zone, crossing(axis)), extent(zone, crossing(axis)).value()) <= slack(),
    ensures
        apart(
            zone.area().value() * one_units(),
            span_across(zone, axis) * span_across(zone, crossing(axis)),
        ) <= (9 * slack()) * one_units(),
{
    lemma_magnitudes();
    lemma_small_times(zone.w, zone.h);
    lemma_pow2_pos(1074);
    let one = one_units() as int;
    let s = slack();
    let p = span_across(zone, axis);
    let q = span_across(zone, crossing(axis));
    let v = extent(zone, axis).value();
    let w = extent(zone, crossing(axis)).value();
    assert(zone.w.value() * zone.h.value() == v * w) by {
        assert(zone.w.value() * zone.h.value() == zone.h.value() * zone.w.value()) by (nonlinear_arith);
    }
    let d = p - v;
    let e = q - w;
    assert(p * q - v * w == d * q + v * e) by (nonlinear_arith)
        requires
            d == p - v,
            e == q - w,
    ;
    assert(-(2 * s * one) <= d * q <= 2 * s * one) by (nonlinear_arith)
        requires
            -s <= d <= s,
            0 <= q <= 2 * one,
            s > 0,
            one > 0,
    ;
    assert(-(3 * s * one) <= v * e <= 3 * s * one) by (nonlinear_arith)
        requires
            -s <= e <= s,
            -one <= v <= 3 * one,
            s > 0,
            one > 0,
    ;
    assert((4 * s) * one == 4 * (s * one)) by (nonlinear_arith);
    assert((9 * s) * one == 9 * (s * one)) by (nonlinear_arith);
    assert(2 * s * one == 2 * (s * one)) by (nonlinear_arith);
    assert(3 * s * one == 3 * (s * one)) by (nonlinear_arith);
}

/// The extent of a union is what its edges say.
proof fn lemma_union_extent(a: ZoneRect, b: ZoneRect, axis: Axis)
    requires
        a.is_valid(),
        b.is_valid(),
    ensures
        extent(a.union(&b), axis).is_finite(),
        0 <= span_across(a.union(&b), axis) <= one_units() + 4 * tolerance(),
        apart(span_across(a.union(&b), axis), extent(a.union(&b), axis).value()) <= slack(),
{
    lemma_magnitudes();
    lemma_valid_across(a, axis);
    lemma_valid_across(b, axis);
    let from = low(a, axis).least(low(b, axis));
    let to = high(a, axis).greatest(high(b, axis));
    lemma_reach(from, to);
    lemma_small_plus(from, to.minus(from));
    let u = a.union(&b);
    assert(low(u, axis) == from);
    assert(extent(u, axis) == to.minus(from));
    assert(high(u, axis) == from.plus(to.minus(from)));
}

/// Two products side by side and the product of the whole.
proof fn lemma_side_by_side(
    p: int,
    q: int,
    r: int,
    h: int,
    k: int,
    l: int,
    skew: int,
    s: int,
    one: int,
)
    requires
        one > 0,
        s > 0,
        skew >= 0,
        0 <= p <= 2 * one,
        0 <= q <= 2 * one,
        0 <= l <= 2 * one,
        apart(r, p + q) <= 3 * skew + 4 * s,
        apart(h, l) <= 2 * skew + 2 * s,
        apart(k, l) <= 4 * skew + 2 * s,
    ensures
        apart(p * h + q * k, r * l) <= (18 * skew + 16 * s) * one,
{
    let a = h - l;
    let b = k - l;
    let c = p + q - r;
    assert(p * h + q * k - r * l == p * a + q * b + c * l) by (nonlinear_arith)
        requires
            a == h - l,
            b == k - l,
            c == p + q - r,
    ;
    let e = 2 * skew + 2 * s;
    let f = 4 * skew + 2 * s;
    let g = 3 * skew + 4 * s;
    assert(-(2 * e * one) <= p * a <= 2 * e * one) by (nonlinear_arith)
        requires
            -e <= a <= e,
            0 <= p <= 2 * one,
            e > 0,
    ;
    assert(-(2 * f * one) <= q * b <= 2 * f * one) by (nonlinear_arith)
        requires
            -f <= b <= f,
            0 <= q <= 2 * one,
            f > 0,
    ;
    assert(-(2 * g * one) <= c * l <= 2 * g * one) by (nonlinear_arith)
        requires
            -g <= c <= g,
            0 <= l <= 2 * one,
            g > 0,
    ;
    assert(2 * e * one + 2 * f * one + 2 * g * one == (18 * skew + 16 * s) * one) by (nonlinear_arith)
        requires
            e == 2 * skew + 2 * s,
            f == 4 * skew + 2 * s,
            g == 3 * skew + 4 * s,
    ;
}

/// How long the union of two zones that continue one another is, and how long it is
/// across.
proof fn lemma_join_spans(a: ZoneRect, b: ZoneRect, axis: Axis, skew: int)
    requires
        a.is_valid(),
        b.is_valid(),
        0 <= skew,
        in_line(a, b, axis, skew),
    ensures
        ({
            let u = a.union(&b);
            let across = crossing(axis);
            &&& apart(span_across(u, axis), span_across(a, axis) + span_across(b, axis)) <= 3 * skew + 4 * slack()
            &&& apart(span_across(a, across), span_across(u, across)) <= 2 * skew + 2 * slack()
            &&& apart(span_across(b, across), span_across(u, across)) <= 4 * skew + 2 * slack()
        }),
{
    lemma_magnitudes();
    lemma_valid_across(a, axis);
    lemma_valid_across(b, axis);
    lemma_encloses(a, b, axis);
}

/// The area of a valid zone is what its edges say.
proof fn lemma_valid_area(zone: ZoneRect, axis: Axis)
    requires
        zone.is_valid(),
    ensures
        0 <= span_across(zone, axis) <= 2 * one_units(),
        0 <= span_across(zone, crossing(axis)) <= 2 * one_units(),
        apart(
            zone.area().value() * one_units(),
            span_across(zone, axis) * span_across(zone, crossing(axis)),
        ) <= (9 * slack()) * one_units(),
{
    lemma_magnitudes();
    lemma_valid_across(zone, axis);
    lemma_valid_across(zone, crossing(axis));
    lemma_valid_zone(zone);
    lemma_area_from_edges(zone, axis);
}

/// The area of a union is what its edges say.
proof fn lemma_union_area(a: ZoneRect, b: ZoneRect, axis: Axis)
    requires
        a.is_valid(),
        b.is_valid(),
    ensures
        0 <= span_across(a.union(&b), axis) <= 2 * one_units(),
        0 <= span_across(a.union(&b), crossing(axis)) <= 2 * one_units(),
        apart(
            a.union(&b).area().value() * one_units(),
            span_across(a.union(&b), axis) * span_across(a.union(&b), crossing(axis)),
        ) <= (9 * slack()) * one_units(),
{
    lemma_magnitudes();
    lemma_union_extent(a, b, axis);
    lemma_union_extent(a, b, crossing(axis));
    let u = a.union(&b);
    assert(u.w.is_finite() && u.h.is_finite()) by {
        match axis {
            Axis::Vertical => {},
            Axis::Horizontal => {},
        }
    }
    lemma_area_from_edges(u, axis);
}

proof fn lemma_scaled_sum(x: int, y: int, z: int, p: int, q: int, r: int, skew: int, s: int, one: int)
    requires
        one > 0,
        apart(x * one, p) <= (9 * s) * one,
        apart(y * one, q) <= (9 * s) * one,
        apart(z * one, r) <= (9 * s) * one,
        apart(p + q, r) <= (18 * skew + 16 * s) * one,
    ensures
        apart(x + y, z) <= 18 * skew + 43 * s,
{
    let d = x + y - z;
    let bound = 18 * skew + 43 * s;
    assert(x * one + y * one - z * one == d * one) by (nonlinear_arith)
        requires
            d == x + y - z,
    ;
    assert((9 * s) * one + (9 * s) * one + (9 * s) * one + (18 * skew + 16 * s) * one == bound * one)
        by (nonlinear_arith)
        requires
            bound == 18 * skew + 43 * s,
    ;
    assert(-bound <= d <= bound) by (nonlinear_arith)
        requires
            -(bound * one) <= d * one <= bound * one,
            one > 0,
    ;
}

/// The area of two zones that continue one another is that of their union, up to how
/// far they are out of line.
pub proof fn joining_keeps_the_area(a: ZoneRect, b: ZoneRect, axis: Axis, skew: int)
    requires
        a.is_valid(),
        b.is_valid(),
        0 <= skew,
        in_line(a, b, axis, skew),
    ensures
        apart(a.area().value() + b.area().value(), a.union(&b).area().value()) <= 18 * skew + 43 * slack(),
{
    let across = crossing(axis);
    let u = a.union(&b);
    let one = one_units() as int;
    let s = slack();
    assert(s > 0) by {
        lemma_magnitudes();
    }
    lemma_pow2_pos(1074);
    lemma_join_spans(a, b, axis, skew);
    lemma_valid_area(a, axis);
    lemma_valid_area(b, axis);
    lemma_union_area(a, b, axis);
    let p = span_across(a, axis);
    let q = span_across(b, axis);
    let r = span_across(u, axis);
    let h = span_across(a, across);
    let k = span_across(b, across);
    let l = span_across(u, across);
    lemma_side_by_side(p, q, r, h, k, l, skew, s, one);
    lemma_scaled_sum(a.area().value(), b.area().value(), u.area().value(), p * h, q * k, r * l, skew, s, one);
}

/// The areas of those of the first `n` zones that are not gone, added up.
spec fn kept_area(state: Merging, n: nat) -> int
    decreases n,
{
    if n == 0 {
        0
    } else {
        kept_area(state, (n - 1) as nat) + if state.gone[n - 1] {
            0
        } else {
            state.zones[n - 1].area().value()
        }
    }
}

proof fn lemma_kept_area(state: Merging, n: nat)
    ensures
        area_sum(remaining(state, n)) == kept_area(state, n),
    decreases n,
{
    if n > 0 {
        let m = (n - 1) as nat;
        lemma_kept_area(state, m);
        if !state.gone[n - 1] {
            let after = remaining(state, n);
            assert(after.drop_last() =~= remaining(state, m));
            assert(after.last() == state.zones[n - 1]);
        }
    }
}

proof fn lemma_nothing_gone(zones: Seq<ZoneRect>, divider: Divider, n: nat)
    requires
        n <= zones.len(),
    ensures
        kept_area(merging(zones, divider, 0), n) == area_sum(zones.take(n as int)),
    decreases n,
{
    if n > 0 {
        lemma_nothing_gone(zones, divider, (n - 1) as nat);
        assert(zones.take(n as int).drop_last() =~= zones.take(n - 1));
    } else {
        assert(area_sum(zones.take(0)) == 0);
    }
}

/// What one merge does to the areas.
proof fn lemma_merge_area(state: Merging, i: int, j: int, u: ZoneRect, n: nat)
    requires
        0 <= i < state.zones.len(),
        0 <= j < state.zones.len(),
        i != j,
        n <= state.zones.len(),
        state.gone.len() == state.zones.len(),
        !state.gone[i],
        !state.gone[j],
    ensures
        kept_area(Merging { zones: state.zones.update(i, u), gone: state.gone.update(j, true) }, n) == kept_area(
            state,
            n,
        ) + if i < n {
            u.area().value() - state.zones[i].area().value()
        } else {
            0
        } - if j < n {
            state.zones[j].area().value()
        } else {
            0
        },
    decreases n,
{
    if n > 0 {
        lemma_merge_area(state, i, j, u, (n - 1) as nat);
    }
}

/// The areas after the first `n` zones have looked for a partner.
proof fn lemma_merging_area(zones: Seq<ZoneRect>, divider: Divider, skew: int, n: nat)
    requires
        all_valid(zones),
        0 <= skew,
        pairs_line_up(zones, divider, skew),
        forall|i: int|
            0 <= i < zones.len() ==> !(begins_at(#[trigger] zones[i], divider) && ends_at(zones[i], divider)),
        n <= zones.len(),
    ensures
        apart(kept_area(merging(zones, divider, n), zones.len()), area_sum(zones)) <= n * (18 * skew + 43 * slack()),
    decreases n,
{
    let unit = 18 * skew + 43 * slack();
    if n == 0 {
        lemma_nothing_gone(zones, divider, zones.len());
        assert(zones.take(zones.len() as int) =~= zones);
        assert(n * unit == 0) by (nonlinear_arith)
            requires
                n == 0,
        ;
    } else {
        let m = n - 1;
        lemma_merging_area(zones, divider, skew, m as nat);
        lemma_magnitudes();
        assert(n * unit == m * unit + unit) by (nonlinear_arith)
            requires
                m == n - 1,
        ;
        let before = merging(zones, divider, m as nat);
        assert(merging(zones, divider, n) == merge_step(zones, before, divider, m));
        lemma_mates(zones, divider, m as nat);
        lemma_mate(zones, divider, m);
        if let Some(j) = mate(zones, divider, m) {
            assert(zones[m].is_valid() && zones[j].is_valid());
            assert(in_line(zones[m], zones[j], divider.axis, skew));
            assert(before.zones[m] == zones[m]);
            assert(before.zones[j] == zones[j]) by {
                if j < m {
                    assert(before.zones[j] == joined(zones, divider, j));
                    lemma_mate(zones, divider, j);
                    assert(mate(zones, divider, j) is None);
                }
            }
            joining_keeps_the_area(zones[m], zones[j], divider.axis, skew);
            lemma_merge_area(before, m, j, zones[m].union(&zones[j]), zones.len());
        }
    }
}

/// Merging zones across a boundary keeps the total area, up to how far the merged
/// zones are out of line.
pub proof fn merging_keeps_the_total_area(zones: Seq<ZoneRect>, divider: Divider, skew: int)
    requires
        all_valid(zones),
        0 <= skew,
        pairs_line_up(zones, divider, skew),
        forall|i: int|
            0 <= i < zones.len() ==> !(begins_at(#[trigger] zones[i], divider) && ends_at(zones[i], divider)),
        merge_result(zones, divider) is Some,
    ensures
        apart(area_sum(merge_result(zones, divider)->0), area_sum(zones)) <= zones.len() * (18 * skew + 43 * slack()),
{
    lemma_merging_area(zones, divider, skew, zones.len());
    lemma_kept_area(merging(zones, divider, zones.len()), zones.len());
}

} // verus!
