//! What holds of hit-testing and of spans, whatever the layout.

use crate::alignment::lemma_constants;
use crate::binary64::{lemma_signed, one_units, Binary64};
use crate::layout::{
    ascending, bounding, containing, fills, innermost, inside, lemma_containing, lemma_touching, swallowed, targets,
    total_area, touching, usable,
};
use crate::measuring::lemma_slack;
use crate::pixel::{zone_pixels, PixelPoint};
use crate::precision::{
    apart, lemma_negated, lemma_plus_near, lemma_small_minus, lemma_small_plus, lemma_small_times, slack,
};
use crate::rect::{lemma_area_of_container, ZoneRect, EPSILON, ONE, ZERO};
use crate::rounding::{lemma_rounded_limit, lemma_units_ordered, lemma_units_small, rounded, units, STEPS};
use crate::spans::{chosen, comes_first, cycled, extension, grown, lemma_chosen, preferred, shrunk};
use crate::spanning::lemma_swallowed;
use crate::tolerance::{lemma_magnitudes, lemma_valid_zone, tolerance};
use crate::zones::{fraction_in, ZoneContext, ZoneHit};
use vstd::arithmetic::power2::{lemma2_to64, lemma_pow2_adds, lemma_pow2_strictly_increases};
use vstd::prelude::*;

verus! {

/// A point on the edge between two zones belongs to the one on the right of it
/// alone, never to both and never to neither.
pub proof fn an_edge_belongs_to_the_zone_on_the_right(a: ZoneRect, b: ZoneRect, y: Binary64)
    requires
        a.right().same(b.x),
        b.x.below(b.right()),
        a.y.at_most(y),
        y.below(a.bottom()),
        b.y.at_most(y),
        y.below(b.bottom()),
    ensures
        !a.contains(b.x, y),
        b.contains(b.x, y),
{
}

/// A point on the edge between two zones belongs to the one below it alone.
pub proof fn an_edge_belongs_to_the_zone_below(a: ZoneRect, b: ZoneRect, x: Binary64)
    requires
        a.bottom().same(b.y),
        b.y.below(b.bottom()),
        a.x.at_most(x),
        x.below(a.right()),
        b.x.at_most(x),
        x.below(b.right()),
    ensures
        !a.contains(x, b.y),
        b.contains(x, b.y),
{
}

/// Every usable zone is valid.
pub proof fn usable_zones_are_valid(zones: Seq<ZoneRect>)
    ensures
        forall|i: int| 0 <= i < usable(zones).len() ==> (#[trigger] usable(zones)[i]).is_valid(),
    decreases zones.len(),
{
    if zones.len() > 0 {
        let rest = usable(zones.drop_last());
        usable_zones_are_valid(zones.drop_last());
        assert forall|i: int| 0 <= i < usable(zones).len() implies (#[trigger] usable(zones)[i]).is_valid() by {
            if i < rest.len() {
                assert(rest[i].is_valid());
            }
        }
    }
}

/// Dropping unusable zones leaves a layout alone that has none.
pub proof fn valid_zones_are_kept(zones: Seq<ZoneRect>)
    requires
        forall|i: int| 0 <= i < zones.len() ==> (#[trigger] zones[i]).is_valid(),
    ensures
        usable(zones) == zones,
    decreases zones.len(),
{
    if zones.len() > 0 {
        let rest = zones.drop_last();
        assert forall|i: int| 0 <= i < rest.len() implies (#[trigger] rest[i]).is_valid() by {
            assert(zones[i].is_valid());
        }
        valid_zones_are_kept(rest);
        assert(zones[zones.len() - 1].is_valid());
        assert(rest.push(zones.last()) =~= zones);
    }
}

/// Dropping unusable zones a second time changes nothing.
pub proof fn sanitizing_twice_is_sanitizing_once(zones: Seq<ZoneRect>)
    ensures
        usable(usable(zones)) == usable(zones),
{
    usable_zones_are_valid(zones);
    valid_zones_are_kept(usable(zones));
}

/// Whatever is targeted, the zones are listed in ascending order, each is one of
/// the layout's, and the rectangle is what they add up to.
pub proof fn targets_are_spans(
    zones: Seq<ZoneRect>,
    x: Binary64,
    y: Binary64,
    edge_threshold: Binary64,
    indices: Seq<usize>,
    rect: ZoneRect,
)
    requires
        zones.len() <= usize::MAX,
        targets(zones, x, y, edge_threshold, Some((indices, rect))),
    ensures
        ascending(indices),
        indices.len() >= 1,
        forall|k: int| 0 <= k < indices.len() ==> #[trigger] indices[k] < zones.len(),
        bounding(zones, indices) == Some(rect),
{
    lemma_containing(zones, zones.len(), x, y);
    lemma_touching(zones, zones.len(), x, y, edge_threshold);
    let strict = containing(zones, zones.len(), x, y);
    let near = touching(zones, zones.len(), x, y, edge_threshold);
    if strict.len() > 1 || edge_threshold.at_most(Binary64 { bits: ZERO }) {
        assert(indices.drop_last().len() == 0);
        assert(bounding(zones, indices.drop_last()) is None);
        if strict.len() == 1 {
            let s = strict[0];
        }
    } else {
        assert(indices == near);
        assert forall|k: int| 0 <= k < indices.len() implies #[trigger] indices[k] < zones.len() by {
            let n = near[k];
        }
    }
}

/// Without a threshold nothing ever spans: the target is a zone that contains the
/// point.
pub proof fn without_a_threshold_nothing_spans(
    zones: Seq<ZoneRect>,
    x: Binary64,
    y: Binary64,
    edge_threshold: Binary64,
    indices: Seq<usize>,
    rect: ZoneRect,
)
    requires
        zones.len() <= usize::MAX,
        edge_threshold.at_most(Binary64 { bits: ZERO }),
        targets(zones, x, y, edge_threshold, Some((indices, rect))),
    ensures
        indices.len() == 1,
        indices[0] < zones.len(),
        rect == zones[indices[0] as int],
        rect.contains(x, y),
{
    lemma_containing(zones, zones.len(), x, y);
    let strict = containing(zones, zones.len(), x, y);
    if strict.len() == 1 {
        let s = strict[0];
    }
}

/// Where zones overlap nothing spans: the target is the smallest of the zones that
/// contain the point.
pub proof fn overlapping_zones_suppress_spanning(
    zones: Seq<ZoneRect>,
    x: Binary64,
    y: Binary64,
    edge_threshold: Binary64,
    indices: Seq<usize>,
    rect: ZoneRect,
    a: int,
    b: int,
)
    requires
        zones.len() <= usize::MAX,
        0 <= a < b < zones.len(),
        zones[a].contains(x, y),
        zones[b].contains(x, y),
        targets(zones, x, y, edge_threshold, Some((indices, rect))),
    ensures
        indices.len() == 1,
        innermost(zones, indices[0] as int, x, y),
        rect == zones[indices[0] as int],
{
    lemma_containing(zones, zones.len(), x, y);
    let strict = containing(zones, zones.len(), x, y);
    assert(strict.contains(a as usize));
    assert(strict.contains(b as usize));
    if strict.len() <= 1 {
        let p = choose|p: int| 0 <= p < strict.len() && strict[p] == a as usize;
        let q = choose|q: int| 0 <= q < strict.len() && strict[q] == b as usize;
        assert(p == q);
    }
}

/// Away from every shared edge nothing spans: where no other zone comes within the
/// threshold of the point, the zone that contains it is the target.
pub proof fn mid_zone_nothing_spans(
    zones: Seq<ZoneRect>,
    x: Binary64,
    y: Binary64,
    edge_threshold: Binary64,
    indices: Seq<usize>,
    rect: ZoneRect,
    home: int,
)
    requires
        zones.len() <= usize::MAX,
        0 <= home < zones.len(),
        forall|j: int|
            0 <= j < zones.len() && j != home ==> !(#[trigger] zones[j]).contains(x, y) && !zones[j].inflated(
                edge_threshold,
            ).contains(x, y),
        targets(zones, x, y, edge_threshold, Some((indices, rect))),
    ensures
        indices == seq![home as usize],
        rect == zones[home],
{
    lemma_containing(zones, zones.len(), x, y);
    lemma_touching(zones, zones.len(), x, y, edge_threshold);
    targets_are_spans(zones, x, y, edge_threshold, indices, rect);
    let strict = containing(zones, zones.len(), x, y);
    let near = touching(zones, zones.len(), x, y, edge_threshold);
    assert forall|k: int| 0 <= k < indices.len() implies #[trigger] indices[k] == home by {
        if strict.len() > 1 {
            let s = strict[0];
            let t = strict[1];
            assert(zones[s as int].contains(x, y));
            assert(zones[t as int].contains(x, y));
        } else if edge_threshold.at_most(Binary64 { bits: ZERO }) {
            let s = strict[0];
            assert(zones[s as int].contains(x, y));
        } else {
            let n = near[k];
            assert(zones[n as int].inflated(edge_threshold).contains(x, y));
        }
    }
    assert(indices.len() == 1) by {
        if indices.len() > 1 {
            assert(indices[0] == home && indices[1] == home);
        }
    }
    assert(indices =~= seq![home as usize]);
    assert(indices.drop_last().len() == 0);
    assert(bounding(zones, indices.drop_last()) is None);
    assert(bounding(zones, indices) == Some(zones[home]));
}

/// A point outside the area of the zones, over a panel say, hits nothing.
pub proof fn points_outside_the_area_hit_nothing(context: ZoneContext, point: PixelPoint, hit: Option<ZoneHit>)
    requires
        !context.area.contains(point),
        context.hits(point, hit),
    ensures
        hit is None,
{
}

/// A hit on a single zone has the geometry of that zone.
pub proof fn single_hits_have_the_zone_geometry(context: ZoneContext, point: PixelPoint, hit: ZoneHit, i: usize)
    requires
        context.layout.zones@.len() <= usize::MAX,
        context.hits(point, Some(hit)),
        hit.zones@ == seq![i],
    ensures
        i < context.layout.zones@.len(),
        hit.rect == context.layout.zones@[i as int],
        hit.geometry == zone_pixels(context.layout.zones@[i as int], context.area, context.gaps.1),
{
    let (fx, fy) = fraction_in(context.area, point)->0;
    targets_are_spans(context.layout.zones@, fx, fy, context.edge_threshold, hit.zones@, hit.rect);
    let k = hit.zones@[0];
    assert(hit.zones@.drop_last().len() == 0);
    assert(bounding(context.layout.zones@, hit.zones@.drop_last()) is None);
}

/// A span that is grown names zones of the layout in ascending order, fills the
/// rectangle that it is placed as, and has more zones than before.
pub proof fn growing_makes_progress(zones: Seq<ZoneRect>, span: Seq<usize>, next: Seq<usize>)
    requires
        zones.len() <= usize::MAX,
        span.len() > 0,
        grown(zones, span, Some(next)),
    ensures
        next.len() > span.len(),
        fills(zones, next),
        ascending(next),
        forall|k: int| 0 <= k < next.len() ==> #[trigger] next[k] < zones.len(),
{
    reveal(extension);
    let i = choose|i: usize| i < zones.len() && !span.contains(i) && #[trigger] extension(zones, span, i) == Some(next);
    let rect = bounding(zones, span.push(i))->0;
    lemma_swallowed(zones, zones.len(), rect);
    assert forall|k: int| 0 <= k < next.len() implies #[trigger] next[k] < zones.len() by {
        assert(next.contains(next[k]));
    }
}

/// A span over the whole layout cannot grow.
pub proof fn a_whole_span_cannot_grow(zones: Seq<ZoneRect>, indices: Seq<usize>)
    requires
        0 < zones.len() <= usize::MAX,
        forall|i: usize| i < zones.len() ==> #[trigger] indices.contains(i),
    ensures
        grown(zones, chosen(indices, zones.len()), None),
        forall|next: Option<Seq<usize>>| grown(zones, chosen(indices, zones.len()), next) ==> next is None,
{
    let span = chosen(indices, zones.len());
    lemma_chosen(indices, zones.len());
    assert(indices.contains(0));
    assert(span.contains(0));
    assert(span.len() > 0);
    assert forall|j: usize| j < zones.len() implies #[trigger] span.contains(j) by {
        assert(indices.contains(j));
    }
}

/// A window that is in no zone enters the layout at the first one when its span is
/// grown.
pub proof fn growing_nothing_enters_at_the_first_zone(zones: Seq<ZoneRect>, next: Option<Seq<usize>>)
    requires
        grown(zones, Seq::<usize>::empty(), next),
    ensures
        zones.len() > 0 ==> next == Some(seq![0usize]),
        zones.len() == 0 ==> next is None,
{
}

/// A span that is shrunk is a shorter beginning of what it was, names at least one
/// zone, and fills the rectangle that it is placed as.
pub proof fn shrinking_keeps_a_beginning(zones: Seq<ZoneRect>, span: Seq<usize>)
    ensures
        shrunk(zones, span) matches Some(next) ==> {
            &&& 1 <= next.len() < span.len()
            &&& next == span.take(next.len() as int)
            &&& fills(zones, next)
        },
        span.len() <= 1 ==> shrunk(zones, span) is None,
    decreases span.len(),
{
    if span.len() > 1 {
        let less = span.drop_last();
        shrinking_keeps_a_beginning(zones, less);
        if let Some(next) = shrunk(zones, span) {
            if fills(zones, less) {
                assert(less =~= span.take(less.len() as int));
            } else {
                assert(less.take(next.len() as int) =~= span.take(next.len() as int));
            }
        }
    }
}

/// Cycling by a number of zones and back by the same number leads back.
pub proof fn cycling_back_undoes_cycling(index: int, len: int, delta: int)
    requires
        0 <= index < len,
    ensures
        ((index + delta) % len - delta) % len == index,
{
    let q = (index + delta) / len;
    let r = (index + delta) % len;
    vstd::arithmetic::div_mod::lemma_fundamental_div_mod(index + delta, len);
    assert(r - delta == (-q) * len + index) by (nonlinear_arith)
        requires
            index + delta == len * q + r,
    ;
    vstd::arithmetic::div_mod::lemma_fundamental_div_mod_converse(r - delta, len, -q, index);
}

/// Cycling forwards often enough reaches every zone, and stays within the layout.
pub proof fn cycling_reaches_every_zone(index: int, target: int, len: int)
    requires
        0 <= index < len,
        0 <= target < len,
    ensures
        exists|delta: int| 0 <= delta < len && #[trigger] ((index + delta) % len) == target,
{
    let delta = if target >= index {
        target - index
    } else {
        target - index + len
    };
    if target >= index {
        vstd::arithmetic::div_mod::lemma_small_mod(target as nat, len as nat);
    } else {
        vstd::arithmetic::div_mod::lemma_fundamental_div_mod_converse(index + delta, len, 1, target);
    }
    assert((index + delta) % len == target);
}

/// Near the edge that zones share, all of them are targeted: a point that is in no
/// more than one zone, but in several once they are grown by the threshold, targets
/// each of those.
pub proof fn near_a_shared_edge_every_neighbour_is_targeted(
    zones: Seq<ZoneRect>,
    x: Binary64,
    y: Binary64,
    edge_threshold: Binary64,
    found: Option<(Seq<usize>, ZoneRect)>,
    a: int,
)
    requires
        zones.len() <= usize::MAX,
        !edge_threshold.at_most(Binary64 { bits: ZERO }),
        forall|i: int, j: int|
            #![trigger zones[i], zones[j]]
            0 <= i < j < zones.len() ==> !(zones[i].contains(x, y) && zones[j].contains(x, y)),
        0 <= a < zones.len(),
        zones[a].inflated(edge_threshold).contains(x, y),
        targets(zones, x, y, edge_threshold, found),
    ensures
        found matches Some((indices, rect)) && indices.contains(a as usize),
{
    lemma_containing(zones, zones.len(), x, y);
    lemma_touching(zones, zones.len(), x, y, edge_threshold);
    let strict = containing(zones, zones.len(), x, y);
    let near = touching(zones, zones.len(), x, y, edge_threshold);
    if strict.len() > 1 {
        let s = strict[0];
        let t = strict[1];
        assert(zones[s as int].contains(x, y) && zones[t as int].contains(x, y));
        assert(false);
    }
    assert(near.contains(a as usize));
    let k = choose|k: int| 0 <= k < near.len() && near[k] == a as usize;
    lemma_bounding_exists(zones, near, k);
}

/// Zones that are there have a bounding rectangle.
proof fn lemma_bounding_exists(zones: Seq<ZoneRect>, indices: Seq<usize>, k: int)
    requires
        0 <= k < indices.len(),
        indices[k] < zones.len(),
    ensures
        bounding(zones, indices) is Some,
    decreases indices.len(),
{
    if k < indices.len() - 1 {
        assert(indices.drop_last()[k] == indices[k]);
        lemma_bounding_exists(zones, indices.drop_last(), k);
    }
}

/// Growing takes the smallest step there is. Where taking in a zone that the span has
/// not leads to a rectangle that is filled by the zones in it, more than the span had,
/// the span can grow, and what it grows to is placed as no larger a rectangle. Of two
/// equally large ones it is the one whose list of zones comes first.
pub proof fn growing_takes_the_smallest_step(
    zones: Seq<ZoneRect>,
    span: Seq<usize>,
    next: Option<Seq<usize>>,
    i: usize,
    rect: ZoneRect,
    other: Seq<usize>,
)
    requires
        zones.len() <= usize::MAX,
        span.len() > 0,
        grown(zones, span, next),
        i < zones.len(),
        !span.contains(i),
        bounding(zones, span.push(i)) == Some(rect),
        ascending(other),
        forall|j: usize| #[trigger] other.contains(j) <==> j < zones.len() && inside(zones[j as int], rect),
        fills(zones, other),
        other.len() > span.len(),
    ensures
        next is Some,
        bounding(zones, next->0) is Some,
        bounding(zones, next->0)->0.area().value() <= bounding(zones, other)->0.area().value(),
        bounding(zones, next->0)->0.area() == bounding(zones, other)->0.area() ==> next->0 == other || exists|k: int|
            {
                &&& 0 <= k < other.len()
                &&& k <= next->0.len()
                &&& next->0.take(k) == #[trigger] other.take(k)
                &&& k == next->0.len() || next->0[k] < other[k]
            },
{
    lemma_swallowed(zones, zones.len(), rect);
    lemma_same_members(swallowed(zones, zones.len(), rect), other);
    assert(extension(zones, span, i) == Some(other)) by {
        reveal(extension);
    }
    assert(next is Some);
    lemma_grown(zones, span, next->0, i, other);
}

/// What a span grows to fills its rectangle, and is not outdone by another extension.
proof fn lemma_grown(zones: Seq<ZoneRect>, span: Seq<usize>, best: Seq<usize>, i: usize, other: Seq<usize>)
    requires
        span.len() > 0,
        grown(zones, span, Some(best)),
        i < zones.len(),
        !span.contains(i),
        extension(zones, span, i) == Some(other),
        fills(zones, other),
    ensures
        bounding(zones, best) is Some,
        bounding(zones, best)->0.area().value() <= bounding(zones, other)->0.area().value(),
        bounding(zones, best)->0.area() == bounding(zones, other)->0.area() ==> best == other || exists|k: int|
            {
                &&& 0 <= k < other.len()
                &&& k <= best.len()
                &&& best.take(k) == #[trigger] other.take(k)
                &&& k == best.len() || best[k] < other[k]
            },
{
    let k = choose|k: usize| k < zones.len() && !span.contains(k) && #[trigger] extension(zones, span, k) == Some(best);
    assert(fills(zones, best)) by {
        reveal(extension);
    }
    let a = bounding(zones, best)->0.area();
    let b = bounding(zones, other)->0.area();
    assert(!preferred(zones, other, best));
    assert(!b.precedes(a) && (!a.precedes(b) ==> !comes_first(other, best, 0))) by {
        reveal(preferred);
    }
    lemma_compared(total_area(zones, best), a);
    lemma_compared(total_area(zones, other), b);
    lemma_order_of_values(a, b);
    if a == b && best != other {
        assert(best.take(0) == other.take(0));
        lemma_first_difference(best, other, 0);
    }
}

/// What differs from something by little is a number.
proof fn lemma_compared(x: Binary64, y: Binary64)
    requires
        x.minus(y).absolute().below(Binary64 { bits: EPSILON }),
    ensures
        !y.is_nan(),
{
    reveal(Binary64::spec_plus);
    lemma_negated(y);
}

/// Two ascending lists of the same indices are the same.
proof fn lemma_same_members(a: Seq<usize>, b: Seq<usize>)
    requires
        ascending(a),
        ascending(b),
        forall|j: usize|
            #![trigger a.contains(j)]
            #![trigger b.contains(j)]
            a.contains(j) <==> b.contains(j),
    ensures
        a == b,
    decreases a.len(),
{
    if a.len() == 0 {
        if b.len() > 0 {
            assert(b.contains(b[0]));
        }
        assert(a =~= b);
    } else {
        let x = a.last();
        assert(a.contains(x));
        let q = choose|q: int| 0 <= q < b.len() && b[q] == x;
        let y = b.last();
        assert(b.contains(y));
        let p = choose|p: int| 0 <= p < a.len() && a[p] == y;
        assert(x == y);
        let c = a.drop_last();
        let d = b.drop_last();
        assert forall|j: usize|
            #![trigger c.contains(j)]
            #![trigger d.contains(j)]
            c.contains(j) <==> d.contains(j) by {
            if c.contains(j) {
                let m = choose|m: int| 0 <= m < c.len() && c[m] == j;
                assert(a[m] == j);
                assert(a.contains(j));
                let n = choose|n: int| 0 <= n < b.len() && b[n] == j;
                assert(n < b.len() - 1);
                assert(d[n] == j);
            }
            if d.contains(j) {
                let m = choose|m: int| 0 <= m < d.len() && d[m] == j;
                assert(b[m] == j);
                assert(b.contains(j));
                let n = choose|n: int| 0 <= n < a.len() && a[n] == j;
                assert(n < a.len() - 1);
                assert(c[n] == j);
            }
        }
        lemma_same_members(c, d);
        assert(a =~= c.push(x));
        assert(b =~= d.push(x));
    }
}

/// A number that does not come before another one is not less.
proof fn lemma_order_of_values(a: Binary64, b: Binary64)
    requires
        !a.is_nan(),
        !b.is_nan(),
        !b.precedes(a),
    ensures
        a.value() <= b.value(),
{
    lemma_units_ordered(a.code(), b.code());
    lemma_units_ordered(b.code(), a.code());
}

/// Where a list that does not come after another one differs from it first.
proof fn lemma_first_difference(a: Seq<usize>, b: Seq<usize>, from: int)
    requires
        0 <= from <= a.len(),
        from <= b.len(),
        a.take(from) == b.take(from),
        a != b,
        !comes_first(b, a, from),
    ensures
        exists|k: int|
            {
                &&& 0 <= k < b.len()
                &&& k <= a.len()
                &&& a.take(k) == #[trigger] b.take(k)
                &&& k == a.len() || a[k] < b[k]
            },
    decreases a.len() - from,
{
    if from == a.len() {
        if from == b.len() {
            assert(a =~= a.take(from));
            assert(b =~= b.take(from));
        }
        assert(a.take(from) == b.take(from));
    } else if a[from] == b[from] {
        assert(a.take(from + 1) =~= a.take(from).push(a[from]));
        assert(b.take(from + 1) =~= b.take(from).push(b[from]));
        lemma_first_difference(a, b, from + 1);
    }
}

/// The usable zones of a layout are those that are valid, in the order they are in.
pub proof fn usable_zones_are_the_valid_ones_in_order(zones: Seq<ZoneRect>)
    ensures
        usable(zones) == zones.filter(|zone: ZoneRect| zone.is_valid()),
    decreases zones.len(),
{
    reveal(Seq::filter);
    if zones.len() > 0 {
        usable_zones_are_the_valid_ones_in_order(zones.drop_last());
    }
}

/// Where zones overlap, the target is no larger than any of the zones that contain the
/// point, and of equally large ones it is the first.
pub proof fn the_smallest_of_overlapping_zones_is_targeted(
    zones: Seq<ZoneRect>,
    x: Binary64,
    y: Binary64,
    edge_threshold: Binary64,
    indices: Seq<usize>,
    rect: ZoneRect,
    a: int,
    b: int,
)
    requires
        zones.len() <= usize::MAX,
        0 <= a < zones.len(),
        0 <= b < zones.len(),
        a != b,
        zones[a].contains(x, y),
        zones[b].contains(x, y),
        targets(zones, x, y, edge_threshold, Some((indices, rect))),
    ensures
        indices.len() == 1,
        rect == zones[indices[0] as int],
        rect.contains(x, y),
        rect.area().value() <= zones[a].area().value(),
        rect.area().value() == zones[a].area().value() ==> indices[0] <= a,
{
    if a < b {
        overlapping_zones_suppress_spanning(zones, x, y, edge_threshold, indices, rect, a, b);
    } else {
        overlapping_zones_suppress_spanning(zones, x, y, edge_threshold, indices, rect, b, a);
    }
    lemma_area_of_container(zones[a], x, y);
    lemma_area_of_container(rect, x, y);
}

/// Two zones overlap exactly where there is a point that both contain.
pub proof fn zones_overlap_where_both_contain_a_point(a: ZoneRect, b: ZoneRect, x: Binary64, y: Binary64)
    requires
        a.x.below(a.right()),
        a.y.below(a.bottom()),
        b.x.below(b.right()),
        b.y.below(b.bottom()),
    ensures
        a.contains(x, y) && b.contains(x, y) ==> a.overlaps(&b),
        a.overlaps(&b) ==> a.contains(a.x.greatest(b.x), a.y.greatest(b.y)) && b.contains(
            a.x.greatest(b.x),
            a.y.greatest(b.y),
        ),
{
}

/// A span is shrunk no further than it has to be: no longer beginning of it fills its
/// rectangle, and where it is not shrunk at all, none does.
pub proof fn spans_shrink_no_further_than_needed(zones: Seq<ZoneRect>, span: Seq<usize>, n: int)
    requires
        1 <= n < span.len(),
        fills(zones, span.take(n)),
    ensures
        shrunk(zones, span) matches Some(next) && n <= next.len(),
    decreases span.len(),
{
    let less = span.drop_last();
    if n == less.len() {
        assert(less =~= span.take(n));
    } else if !fills(zones, less) {
        assert(less.take(n) =~= span.take(n));
        spans_shrink_no_further_than_needed(zones, less, n);
    }
}

/// Zones fill their rectangle exactly where their areas add up to its area, up to the
/// tolerance.
pub proof fn filled_rectangles_have_nothing_left_over(
    zones: Seq<ZoneRect>,
    indices: Seq<usize>,
    rect: ZoneRect,
    total: Binary64,
)
    requires
        bounding(zones, indices) == Some(rect),
        total == total_area(zones, indices),
        total.is_finite(),
        rect.area().is_finite(),
        0 <= total.value() <= 2 * one_units(),
        0 <= rect.area().value() <= 2 * one_units(),
    ensures
        fills(zones, indices) ==> apart(total.value(), rect.area().value()) < tolerance() + slack(),
        apart(total.value(), rect.area().value()) < tolerance() - slack() ==> fills(zones, indices),
{
    lemma_small_minus(total, rect.area());
    lemma_signed(false, total.minus(rect.area()).code());
}

/// A zone counts as inside a rectangle as long as no edge of it sticks out by more than
/// the tolerance.
pub proof fn zones_inside_stick_out_by_the_tolerance(zone: ZoneRect, rect: ZoneRect)
    requires
        zone.is_valid(),
        rect.is_valid(),
    ensures
        inside(zone, rect) ==> {
            &&& rect.x.value() - zone.x.value() <= tolerance() + slack()
            &&& rect.y.value() - zone.y.value() <= tolerance() + slack()
            &&& zone.right().value() - rect.right().value() <= tolerance() + slack()
            &&& zone.bottom().value() - rect.bottom().value() <= tolerance() + slack()
        },
        rect.x.value() - zone.x.value() <= tolerance() - slack() && rect.y.value() - zone.y.value() <= tolerance()
            - slack() && zone.right().value() - rect.right().value() <= tolerance() - slack() && zone.bottom().value()
            - rect.bottom().value() <= tolerance() - slack() ==> inside(zone, rect),
{
    let eps = Binary64 { bits: EPSILON };
    lemma_magnitudes();
    lemma_valid_zone(zone);
    lemma_valid_zone(rect);
    lemma_small_minus(rect.x, eps);
    lemma_small_minus(rect.y, eps);
    lemma_small_plus(rect.right(), eps);
    lemma_small_plus(rect.bottom(), eps);
}

/// A zone that is longer than the tolerance on both sides and keeps to the unit square,
/// up to the tolerance, is valid. One that is no longer, or does not, is not.
pub proof fn zones_within_the_unit_square_are_valid(zone: ZoneRect)
    requires
        zone.x.is_finite(),
        zone.y.is_finite(),
        zone.w.is_finite(),
        zone.h.is_finite(),
    ensures
        tolerance() < zone.w.value() && tolerance() < zone.h.value() && -tolerance() <= zone.x.value() && -tolerance()
            <= zone.y.value() && zone.x.value() + zone.w.value() <= one_units() + tolerance() - 2 * slack()
            && zone.y.value() + zone.h.value() <= one_units() + tolerance() - 2 * slack() ==> zone.is_valid(),
        zone.is_valid() ==> {
            &&& tolerance() < zone.w.value()
            &&& tolerance() < zone.h.value()
            &&& -tolerance() <= zone.x.value()
            &&& -tolerance() <= zone.y.value()
            &&& zone.x.value() + zone.w.value() <= one_units() + tolerance() + 2 * slack()
            &&& zone.y.value() + zone.h.value() <= one_units() + tolerance() + 2 * slack()
        },
{
    let eps = Binary64 { bits: EPSILON };
    let one = Binary64 { bits: ONE };
    lemma_magnitudes();
    lemma_negated(eps);
    lemma_small_plus(one, eps);
    if zone.is_valid() {
        lemma_valid_zone(zone);
    } else if tolerance() < zone.w.value() && tolerance() < zone.h.value() && -tolerance() <= zone.x.value()
        && -tolerance() <= zone.y.value() && zone.x.value() + zone.w.value() <= one_units() + tolerance() - 2 * slack()
        && zone.y.value() + zone.h.value() <= one_units() + tolerance() - 2 * slack() {
        lemma_small_plus(zone.x, zone.w);
        lemma_small_plus(zone.y, zone.h);
    }
}

/// The area of a zone is its width times its height, but for what rounding loses.
pub proof fn areas_are_width_times_height(zone: ZoneRect)
    requires
        zone.is_valid(),
    ensures
        zone.area().is_finite(),
        0 <= zone.area().value() <= 2 * one_units(),
        apart(zone.area().value() * one_units(), zone.w.value() * zone.h.value()) <= (4 * slack()) * one_units(),
{
    let one = one_units() as int;
    let s = slack();
    let v = zone.area().value();
    let a = zone.w.value();
    let b = zone.h.value();
    lemma_magnitudes();
    lemma_valid_zone(zone);
    lemma_small_times(zone.w, zone.h);
    let m = one + 3 * tolerance();
    assert(0 < a * b <= m * m) by (nonlinear_arith)
        requires
            0 < a <= m,
            0 < b <= m,
    ;
    assert(m * m <= (2 * one - 4 * s) * one) by (nonlinear_arith)
        requires
            m == one + 3 * tolerance(),
            16 * tolerance() < one,
            16 * s < tolerance(),
            0 < s,
    ;
    assert(v <= 2 * one) by (nonlinear_arith)
        requires
            v * one <= (2 * one - 4 * s) * one + (4 * s) * one,
            one > 0,
    ;
    assert(v >= 0) by {
        reveal(Binary64::spec_times);
        let n = units(zone.w.code()) * units(zone.h.code());
        lemma_rounded_limit(n, one_units());
        lemma_signed(false, rounded(n, one_units()));
    }
}

/// The areas of the zones with these indices, added up without rounding.
pub open spec fn exact_areas(zones: Seq<ZoneRect>, indices: Seq<usize>) -> int
    decreases indices.len(),
{
    if indices.len() == 0 {
        0
    } else {
        let zone = zones[indices.last() as int];
        exact_areas(zones, indices.drop_last()) + zone.w.value() * zone.h.value()
    }
}

/// Areas add up to the sum of each width times each height, but for what rounding loses.
pub proof fn areas_add_up(zones: Seq<ZoneRect>, indices: Seq<usize>)
    requires
        indices.len() <= 0x1_0000,
        forall|k: int| 0 <= k < indices.len() ==> #[trigger] indices[k] < zones.len(),
        forall|i: int| 0 <= i < zones.len() ==> (#[trigger] zones[i]).is_valid(),
    ensures
        total_area(zones, indices).is_finite(),
        0 <= total_area(zones, indices).value() <= 3 * (indices.len() * one_units()),
        apart(total_area(zones, indices).value() * one_units(), exact_areas(zones, indices)) <= (0x3_0004 * (
        indices.len() * slack())) * one_units(),
    decreases indices.len(),
{
    let one = one_units() as int;
    let s = slack();
    let n = indices.len() as int;
    lemma_constants();
    lemma_slack();
    if n == 0 {
        assert((0x3_0004 * (n * s)) * one == 0) by (nonlinear_arith)
            requires
                n == 0,
        ;
        assert(0 * one == 0);
    } else {
        let fewer = indices.drop_last();
        assert forall|k: int| 0 <= k < fewer.len() implies #[trigger] fewer[k] < zones.len() by {
            assert(indices[k] < zones.len());
        }
        areas_add_up(zones, fewer);
        let i = indices[n - 1];
        let zone = zones[i as int];
        areas_are_width_times_height(zone);
        let a = total_area(zones, fewer);
        let b = zone.area();
        let v = a.value() + b.value();
        assert(n * one == (n - 1) * one + one) by (nonlinear_arith);
        assert(n * s == (n - 1) * s + s) by (nonlinear_arith);
        assert(n * one <= 0x1_0000 * one) by (nonlinear_arith)
            requires
                n <= 0x1_0000,
                one > 0,
        ;
        lemma_pow2_adds(18, 1074);
        lemma2_to64();
        lemma_pow2_strictly_increases(1092, 1990);
        lemma_plus_near(a, b);
        let t = a.plus(b).value();
        let off = apart(t, v);
        assert(off <= 0x3_0000 * s) by (nonlinear_arith)
            requires
                2 * STEPS * off <= v,
                v <= 0x3_0000 * one,
                one == STEPS * s,
                STEPS == 0x10_0000_0000_0000,
                s > 0,
        ;
        assert(t >= 0) by {
            crate::precision::lemma_plus_monotone(Binary64 { bits: ZERO }, Binary64 { bits: ZERO }, a, b);
            lemma_units_small(0);
            crate::precision::lemma_plus_exact(Binary64 { bits: ZERO }, Binary64 { bits: ZERO }, 0);
        }
        assert(0x3_0000 * s <= one) by (nonlinear_arith)
            requires
                one == STEPS * s,
                STEPS == 0x10_0000_0000_0000,
                s > 0,
        ;
        assert(apart(t * one, v * one) <= (0x3_0000 * s) * one) by (nonlinear_arith)
            requires
                apart(t, v) <= 0x3_0000 * s,
                one > 0,
        ;
        assert(v * one == a.value() * one + b.value() * one) by (nonlinear_arith)
            requires
                v == a.value() + b.value(),
        ;
        assert((0x3_0004 * (n * s)) * one == (0x3_0004 * ((n - 1) * s)) * one + (0x3_0000 * s) * one + (4 * s) * one)
            by (nonlinear_arith);
    }
}

/// Cycling leads to a zone of the layout, as many places on as asked for, going round as
/// often as it takes; cycling back from there leads back. A window in no zone enters at
/// the first zone forwards and at the last one backwards. Only a layout without zones has
/// nowhere to go.
pub proof fn cycling_goes_round_the_layout(current: Option<usize>, len: usize, delta: i32)
    requires
        delta > i32::MIN,
    ensures
        cycled(current, len, delta) is None <==> len == 0,
        cycled(current, len, delta) matches Some(next) ==> 0 <= next < len,
        len > 0 && current is None && delta >= 0 ==> cycled(current, len, delta) == Some(0int),
        len > 0 && current is None && delta < 0 ==> cycled(current, len, delta) == Some(len - 1),
        len > 0 && current is Some ==> exists|rounds: int|
            cycled(current, len, delta)->0 == current->0 + delta + #[trigger] (rounds * len),
        len > 0 && (current matches Some(index) && index < len) ==> cycled(
            Some(cycled(current, len, delta)->0 as usize),
            len,
            (-delta) as i32,
        ) == Some(current->0 as int),
{
    if len > 0 {
        if let Some(index) = current {
            let l = len as int;
            let sum = index + delta;
            let q = sum / l;
            vstd::arithmetic::div_mod::lemma_fundamental_div_mod(sum, l);
            assert((-q) * l == -(l * q)) by (nonlinear_arith);
            assert(cycled(current, len, delta)->0 == sum + (-q) * l);
            if index < len {
                cycling_back_undoes_cycling(index as int, l, delta as int);
            }
        }
    }
}

} // verus!
