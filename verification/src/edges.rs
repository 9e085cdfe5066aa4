//! Which edges of zones are boundaries that can be dragged.

use crate::alignment::lemma_constants;
use crate::binary64::{lemma_signed, one_units, Binary64};
use crate::dividers::{
    begins_at, boundaries, close, dividers_are_the_interior_boundaries, edges, ends_at, is_interior, is_known,
    with_edge, Axis, Divider,
};
use crate::precision::{apart, lemma_small_minus, slack};
use crate::rect::{ZoneRect, EPSILON, ONE};
use crate::tiling::lemma_close;
use crate::tolerance::{lemma_magnitudes, lemma_valid_zone, tolerance};
use crate::undoing::lemma_close_apart;
use vstd::prelude::*;

verus! {

/// Whether a boundary is an edge of one of some zones.
spec fn is_edge(zones: Seq<ZoneRect>, divider: Divider) -> bool {
    exists|i: int, e: int| 0 <= i < zones.len() && 0 <= e < 4 && #[trigger] edges(zones[i])[e] == divider
}

/// Every boundary is an edge of a zone.
proof fn lemma_is_edge(zones: Seq<ZoneRect>, n: nat, k: int)
    requires
        n <= zones.len(),
        0 <= k < boundaries(zones, n).len(),
    ensures
        is_edge(zones, boundaries(zones, n)[k]),
    decreases n,
{
    if n > 0 {
        let before = boundaries(zones, (n - 1) as nat);
        let e = edges(zones[n - 1]);
        let a = with_edge(zones, before, e[0]);
        let b = with_edge(zones, a, e[1]);
        let c = with_edge(zones, b, e[2]);
        let d = with_edge(zones, c, e[3]);
        assert(d == boundaries(zones, n));
        if k < before.len() {
            lemma_is_edge(zones, (n - 1) as nat, k);
            assert(d[k] == before[k]);
        } else {
            assert(d[k] == e[0] || d[k] == e[1] || d[k] == e[2] || d[k] == e[3]);
            assert(edges(zones[n - 1])[0] == e[0] && edges(zones[n - 1])[1] == e[1] && edges(zones[n - 1])[2] == e[2]
                && edges(zones[n - 1])[3] == e[3]);
        }
    }
}

/// An edge of a valid zone lies within the screen, up to twice the tolerance.
proof fn lemma_edge_place(zones: Seq<ZoneRect>, divider: Divider)
    requires
        is_edge(zones, divider),
        forall|i: int| 0 <= i < zones.len() ==> (#[trigger] zones[i]).is_valid(),
    ensures
        divider.position.is_finite(),
        -2 * tolerance() <= divider.position.value() <= one_units() + 2 * tolerance(),
{
    let (o, e) = choose|o: int, e: int|
        0 <= o < zones.len() && 0 <= e < 4 && #[trigger] edges(zones[o])[e] == divider;
    let zone = zones[o];
    lemma_magnitudes();
    lemma_valid_zone(zone);
}

/// A boundary has zones on both sides: one that ends at it and one that begins there, up
/// to the tolerance. An upright one runs along right and left edges, a level one along
/// lower and upper ones. None runs along an edge of the screen.
pub proof fn boundaries_have_zones_on_both_sides(zones: Seq<ZoneRect>, k: int)
    requires
        0 <= k < boundaries(zones, zones.len()).len(),
        forall|i: int| 0 <= i < zones.len() ==> (#[trigger] zones[i]).is_valid(),
    ensures
        ({
            let boundary = boundaries(zones, zones.len())[k];
            let at = boundary.position.value();
            &&& tolerance() < at < one_units() - tolerance() + slack()
            &&& boundary.axis == Axis::Vertical ==> {
                &&& exists|i: int|
                    0 <= i < zones.len() && apart((#[trigger] zones[i]).right().value(), at) < tolerance() + slack()
                &&& exists|i: int|
                    0 <= i < zones.len() && apart((#[trigger] zones[i]).x.value(), at) < tolerance() + slack()
            }
            &&& boundary.axis == Axis::Horizontal ==> {
                &&& exists|i: int|
                    0 <= i < zones.len() && apart((#[trigger] zones[i]).bottom().value(), at) < tolerance() + slack()
                &&& exists|i: int|
                    0 <= i < zones.len() && apart((#[trigger] zones[i]).y.value(), at) < tolerance() + slack()
            }
        }),
{
    let boundary = boundaries(zones, zones.len())[k];
    lemma_magnitudes();
    lemma_constants();
    lemma_small_minus(Binary64 { bits: ONE }, Binary64 { bits: EPSILON });
    assert(is_interior(zones, boundary)) by {
        dividers_are_the_interior_boundaries(zones, zones.len());
    }
    lemma_is_edge(zones, zones.len(), k);
    lemma_edge_place(zones, boundary);
    let i = choose|i: int| 0 <= i < zones.len() && ends_at(#[trigger] zones[i], boundary);
    let j = choose|j: int| 0 <= j < zones.len() && begins_at(#[trigger] zones[j], boundary);
    assert(zones[i].is_valid() && zones[j].is_valid());
    lemma_valid_zone(zones[i]);
    lemma_valid_zone(zones[j]);
    if boundary.axis == Axis::Vertical {
        lemma_close_apart(zones[i].right(), boundary.position);
        lemma_close_apart(zones[j].x, boundary.position);
    } else {
        lemma_close_apart(zones[i].bottom(), boundary.position);
        lemma_close_apart(zones[j].y, boundary.position);
    }
}

/// Places that differ by less than the tolerance are the same boundary.
proof fn lemma_near_is_close(a: Binary64, b: Binary64)
    requires
        a.is_finite(),
        b.is_finite(),
        apart(a.value(), b.value()) < tolerance() - slack(),
    ensures
        close(a, b),
{
    reveal(close);
    lemma_magnitudes();
    lemma_small_minus(a, b);
    lemma_signed(false, a.minus(b).code());
}

/// Whether a boundary is found along an axis at a place, up to the tolerance.
pub open spec fn is_found(found: Seq<Divider>, axis: Axis, place: int) -> bool {
    exists|k: int|
        0 <= k < found.len() && (#[trigger] found[k]).axis == axis && apart(found[k].position.value(), place)
            < tolerance() + slack()
}

/// Where one zone ends and another begins, up to the tolerance and away from the edges
/// of the screen, there is a boundary: an upright one between zones side by side, a level
/// one between zones above each other.
pub proof fn shared_edges_are_boundaries(zones: Seq<ZoneRect>, i: int, j: int)
    requires
        0 <= i < zones.len(),
        0 <= j < zones.len(),
        forall|k: int| 0 <= k < zones.len() ==> (#[trigger] zones[k]).is_valid(),
    ensures
        apart(zones[i].right().value(), zones[j].x.value()) < tolerance() - slack() && 2 * tolerance()
            < zones[i].right().value() < one_units() - 2 * tolerance() ==> is_found(
            boundaries(zones, zones.len()),
            Axis::Vertical,
            zones[i].right().value(),
        ),
        apart(zones[i].bottom().value(), zones[j].y.value()) < tolerance() - slack() && 2 * tolerance()
            < zones[i].bottom().value() < one_units() - 2 * tolerance() ==> is_found(
            boundaries(zones, zones.len()),
            Axis::Horizontal,
            zones[i].bottom().value(),
        ),
{
    let a = zones[i];
    let b = zones[j];
    lemma_magnitudes();
    lemma_valid_zone(a);
    lemma_valid_zone(b);
    lemma_close(a.right(), a.right());
    lemma_close(a.bottom(), a.bottom());
    if apart(a.right().value(), b.x.value()) < tolerance() - slack() && 2 * tolerance() < a.right().value()
        < one_units() - 2 * tolerance() {
        lemma_near_is_close(b.x, a.right());
        let edge = Divider { axis: Axis::Vertical, position: a.right() };
        assert(edges(zones[i])[1] == edge);
        lemma_found(zones, i, j, 1, edge);
    }
    if apart(a.bottom().value(), b.y.value()) < tolerance() - slack() && 2 * tolerance() < a.bottom().value()
        < one_units() - 2 * tolerance() {
        lemma_near_is_close(b.y, a.bottom());
        let edge = Divider { axis: Axis::Horizontal, position: a.bottom() };
        assert(edges(zones[i])[3] == edge);
        lemma_found(zones, i, j, 3, edge);
    }
}

proof fn lemma_found(zones: Seq<ZoneRect>, i: int, j: int, e: int, edge: Divider)
    requires
        0 <= i < zones.len(),
        0 <= j < zones.len(),
        0 <= e < 4,
        edges(zones[i])[e] == edge,
        forall|k: int| 0 <= k < zones.len() ==> (#[trigger] zones[k]).is_valid(),
        ends_at(zones[i], edge),
        begins_at(zones[j], edge),
        edge.position.is_finite(),
        close(edge.position, edge.position),
        2 * tolerance() < edge.position.value() < one_units() - 2 * tolerance(),
    ensures
        is_found(boundaries(zones, zones.len()), edge.axis, edge.position.value()),
{
    let found = boundaries(zones, zones.len());
    lemma_magnitudes();
    lemma_constants();
    lemma_small_minus(Binary64 { bits: ONE }, Binary64 { bits: EPSILON });
    assert(is_interior(zones, edge));
    assert(is_known(found, edge)) by {
        dividers_are_the_interior_boundaries(zones, zones.len());
        assert(is_known(found, edges(zones[i])[e]));
    }
    let k = choose|k: int|
        0 <= k < found.len() && (#[trigger] found[k]).axis == edge.axis && close(found[k].position, edge.position);
    lemma_is_edge(zones, zones.len(), k);
    lemma_edge_place(zones, found[k]);
    lemma_close_apart(found[k].position, edge.position);
    assert(found[k].axis == edge.axis);
}

} // verus!
