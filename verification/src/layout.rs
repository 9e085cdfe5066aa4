//! Zone layouts: which zone a point means, and what several zones add up to.

use crate::binary64::Binary64;
use crate::rect::{fixed, lemma_area_of_container, ZoneRect, EPSILON, ZERO};
use vstd::prelude::*;

verus! {

/// The resolved drop target for a drag: one or more zones and the rectangle
/// they add up to.
#[derive(Clone, Debug, PartialEq)]
pub struct ZoneTarget {
    /// Indices into [`ZoneLayout::zones`], ascending.
    pub zones: Vec<usize>,
    pub rect: ZoneRect,
}

impl ZoneTarget {
    pub fn is_span(&self) -> (r: bool)
        ensures
            r == (self.zones@.len() > 1),
    {
        self.zones.len() > 1
    }
}

/// A named set of zones.
#[derive(Clone, Debug, PartialEq)]
pub struct ZoneLayout {
    pub name: String,
    pub zones: Vec<ZoneRect>,
}

/// What a layout holds.
pub struct LayoutView {
    pub name: Seq<char>,
    pub zones: Seq<ZoneRect>,
}

impl View for ZoneLayout {
    type V = LayoutView;

    open spec fn view(&self) -> LayoutView {
        LayoutView { name: self.name@, zones: self.zones@ }
    }
}

/// The usable ones of some zones, in order.
pub open spec fn usable(zones: Seq<ZoneRect>) -> Seq<ZoneRect>
    decreases zones.len(),
{
    if zones.len() == 0 {
        Seq::empty()
    } else if zones.last().is_valid() {
        usable(zones.drop_last()).push(zones.last())
    } else {
        usable(zones.drop_last())
    }
}

/// Zone `i` contains the point, no zone that contains it is smaller, and those
/// before it that contain it are larger.
pub open spec fn innermost(zones: Seq<ZoneRect>, i: int, x: Binary64, y: Binary64) -> bool {
    &&& 0 <= i < zones.len()
    &&& zones[i].contains(x, y)
    &&& forall|j: int|
        #![trigger zones[j]]
        0 <= j < zones.len() && zones[j].contains(x, y) ==> !zones[j].area().below(zones[i].area()) && (j < i
            ==> zones[i].area().below(zones[j].area()))
}

/// The zones among the first `n` that contain the point, ascending.
pub open spec fn containing(zones: Seq<ZoneRect>, n: nat, x: Binary64, y: Binary64) -> Seq<usize>
    decreases n,
{
    if n == 0 {
        Seq::empty()
    } else {
        let before = containing(zones, (n - 1) as nat, x, y);
        if zones[n - 1].contains(x, y) {
            before.push((n - 1) as usize)
        } else {
            before
        }
    }
}

/// The zones among the first `n` that contain the point once grown by `d`,
/// ascending.
pub open spec fn touching(zones: Seq<ZoneRect>, n: nat, x: Binary64, y: Binary64, d: Binary64) -> Seq<usize>
    decreases n,
{
    if n == 0 {
        Seq::empty()
    } else {
        let before = touching(zones, (n - 1) as nat, x, y, d);
        if zones[n - 1].inflated(d).contains(x, y) {
            before.push((n - 1) as usize)
        } else {
            before
        }
    }
}

/// The rectangle that the zones with these indices add up to, taken in order;
/// indices that name no zone are left out.
pub open spec fn bounding(zones: Seq<ZoneRect>, indices: Seq<usize>) -> Option<ZoneRect>
    decreases indices.len(),
{
    if indices.len() == 0 {
        None
    } else {
        let before = bounding(zones, indices.drop_last());
        let i = indices.last();
        if i < zones.len() {
            match before {
                Some(r) => Some(r.union(&zones[i as int])),
                None => Some(zones[i as int]),
            }
        } else {
            before
        }
    }
}

/// The areas of the zones with these indices, added up in order.
pub open spec fn total_area(zones: Seq<ZoneRect>, indices: Seq<usize>) -> Binary64
    decreases indices.len(),
{
    if indices.len() == 0 {
        Binary64 { bits: ZERO }
    } else {
        let before = total_area(zones, indices.drop_last());
        let i = indices.last();
        if i < zones.len() {
            before.plus(zones[i as int].area())
        } else {
            before
        }
    }
}

/// Whether the zones with these indices fill their bounding rectangle: their
/// areas add up to its area, up to the tolerance.
pub open spec fn fills(zones: Seq<ZoneRect>, indices: Seq<usize>) -> bool {
    match bounding(zones, indices) {
        Some(rect) => total_area(zones, indices).minus(rect.area()).absolute().below(Binary64 { bits: EPSILON }),
        None => false,
    }
}

/// Whether a zone lies in a rectangle, up to the tolerance.
pub open spec fn inside(zone: ZoneRect, rect: ZoneRect) -> bool {
    let eps = Binary64 { bits: EPSILON };
    &&& rect.x.minus(eps).at_most(zone.x)
    &&& rect.y.minus(eps).at_most(zone.y)
    &&& zone.right().at_most(rect.right().plus(eps))
    &&& zone.bottom().at_most(rect.bottom().plus(eps))
}

/// The zones among the first `n` that lie in a rectangle, ascending.
pub open spec fn swallowed(zones: Seq<ZoneRect>, n: nat, rect: ZoneRect) -> Seq<usize>
    decreases n,
{
    if n == 0 {
        Seq::empty()
    } else {
        let before = swallowed(zones, (n - 1) as nat, rect);
        if inside(zones[n - 1], rect) {
            before.push((n - 1) as usize)
        } else {
            before
        }
    }
}

/// What a drag at a point targets.
pub open spec fn targets(
    zones: Seq<ZoneRect>,
    x: Binary64,
    y: Binary64,
    edge_threshold: Binary64,
    found: Option<(Seq<usize>, ZoneRect)>,
) -> bool {
    let strict = containing(zones, zones.len(), x, y);
    let near = touching(zones, zones.len(), x, y, edge_threshold);
    if strict.len() > 1 {
        found matches Some((indices, rect)) && indices.len() == 1 && innermost(zones, indices[0] as int, x, y) && rect
            == zones[indices[0] as int]
    } else if edge_threshold.at_most(Binary64 { bits: ZERO }) {
        if strict.len() == 0 {
            found is None
        } else {
            found == Some((strict, zones[strict[0] as int]))
        }
    } else {
        match bounding(zones, near) {
            Some(rect) => found == Some((near, rect)),
            None => found is None,
        }
    }
}

/// Whether a list of indices is in ascending order without repetition.
pub open spec fn ascending(indices: Seq<usize>) -> bool {
    forall|i: int, j: int| #![trigger indices[i], indices[j]] 0 <= i < j < indices.len() ==> indices[i] < indices[j]
}

/// [`containing`] lists the zones that contain the point.
pub proof fn lemma_containing(zones: Seq<ZoneRect>, n: nat, x: Binary64, y: Binary64)
    requires
        n <= zones.len() <= usize::MAX,
    ensures
        ascending(containing(zones, n, x, y)),
        forall|i: int|
            #![trigger containing(zones, n, x, y)[i]]
            0 <= i < containing(zones, n, x, y).len() ==> containing(zones, n, x, y)[i] < n
                && zones[containing(zones, n, x, y)[i] as int].contains(x, y),
        forall|k: int|
            #![trigger zones[k]]
            0 <= k < n && zones[k].contains(x, y) ==> containing(zones, n, x, y).contains(k as usize),
    decreases n,
{
    if n > 0 {
        let m = (n - 1) as nat;
        lemma_containing(zones, m, x, y);
        let before = containing(zones, m, x, y);
        let after = containing(zones, n, x, y);
        assert forall|k: int| #![trigger zones[k]] 0 <= k < n && zones[k].contains(x, y) implies after.contains(
            k as usize,
        ) by {
            if k < m {
                let i = choose|i: int| 0 <= i < before.len() && before[i] == k as usize;
                assert(after[i] == k as usize);
            } else {
                assert(after[before.len() as int] == k as usize);
            }
        }
    }
}

/// [`touching`] lists the zones that contain the point once grown.
pub proof fn lemma_touching(zones: Seq<ZoneRect>, n: nat, x: Binary64, y: Binary64, d: Binary64)
    requires
        n <= zones.len() <= usize::MAX,
    ensures
        ascending(touching(zones, n, x, y, d)),
        forall|i: int|
            #![trigger touching(zones, n, x, y, d)[i]]
            0 <= i < touching(zones, n, x, y, d).len() ==> touching(zones, n, x, y, d)[i] < n
                && zones[touching(zones, n, x, y, d)[i] as int].inflated(d).contains(x, y),
        forall|k: int|
            #![trigger zones[k]]
            0 <= k < n && zones[k].inflated(d).contains(x, y) ==> touching(zones, n, x, y, d).contains(k as usize),
    decreases n,
{
    if n > 0 {
        let m = (n - 1) as nat;
        lemma_touching(zones, m, x, y, d);
        let before = touching(zones, m, x, y, d);
        let after = touching(zones, n, x, y, d);
        assert forall|k: int|
            #![trigger zones[k]]
            0 <= k < n && zones[k].inflated(d).contains(x, y) implies after.contains(k as usize) by {
            if k < m {
                let i = choose|i: int| 0 <= i < before.len() && before[i] == k as usize;
                assert(after[i] == k as usize);
            } else {
                assert(after[before.len() as int] == k as usize);
            }
        }
    }
}

/// A list of the same zones.
pub fn copied_zones(zones: &[ZoneRect]) -> (r: Vec<ZoneRect>)
    ensures
        r@ == zones@,
{
    let mut copy: Vec<ZoneRect> = Vec::new();
    let mut k: usize = 0;
    while k < zones.len()
        invariant
            k <= zones@.len(),
            copy@ == zones@.take(k as int),
        decreases zones@.len() - k,
    {
        copy.push(zones[k]);
        k = k + 1;
    }
    assert(zones@.take(k as int) == zones@);
    copy
}

impl ZoneLayout {
    pub fn new(name: &str, zones: Vec<ZoneRect>) -> (r: Self)
        ensures
            r@ == (LayoutView { name: name@, zones: zones@ }),
    {
        ZoneLayout { name: name.to_owned(), zones }
    }

    /// Drop zones that are degenerate or out of bounds, so a hand-edited or stale
    /// config can't poison hit-testing.
    pub fn sanitized(&self) -> (r: Self)
        ensures
            r@ == (LayoutView { name: self@.name, zones: usable(self@.zones) }),
    {
        let mut kept: Vec<ZoneRect> = Vec::new();
        let mut i: usize = 0;
        while i < self.zones.len()
            invariant
                i <= self.zones.len(),
                kept@ == usable(self.zones@.take(i as int)),
            decreases self.zones.len() - i,
        {
            let zone = self.zones[i];
            proof {
                assert(self.zones@.take(i + 1).drop_last() == self.zones@.take(i as int));
            }
            if zone.is_valid() {
                kept.push(zone);
            }
            i = i + 1;
        }
        assert(self.zones@.take(i as int) == self.zones@);
        ZoneLayout { name: self.name.clone(), zones: kept }
    }

    /// Innermost zone containing the point.
    ///
    /// Zones may overlap (the editor's canvas mode allows it), so ties are broken
    /// by smallest area: the most specific zone wins, which is what a user
    /// pointing at a small zone stacked on a large one intends.
    pub fn hit_test(&self, x: Binary64, y: Binary64) -> (r: Option<usize>)
        ensures
            match r {
                Some(i) => innermost(self.zones@, i as int, x, y),
                None => forall|i: int| 0 <= i < self.zones@.len() ==> !(#[trigger] self.zones@[i]).contains(x, y),
            },
    {
        let mut best: Option<usize> = None;
        let mut i: usize = 0;
        while i < self.zones.len()
            invariant
                i <= self.zones.len(),
                match best {
                    Some(b) => b < i && innermost(self.zones@.take(i as int), b as int, x, y),
                    None => forall|j: int| 0 <= j < i ==> !(#[trigger] self.zones@[j]).contains(x, y),
                },
            decreases self.zones.len() - i,
        {
            let ghost earlier = self.zones@.take(i as int);
            let ghost now = self.zones@.take(i + 1);
            if self.zones[i].contains(x, y) {
                proof {
                    lemma_area_of_container(self.zones@[i as int], x, y);
                    assert forall|j: int|
                        #![trigger now[j]]
                        0 <= j < now.len() && now[j].contains(x, y) implies !now[j].area().is_nan() by {
                        lemma_area_of_container(now[j], x, y);
                    }
                }
                match best {
                    Some(b) => {
                        if self.zones[i].area().below(self.zones[b].area()) {
                            proof {
                                assert(earlier[b as int] == now[b as int]);
                                assert forall|j: int|
                                    #![trigger now[j]]
                                    0 <= j < now.len() && now[j].contains(x, y) implies !now[j].area().below(
                                    now[i as int].area(),
                                ) && (j < i ==> now[i as int].area().below(now[j].area())) by {
                                    if j < i {
                                        assert(earlier[j] == now[j]);
                                    }
                                }
                            }
                            best = Some(i);
                        } else {
                            proof {
                                assert(earlier[b as int] == now[b as int]);
                                assert forall|j: int|
                                    #![trigger now[j]]
                                    0 <= j < now.len() && now[j].contains(x, y) implies !now[j].area().below(
                                    now[b as int].area(),
                                ) && (j < b ==> now[b as int].area().below(now[j].area())) by {
                                    if j < i {
                                        assert(earlier[j] == now[j]);
                                    }
                                }
                            }
                        }
                    },
                    None => {
                        proof {
                            assert forall|j: int|
                                #![trigger now[j]]
                                0 <= j < now.len() && now[j].contains(x, y) implies !now[j].area().below(
                                now[i as int].area(),
                            ) && (j < i ==> now[i as int].area().below(now[j].area())) by {
                                if j < i {
                                    assert(self.zones@[j] == now[j]);
                                }
                            }
                        }
                        best = Some(i);
                    },
                }
            } else {
                proof {
                    if let Some(b) = best {
                        assert(earlier[b as int] == now[b as int]);
                        assert forall|j: int|
                            #![trigger now[j]]
                            0 <= j < now.len() && now[j].contains(x, y) implies !now[j].area().below(
                            now[b as int].area(),
                        ) && (j < b ==> now[b as int].area().below(now[j].area())) by {
                            if j < i {
                                assert(earlier[j] == now[j]);
                            }
                        }
                    }
                }
            }
            i = i + 1;
        }
        assert(self.zones@.take(i as int) == self.zones@);
        best
    }

    /// Bounding rectangle of a set of zone indices.
    pub fn span(&self, indices: &[usize]) -> (r: Option<ZoneRect>)
        ensures
            r == bounding(self.zones@, indices@),
    {
        let mut found: Option<ZoneRect> = None;
        let mut k: usize = 0;
        while k < indices.len()
            invariant
                k <= indices@.len(),
                found == bounding(self.zones@, indices@.take(k as int)),
            decreases indices@.len() - k,
        {
            let i = indices[k];
            proof {
                assert(indices@.take(k + 1).drop_last() == indices@.take(k as int));
            }
            if i < self.zones.len() {
                found = match found {
                    Some(r) => Some(r.union(&self.zones[i])),
                    None => Some(self.zones[i]),
                };
            }
            k = k + 1;
        }
        assert(indices@.take(k as int) == indices@);
        found
    }

    /// Whether a span over these zones names exactly what it covers.
    pub fn span_is_exact(&self, indices: &[usize]) -> (r: bool)
        ensures
            r == fills(self.zones@, indices@),
    {
        let rect = match self.span(indices) {
            Some(rect) => rect,
            None => return false,
        };
        let mut total = fixed(ZERO);
        let mut k: usize = 0;
        while k < indices.len()
            invariant
                k <= indices@.len(),
                total == total_area(self.zones@, indices@.take(k as int)),
            decreases indices@.len() - k,
        {
            let i = indices[k];
            proof {
                assert(indices@.take(k + 1).drop_last() == indices@.take(k as int));
            }
            if i < self.zones.len() {
                total = total.plus(self.zones[i].area());
            }
            k = k + 1;
        }
        assert(indices@.take(k as int) == indices@);
        total.minus(rect.area()).absolute().below(fixed(EPSILON))
    }

    /// The zones that lie in a rectangle.
    pub fn zones_within(&self, rect: ZoneRect) -> (r: Vec<usize>)
        ensures
            r@ == swallowed(self.zones@, self.zones@.len(), rect),
    {
        let eps = fixed(EPSILON);
        let left = rect.x.minus(eps);
        let top = rect.y.minus(eps);
        let right = rect.right().plus(eps);
        let bottom = rect.bottom().plus(eps);
        let mut found: Vec<usize> = Vec::new();
        let mut i: usize = 0;
        while i < self.zones.len()
            invariant
                i <= self.zones.len(),
                left == rect.x.minus(Binary64 { bits: EPSILON }),
                top == rect.y.minus(Binary64 { bits: EPSILON }),
                right == rect.right().plus(Binary64 { bits: EPSILON }),
                bottom == rect.bottom().plus(Binary64 { bits: EPSILON }),
                found@ == swallowed(self.zones@, i as nat, rect),
            decreases self.zones.len() - i,
        {
            let zone = self.zones[i];
            if left.at_most(zone.x) && top.at_most(zone.y) && zone.right().at_most(right) && zone.bottom().at_most(
                bottom,
            ) {
                found.push(i);
            }
            i = i + 1;
        }
        found
    }

    /// The zones that contain a point.
    fn zones_at(&self, x: Binary64, y: Binary64) -> (r: Vec<usize>)
        ensures
            r@ == containing(self.zones@, self.zones@.len(), x, y),
    {
        let mut found: Vec<usize> = Vec::new();
        let mut i: usize = 0;
        while i < self.zones.len()
            invariant
                i <= self.zones.len(),
                found@ == containing(self.zones@, i as nat, x, y),
            decreases self.zones.len() - i,
        {
            if self.zones[i].contains(x, y) {
                found.push(i);
            }
            i = i + 1;
        }
        found
    }

    /// The zones that contain a point once grown by `d`.
    fn zones_near(&self, x: Binary64, y: Binary64, d: Binary64) -> (r: Vec<usize>)
        ensures
            r@ == touching(self.zones@, self.zones@.len(), x, y, d),
    {
        let mut found: Vec<usize> = Vec::new();
        let mut i: usize = 0;
        while i < self.zones.len()
            invariant
                i <= self.zones.len(),
                found@ == touching(self.zones@, i as nat, x, y, d),
            decreases self.zones.len() - i,
        {
            if self.zones[i].inflated(d).contains(x, y) {
                found.push(i);
            }
            i = i + 1;
        }
        found
    }

    /// Resolve what a drag at this point should snap to.
    ///
    /// With `edge_threshold > 0`, hovering near the edge shared by adjacent zones
    /// activates all of them and targets their bounding box; this gesture needs
    /// no extra modifier.
    ///
    /// Overlapping zones suppress spanning: if the point is strictly inside more
    /// than one zone the layout is a canvas-style stack, where a bounding box
    /// would be surprising, so the smallest containing zone wins instead.
    pub fn target_at(&self, x: Binary64, y: Binary64, edge_threshold: Binary64) -> (r: Option<ZoneTarget>)
        ensures
            targets(
                self.zones@,
                x,
                y,
                edge_threshold,
                match r {
                    Some(t) => Some((t.zones@, t.rect)),
                    None => None,
                },
            ),
    {
        let strict = self.zones_at(x, y);
        let count: usize = self.zones.len();
        proof {
            assert(count == self.zones@.len());
            lemma_containing(self.zones@, self.zones@.len(), x, y);
        }
        if strict.len() > 1 {
            let i = match self.hit_test(x, y) {
                Some(i) => i,
                None => {
                    proof {
                        let k = strict@[0];
                        assert(self.zones@[k as int].contains(x, y));
                    }
                    return None;
                },
            };
            let mut zones: Vec<usize> = Vec::new();
            zones.push(i);
            return Some(ZoneTarget { zones, rect: self.zones[i] });
        }
        if edge_threshold.at_most(fixed(ZERO)) {
            if strict.len() == 0 {
                return None;
            }
            let i = strict[0];
            return Some(ZoneTarget { zones: strict, rect: self.zones[i] });
        }
        let near = self.zones_near(x, y, edge_threshold);
        match self.span(near.as_slice()) {
            Some(rect) => Some(ZoneTarget { zones: near, rect }),
            None => None,
        }
    }
}

} // verus!
