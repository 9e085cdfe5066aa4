//! Areas by counting: rectangles on a grid of whole numbers, the points in them, and
//! what overlapping and covering say of their areas.

use vstd::prelude::*;

verus! {

/// The sum of a function over the whole numbers from `lo` up to but not including
/// `hi`.
pub open spec fn sum(f: spec_fn(int) -> int, lo: int, hi: int) -> int
    decreases hi - lo,
{
    if hi <= lo {
        0
    } else {
        sum(f, lo, hi - 1) + f(hi - 1)
    }
}

/// The sum of a function over the points of a square.
pub open spec fn square_sum(f: spec_fn(int, int) -> int, lo: int, hi: int) -> int {
    sum(|x: int| sum(|y: int| f(x, y), lo, hi), lo, hi)
}

/// A rectangle of points. The lower edges belong to it, the upper ones do not.
pub struct Patch {
    pub left: int,
    pub right: int,
    pub top: int,
    pub bottom: int,
}

impl Patch {
    pub open spec fn holds(self, x: int, y: int) -> bool {
        self.left <= x < self.right && self.top <= y < self.bottom
    }

    pub open spec fn area(self) -> int {
        (self.right - self.left) * (self.bottom - self.top)
    }

    /// Whether it lies in a square, and is no smaller than nothing.
    pub open spec fn lies_in(self, lo: int, hi: int) -> bool {
        lo <= self.left <= self.right <= hi && lo <= self.top <= self.bottom <= hi
    }
}

/// One for a point of a rectangle, nothing for any other.
pub open spec fn mark(patch: Patch, x: int, y: int) -> int {
    if patch.holds(x, y) {
        1
    } else {
        0
    }
}

/// How many of some rectangles a point is in.
pub open spec fn layers(patches: Seq<Patch>, x: int, y: int) -> int
    decreases patches.len(),
{
    if patches.len() == 0 {
        0
    } else {
        layers(patches.drop_last(), x, y) + mark(patches.last(), x, y)
    }
}

/// Whether a point is in one of some rectangles.
pub open spec fn is_covered(patches: Seq<Patch>, x: int, y: int) -> bool {
    exists|i: int| 0 <= i < patches.len() && #[trigger] patches[i].holds(x, y)
}

/// The areas of some rectangles, added up.
pub open spec fn areas(patches: Seq<Patch>) -> int
    decreases patches.len(),
{
    if patches.len() == 0 {
        0
    } else {
        areas(patches.drop_last()) + patches.last().area()
    }
}

proof fn lemma_sum_monotone(f: spec_fn(int) -> int, g: spec_fn(int) -> int, lo: int, hi: int)
    requires
        forall|x: int| lo <= x < hi ==> #[trigger] f(x) <= g(x),
    ensures
        sum(f, lo, hi) <= sum(g, lo, hi),
    decreases hi - lo,
{
    if lo < hi {
        lemma_sum_monotone(f, g, lo, hi - 1);
        assert(f(hi - 1) <= g(hi - 1));
    }
}

proof fn lemma_sum_adds(f: spec_fn(int) -> int, g: spec_fn(int) -> int, h: spec_fn(int) -> int, lo: int, hi: int)
    requires
        forall|x: int| lo <= x < hi ==> #[trigger] h(x) == f(x) + g(x),
    ensures
        sum(h, lo, hi) == sum(f, lo, hi) + sum(g, lo, hi),
    decreases hi - lo,
{
    if lo < hi {
        lemma_sum_adds(f, g, h, lo, hi - 1);
        assert(h(hi - 1) == f(hi - 1) + g(hi - 1));
    }
}

/// A function that is constant on an interval and nothing elsewhere.
proof fn lemma_sum_interval(f: spec_fn(int) -> int, a: int, b: int, c: int, lo: int, hi: int)
    requires
        lo <= a <= b,
        forall|x: int|
            lo <= x < hi ==> #[trigger] f(x) == if a <= x < b {
                c
            } else {
                0
            },
    ensures
        b <= hi ==> sum(f, lo, hi) == (b - a) * c,
        hi <= a ==> sum(f, lo, hi) == 0,
        a <= hi <= b ==> sum(f, lo, hi) == (hi - a) * c,
    decreases hi - lo,
{
    if lo < hi {
        lemma_sum_interval(f, a, b, c, lo, hi - 1);
        assert(f(hi - 1) == if a <= hi - 1 < b {
            c
        } else {
            0
        });
        assert((hi - a) * c == (hi - 1 - a) * c + c) by (nonlinear_arith);
        if hi == a {
            assert((hi - a) * c == 0) by (nonlinear_arith)
                requires
                    hi == a,
            ;
        }
        if b <= hi - 1 {
        } else if hi - 1 < a && b <= hi {
            // An interval without a point.
            if a < b {
                assert(a == hi - 1 || a >= hi);
            } else {
                assert((b - a) * c == 0) by (nonlinear_arith)
                    requires
                        a == b,
                ;
            }
        }
    } else {
        if b <= hi {
            assert((b - a) * c == 0) by (nonlinear_arith)
                requires
                    a == b,
            ;
        }
        if a <= hi {
            assert((hi - a) * c == 0) by (nonlinear_arith)
                requires
                    a == hi,
            ;
        }
    }
}

/// The points of a rectangle are as many as its area says.
proof fn lemma_points_of(patch: Patch, lo: int, hi: int)
    requires
        patch.lies_in(lo, hi),
    ensures
        square_sum(|x: int, y: int| mark(patch, x, y), lo, hi) == patch.area(),
{
    let f = |x: int, y: int| mark(patch, x, y);
    let across = patch.bottom - patch.top;
    let column = |x: int| sum(|y: int| f(x, y), lo, hi);
    assert forall|x: int| lo <= x < hi implies #[trigger] column(x) == if patch.left <= x < patch.right {
        across
    } else {
        0
    } by {
        let c: int = if patch.left <= x < patch.right {
            1
        } else {
            0
        };
        lemma_sum_interval(|y: int| f(x, y), patch.top, patch.bottom, c, lo, hi);
        assert(across * 1 == across && across * 0 == 0);
    }
    lemma_sum_interval(column, patch.left, patch.right, across, lo, hi);
}

/// Counting every point as often as it is covered gives the areas.
proof fn lemma_points(patches: Seq<Patch>, lo: int, hi: int)
    requires
        forall|i: int| 0 <= i < patches.len() ==> (#[trigger] patches[i]).lies_in(lo, hi),
    ensures
        square_sum(|x: int, y: int| layers(patches, x, y), lo, hi) == areas(patches),
    decreases patches.len(),
{
    let h = |x: int, y: int| layers(patches, x, y);
    if patches.len() == 0 {
        let column = |x: int| sum(|y: int| h(x, y), lo, hi);
        assert forall|x: int| lo <= x < hi implies #[trigger] column(x) == 0 by {
            lemma_sum_nothing(|y: int| h(x, y), lo, hi);
        }
        lemma_sum_nothing(column, lo, hi);
    } else {
        let rest = patches.drop_last();
        let last = patches.last();
        assert forall|i: int| 0 <= i < rest.len() implies (#[trigger] rest[i]).lies_in(lo, hi) by {
            assert(rest[i] == patches[i]);
        }
        assert(last == patches[patches.len() - 1]);
        lemma_points(rest, lo, hi);
        lemma_points_of(last, lo, hi);
        let f = |x: int, y: int| layers(rest, x, y);
        let g = |x: int, y: int| mark(last, x, y);
        let fc = |x: int| sum(|y: int| f(x, y), lo, hi);
        let gc = |x: int| sum(|y: int| g(x, y), lo, hi);
        let hc = |x: int| sum(|y: int| h(x, y), lo, hi);
        assert forall|x: int| lo <= x < hi implies #[trigger] hc(x) == fc(x) + gc(x) by {
            lemma_sum_adds(|y: int| f(x, y), |y: int| g(x, y), |y: int| h(x, y), lo, hi);
        }
        lemma_sum_adds(fc, gc, hc, lo, hi);
    }
}

proof fn lemma_sum_nothing(f: spec_fn(int) -> int, lo: int, hi: int)
    requires
        forall|x: int| lo <= x < hi ==> #[trigger] f(x) == 0,
    ensures
        sum(f, lo, hi) == 0,
    decreases hi - lo,
{
    if lo < hi {
        lemma_sum_nothing(f, lo, hi - 1);
        assert(f(hi - 1) == 0);
    }
}

proof fn lemma_square_monotone(f: spec_fn(int, int) -> int, g: spec_fn(int, int) -> int, lo: int, hi: int)
    requires
        forall|x: int, y: int| lo <= x < hi && lo <= y < hi ==> #[trigger] f(x, y) <= g(x, y),
    ensures
        square_sum(f, lo, hi) <= square_sum(g, lo, hi),
{
    let fc = |x: int| sum(|y: int| f(x, y), lo, hi);
    let gc = |x: int| sum(|y: int| g(x, y), lo, hi);
    assert forall|x: int| lo <= x < hi implies #[trigger] fc(x) <= gc(x) by {
        lemma_sum_monotone(|y: int| f(x, y), |y: int| g(x, y), lo, hi);
    }
    lemma_sum_monotone(fc, gc, lo, hi);
}

/// A point of one of some rectangles is covered.
proof fn lemma_covered(patches: Seq<Patch>, i: int, x: int, y: int)
    requires
        0 <= i < patches.len(),
        patches[i].holds(x, y),
    ensures
        layers(patches, x, y) >= 1,
    decreases patches.len(),
{
    lemma_layers(patches.drop_last(), x, y);
    if i < patches.len() - 1 {
        lemma_covered(patches.drop_last(), i, x, y);
    }
}

proof fn lemma_layers(patches: Seq<Patch>, x: int, y: int)
    ensures
        layers(patches, x, y) >= 0,
    decreases patches.len(),
{
    if patches.len() > 0 {
        lemma_layers(patches.drop_last(), x, y);
    }
}

/// A point that none of some rectangles holds is not covered.
proof fn lemma_uncovered(patches: Seq<Patch>, x: int, y: int)
    requires
        forall|i: int| 0 <= i < patches.len() ==> !(#[trigger] patches[i]).holds(x, y),
    ensures
        layers(patches, x, y) == 0,
    decreases patches.len(),
{
    if patches.len() > 0 {
        let rest = patches.drop_last();
        assert forall|i: int| 0 <= i < rest.len() implies !(#[trigger] rest[i]).holds(x, y) by {
            assert(rest[i] == patches[i]);
        }
        lemma_uncovered(rest, x, y);
        assert(!patches[patches.len() - 1].holds(x, y));
    }
}

/// No point is in two rectangles that have none in common.
pub open spec fn disjoint(patches: Seq<Patch>) -> bool {
    forall|i: int, j: int, x: int, y: int|
        #![trigger patches[i].holds(x, y), patches[j].holds(x, y)]
        0 <= i < j < patches.len() ==> !(patches[i].holds(x, y) && patches[j].holds(x, y))
}

proof fn lemma_disjoint(patches: Seq<Patch>, x: int, y: int)
    requires
        disjoint(patches),
    ensures
        layers(patches, x, y) <= 1,
    decreases patches.len(),
{
    if patches.len() > 0 {
        let rest = patches.drop_last();
        let n = rest.len() as int;
        assert forall|i: int, j: int, a: int, b: int|
            #![trigger rest[i].holds(a, b), rest[j].holds(a, b)]
            0 <= i < j < rest.len() implies !(rest[i].holds(a, b) && rest[j].holds(a, b)) by {
            assert(rest[i] == patches[i] && rest[j] == patches[j]);
            assert(!(patches[i].holds(a, b) && patches[j].holds(a, b)));
        }
        if patches[n].holds(x, y) {
            assert forall|i: int| 0 <= i < rest.len() implies !(#[trigger] rest[i]).holds(x, y) by {
                assert(rest[i] == patches[i]);
                assert(!(patches[i].holds(x, y) && patches[n].holds(x, y)));
            }
            lemma_uncovered(rest, x, y);
        } else {
            lemma_disjoint(rest, x, y);
        }
    }
}

/// Rectangles that cover a square have at least its area.
pub proof fn lemma_covering_area(patches: Seq<Patch>, side: int, lo: int, hi: int)
    requires
        lo <= 0 <= side <= hi,
        forall|i: int| 0 <= i < patches.len() ==> (#[trigger] patches[i]).lies_in(lo, hi),
        forall|x: int, y: int| 0 <= x < side && 0 <= y < side ==> #[trigger] is_covered(patches, x, y),
    ensures
        areas(patches) >= side * side,
{
    let square = Patch { left: 0, right: side, top: 0, bottom: side };
    let f = |x: int, y: int| mark(square, x, y);
    let g = |x: int, y: int| layers(patches, x, y);
    lemma_points_of(square, lo, hi);
    lemma_points(patches, lo, hi);
    assert forall|x: int, y: int| lo <= x < hi && lo <= y < hi implies #[trigger] f(x, y) <= g(x, y) by {
        lemma_layers(patches, x, y);
        if square.holds(x, y) {
            assert(is_covered(patches, x, y));
            let i = choose|i: int| 0 <= i < patches.len() && #[trigger] patches[i].holds(x, y);
            lemma_covered(patches, i, x, y);
        }
    }
    lemma_square_monotone(f, g, lo, hi);
}

/// Rectangles in a square that have no point in common have at most its area.
pub proof fn lemma_disjoint_area(patches: Seq<Patch>, lo: int, hi: int)
    requires
        lo <= hi,
        forall|i: int| 0 <= i < patches.len() ==> (#[trigger] patches[i]).lies_in(lo, hi),
        disjoint(patches),
    ensures
        areas(patches) <= (hi - lo) * (hi - lo),
{
    let square = Patch { left: lo, right: hi, top: lo, bottom: hi };
    let f = |x: int, y: int| mark(square, x, y);
    let g = |x: int, y: int| layers(patches, x, y);
    lemma_points_of(square, lo, hi);
    lemma_points(patches, lo, hi);
    assert forall|x: int, y: int| lo <= x < hi && lo <= y < hi implies #[trigger] g(x, y) <= f(x, y) by {
        lemma_disjoint(patches, x, y);
    }
    lemma_square_monotone(g, f, lo, hi);
}

} // verus!
