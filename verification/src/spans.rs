//! Moving through the zones of a layout with the keyboard: cycling from zone to
//! zone, growing and shrinking a span.

use crate::binary64::Binary64;
use crate::layout::{ascending, bounding, fills, swallowed, ZoneLayout};
use crate::rect::{fixed, ZoneRect};
use vstd::prelude::*;

verus! {

/// The bits of the largest finite number.
pub const LARGEST: u64 = 0x7fef_ffff_ffff_ffff;

/// The indices that a list of them holds, where there is one.
pub open spec fn listed(list: Option<Vec<usize>>) -> Option<Seq<usize>> {
    match list {
        Some(indices) => Some(indices@),
        None => None,
    }
}

/// The indices below `n` that occur in a list, ascending.
pub open spec fn chosen(indices: Seq<usize>, n: nat) -> Seq<usize>
    decreases n,
{
    if n == 0 {
        Seq::empty()
    } else {
        let before = chosen(indices, (n - 1) as nat);
        if indices.contains((n - 1) as usize) {
            before.push((n - 1) as usize)
        } else {
            before
        }
    }
}

/// The longest shorter beginning of a span that still fills its rectangle.
pub open spec fn shrunk(zones: Seq<ZoneRect>, span: Seq<usize>) -> Option<Seq<usize>>
    decreases span.len(),
{
    if span.len() <= 1 {
        None
    } else if fills(zones, span.drop_last()) {
        Some(span.drop_last())
    } else {
        shrunk(zones, span.drop_last())
    }
}

/// The span that taking in zone `i` leads to: everything in the rectangle that
/// then results, provided that it fills it and is more than before.
#[verifier::opaque]
pub open spec fn extension(zones: Seq<ZoneRect>, span: Seq<usize>, i: usize) -> Option<Seq<usize>> {
    match bounding(zones, span.push(i)) {
        Some(rect) => {
            let wider = swallowed(zones, zones.len(), rect);
            if fills(zones, wider) && wider.len() > span.len() {
                Some(wider)
            } else {
                None
            }
        },
        None => None,
    }
}

/// Area of the rectangle of a span.
pub open spec fn span_area(zones: Seq<ZoneRect>, span: Seq<usize>) -> Binary64 {
    match bounding(zones, span) {
        Some(rect) => rect.area(),
        None => Binary64 { bits: LARGEST },
    }
}

/// Whether one list comes before another in lexicographic order, from a place
/// on.
pub open spec fn comes_first(a: Seq<usize>, b: Seq<usize>, k: int) -> bool
    decreases b.len() - k,
{
    if k >= b.len() {
        false
    } else if k >= a.len() {
        true
    } else {
        a[k] < b[k] || (a[k] == b[k] && comes_first(a, b, k + 1))
    }
}

/// Whether growing to `a` is preferred over growing to `b`: by the smaller
/// rectangle, then by the order of the indices.
#[verifier::opaque]
pub open spec fn preferred(zones: Seq<ZoneRect>, a: Seq<usize>, b: Seq<usize>) -> bool {
    let x = span_area(zones, a);
    let y = span_area(zones, b);
    x.precedes(y) || (!y.precedes(x) && comes_first(a, b, 0))
}

/// Whether `next` is the preferred of the spans that taking in one of the first
/// `n` zones leads to.
pub open spec fn best_below(
    zones: Seq<ZoneRect>,
    span: Seq<usize>,
    n: nat,
    next: Option<Seq<usize>>,
) -> bool {
    match next {
        Some(best) => {
            &&& exists|i: usize|
                i < n && !span.contains(i) && #[trigger] extension(zones, span, i) == Some(best)
            &&& forall|j: usize|
                j < n && !span.contains(j) ==> (#[trigger] extension(zones, span, j) matches Some(other)
                    ==> !preferred(zones, other, best))
        },
        None => forall|j: usize|
            j < n && !span.contains(j) ==> #[trigger] extension(zones, span, j) is None,
    }
}

/// Whether `next` is what growing a span leads to.
pub open spec fn grown(zones: Seq<ZoneRect>, span: Seq<usize>, next: Option<Seq<usize>>) -> bool {
    if span.len() == 0 {
        next == if zones.len() > 0 {
            Some(seq![0usize])
        } else {
            None
        }
    } else {
        best_below(zones, span, zones.len(), next)
    }
}

proof fn lemma_comes_first_transitive(a: Seq<usize>, b: Seq<usize>, c: Seq<usize>, k: int)
    requires
        k >= 0,
        comes_first(a, b, k),
        comes_first(b, c, k),
    ensures
        comes_first(a, c, k),
    decreases c.len() - k,
{
    if k < c.len() && k < a.len() && k < b.len() && a[k] == b[k] && b[k] == c[k] {
        lemma_comes_first_transitive(a, b, c, k + 1);
    }
}

proof fn lemma_preferred_transitive(zones: Seq<ZoneRect>, a: Seq<usize>, b: Seq<usize>, c: Seq<usize>)
    requires
        preferred(zones, a, b),
        preferred(zones, b, c),
    ensures
        preferred(zones, a, c),
{
    reveal(preferred);
    if comes_first(a, b, 0) && comes_first(b, c, 0) {
        lemma_comes_first_transitive(a, b, c, 0);
    }
}

proof fn lemma_comes_first_irreflexive(a: Seq<usize>, k: int)
    requires
        k >= 0,
    ensures
        !comes_first(a, a, k),
    decreases a.len() - k,
{
    if k < a.len() {
        lemma_comes_first_irreflexive(a, k + 1);
    }
}

/// Taking one more zone into account, the better of the two spans stays.
proof fn lemma_best_step(
    zones: Seq<ZoneRect>,
    span: Seq<usize>,
    n: usize,
    best: Option<Seq<usize>>,
    wider: Seq<usize>,
)
    requires
        n < usize::MAX,
        best_below(zones, span, n as nat, best),
        !span.contains(n),
        extension(zones, span, n) == Some(wider),
    ensures
        (best matches Some(b) ==> preferred(zones, wider, b)) ==> best_below(
            zones,
            span,
            (n + 1) as nat,
            Some(wider),
        ),
        (best matches Some(b) && !preferred(zones, wider, b)) ==> best_below(zones, span, (n + 1) as nat, best),
{
    assert(!preferred(zones, wider, wider)) by {
        reveal(preferred);
        lemma_comes_first_irreflexive(wider, 0);
    }
    if best matches Some(b) ==> preferred(zones, wider, b) {
        assert forall|j: usize| j < n + 1 && !span.contains(j) implies (#[trigger] extension(
            zones,
            span,
            j,
        ) matches Some(other) ==> !preferred(zones, other, wider)) by {
            if let Some(other) = extension(zones, span, j) {
                if preferred(zones, other, wider) && j < n {
                    if let Some(b) = best {
                        lemma_preferred_transitive(zones, other, wider, b);
                    }
                }
            }
        }
    }
}

/// The indices that are chosen are ascending, and are those that occur.
pub proof fn lemma_chosen(indices: Seq<usize>, n: nat)
    requires
        n <= usize::MAX,
    ensures
        ascending(chosen(indices, n)),
        forall|i: usize| #[trigger] chosen(indices, n).contains(i) <==> i < n && indices.contains(i),
    decreases n,
{
    if n > 0 {
        let m = (n - 1) as nat;
        lemma_chosen(indices, m);
        let before = chosen(indices, m);
        let after = chosen(indices, n);
        assert forall|i: int, j: int| #![trigger after[i], after[j]] 0 <= i < j < after.len() implies after[i]
            < after[j] by {
            if j == before.len() {
                assert(before.contains(before[i]));
            }
        }
        assert forall|i: usize| #[trigger] after.contains(i) <==> i < n && indices.contains(i) by {
            if after.contains(i) {
                let p = choose|p: int| 0 <= p < after.len() && after[p] == i;
                if p < before.len() {
                    assert(before.contains(before[p]));
                }
            }
            if i < n && indices.contains(i) {
                if i < m {
                    assert(before.contains(i));
                    let p = choose|p: int| 0 <= p < before.len() && before[p] == i;
                    assert(after[p] == i);
                } else {
                    assert(after[before.len() as int] == i);
                }
            }
        }
    }
}

/// A list of the same indices.
pub fn copied(list: &[usize]) -> (r: Vec<usize>)
    ensures
        r@ == list@,
{
    let mut copy: Vec<usize> = Vec::new();
    let mut k: usize = 0;
    while k < list.len()
        invariant
            k <= list@.len(),
            copy@ == list@.take(k as int),
        decreases list@.len() - k,
    {
        copy.push(list[k]);
        k = k + 1;
    }
    assert(list@.take(k as int) == list@);
    copy
}

/// Whether two lists hold the same indices in the same order.
pub fn same_indices(a: &[usize], b: &[usize]) -> (r: bool)
    ensures
        r == (a@ == b@),
{
    if a.len() != b.len() {
        return false;
    }
    let mut k: usize = 0;
    while k < a.len()
        invariant
            k <= a@.len(),
            a@.len() == b@.len(),
            forall|j: int| 0 <= j < k ==> a@[j] == b@[j],
        decreases a@.len() - k,
    {
        if a[k] != b[k] {
            return false;
        }
        k = k + 1;
    }
    assert(a@ == b@);
    true
}

/// Whether an index occurs in a list.
pub fn holds(list: &[usize], i: usize) -> (r: bool)
    ensures
        r == list@.contains(i),
{
    let mut k: usize = 0;
    while k < list.len()
        invariant
            k <= list@.len(),
            forall|j: int| 0 <= j < k ==> list@[j] != i,
        decreases list@.len() - k,
    {
        if list[k] == i {
            return true;
        }
        k = k + 1;
    }
    false
}

/// Whether one list comes before another in lexicographic order.
fn lexicographically_before(a: &[usize], b: &[usize]) -> (r: bool)
    ensures
        r == comes_first(a@, b@, 0),
{
    let mut k: usize = 0;
    while k < b.len()
        invariant
            k <= b@.len(),
            k <= a@.len(),
            comes_first(a@, b@, 0) == comes_first(a@, b@, k as int),
        decreases b@.len() - k,
    {
        if k >= a.len() {
            return true;
        }
        if a[k] != b[k] {
            return a[k] < b[k];
        }
        k = k + 1;
    }
    false
}

/// Area of the rectangle of a span.
fn area_of(layout: &ZoneLayout, span: &[usize]) -> (r: Binary64)
    ensures
        r == span_area(layout.zones@, span@),
{
    match layout.span(span) {
        Some(rect) => rect.area(),
        None => fixed(LARGEST),
    }
}

/// The distinct zones of a layout among some indices, ascending.
fn normalised(indices: &[usize], len: usize) -> (r: Vec<usize>)
    ensures
        r@ == chosen(indices@, len as nat),
{
    let mut current: Vec<usize> = Vec::new();
    let mut i: usize = 0;
    while i < len
        invariant
            i <= len,
            current@ == chosen(indices@, i as nat),
        decreases len - i,
    {
        if holds(indices, i) {
            current.push(i);
        }
        i = i + 1;
    }
    current
}

/// The span that taking in one more zone leads to.
fn extended(layout: &ZoneLayout, span: &Vec<usize>, i: usize) -> (r: Option<Vec<usize>>)
    ensures
        match r {
            Some(wider) => extension(layout.zones@, span@, i) == Some(wider@),
            None => extension(layout.zones@, span@, i) is None,
        },
{
    reveal(extension);
    let mut taken = copied(span.as_slice());
    taken.push(i);
    assert(taken@ == span@.push(i));
    let rect = match layout.span(taken.as_slice()) {
        Some(rect) => rect,
        None => return None,
    };
    let wider = layout.zones_within(rect);
    if layout.span_is_exact(wider.as_slice()) && wider.len() > span.len() {
        Some(wider)
    } else {
        None
    }
}

/// Whether growing to one span is preferred over growing to another.
fn is_preferred(layout: &ZoneLayout, a: &[usize], b: &[usize]) -> (r: bool)
    ensures
        r == preferred(layout.zones@, a@, b@),
{
    reveal(preferred);
    let x = area_of(layout, a);
    let y = area_of(layout, b);
    x.precedes(y) || (!y.precedes(x) && lexicographically_before(a, b))
}

/// The preferred span that takes in one more zone.
fn grow_span(layout: &ZoneLayout, span: &Vec<usize>) -> (r: Option<Vec<usize>>)
    ensures
        best_below(
            layout.zones@,
            span@,
            layout.zones@.len(),
            listed(r),
        ),
{
    let len = layout.zones.len();
    let mut best: Option<Vec<usize>> = None;
    let mut i: usize = 0;
    while i < len
        invariant
            i <= len,
            len == layout.zones@.len(),
            best_below(
                layout.zones@,
                span@,
                i as nat,
                listed(best),
            ),
        decreases len - i,
    {
        if !holds(span.as_slice(), i) {
            match extended(layout, span, i) {
                Some(wider) => {
                    let better = match &best {
                        Some(b) => is_preferred(layout, wider.as_slice(), b.as_slice()),
                        None => true,
                    };
                    proof {
                        lemma_best_step(
                            layout.zones@,
                            span@,
                            i,
                            listed(best),
                            wider@,
                        );
                    }
                    if better {
                        best = Some(wider);
                    }
                },
                None => {},
            }
        }
        i = i + 1;
    }
    best
}

/// Zone set after growing or shrinking a span by one step.
///
/// A span is placed as its bounding rectangle, so it is only meaningful when the
/// zones it names fill that rectangle exactly. Appending the next index does not
/// guarantee that: in a 2x2 grid, growing the top row `[0, 1]` to `[0, 1, 2]`
/// gives a bounding box covering zone 3 as well.
///
/// Growing therefore extends the rectangle to take in one more zone and then
/// claims everything that rectangle swallows, choosing the smallest such
/// rectangle. Shrinking drops trailing zones until the set is exact again. Either
/// returns `None` when there is nowhere to go, leaving the window put.
pub fn resize_span(layout: &ZoneLayout, zones: &[usize], grow: bool) -> (r: Option<Vec<usize>>)
    ensures
        grow ==> grown(
            layout.zones@,
            chosen(zones@, layout.zones@.len()),
            listed(r),
        ),
        !grow ==> shrunk(layout.zones@, chosen(zones@, layout.zones@.len())) == listed(r),
{
    let len = layout.zones.len();
    let mut current = normalised(zones, len);
    if !grow {
        let ghost whole = current@;
        while current.len() > 1
            invariant
                shrunk(layout.zones@, whole) == shrunk(layout.zones@, current@),
                whole == chosen(zones@, layout.zones@.len()),
                !grow,
            decreases current@.len(),
        {
            let ghost before = current@;
            let _ = current.pop();
            assert(current@ == before.drop_last());
            if layout.span_is_exact(current.as_slice()) {
                return Some(current);
            }
        }
        return None;
    }
    if current.len() == 0 {
        if len > 0 {
            let mut first: Vec<usize> = Vec::new();
            first.push(0);
            assert(first@ == seq![0usize]);
            return Some(first);
        }
        return None;
    }
    grow_span(layout, &current)
}

/// Next zone index when cycling by `delta`.
pub open spec fn cycled(current: Option<usize>, len: usize, delta: i32) -> Option<int> {
    if len == 0 {
        None
    } else {
        match current {
            Some(index) => Some((index + delta) % (len as int)),
            None => Some(
                if delta >= 0 {
                    0
                } else {
                    len - 1
                },
            ),
        }
    }
}

/// Next zone index when cycling by `delta`, wrapping at both ends.
///
/// An unsnapped window enters at the first zone going forwards, or the last going
/// backwards, so both directions have an obvious entry point.
pub fn cycle_index(current: Option<usize>, len: usize, delta: i32) -> (r: Option<usize>)
    requires
        current matches Some(index) ==> len == 0 || (len <= i32::MAX && index <= i32::MAX && i32::MIN <= index + delta
            <= i32::MAX),
    ensures
        match r {
            Some(next) => cycled(current, len, delta) == Some(next as int),
            None => cycled(current, len, delta) is None,
        },
{
    if len == 0 {
        return None;
    }
    match current {
        Some(index) => {
            let sum: i64 = index as i64 + delta as i64;
            let wide: i64 = len as i64;
            if sum >= 0 {
                Some((sum as u64 % wide as u64) as usize)
            } else {
                let back: u64 = (-sum) as u64 % wide as u64;
                proof {
                    let n = -(sum as int);
                    let l = len as int;
                    let q = n / l;
                    vstd::arithmetic::div_mod::lemma_fundamental_div_mod(n, l);
                    if back == 0 {
                        assert(-n == (-q) * l + 0) by (nonlinear_arith)
                            requires
                                n == l * q,
                        ;
                        vstd::arithmetic::div_mod::lemma_fundamental_div_mod_converse(-n, l, -q, 0);
                    } else {
                        assert(-n == (-q - 1) * l + (l - back)) by (nonlinear_arith)
                            requires
                                n == l * q + back,
                        ;
                        vstd::arithmetic::div_mod::lemma_fundamental_div_mod_converse(-n, l, -q - 1, l - back);
                    }
                }
                if back == 0 {
                    Some(0)
                } else {
                    Some(len - back as usize)
                }
            }
        },
        None => {
            if delta >= 0 {
                Some(0)
            } else {
                Some(len - 1)
            }
        },
    }
}

} // verus!
