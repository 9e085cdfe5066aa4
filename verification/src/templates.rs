//! Built-in layouts.

use crate::binary64::Binary64;
use crate::layout::{LayoutView, ZoneLayout};
use crate::rect::{fixed, ZoneRect, HALF, ONE, QUARTER, ZERO};
use crate::table::Table;
use vstd::prelude::*;

verus! {

/// The bits of 0.4.
pub const TWO_FIFTHS: u64 = 0x3fd9_9999_9999_999a;

/// The bits of 0.6.
pub const THREE_FIFTHS: u64 = 0x3fe3_3333_3333_3333;

/// The bits of 0.75.
pub const THREE_QUARTERS: u64 = 0x3fe8_0000_0000_0000;

/// Id of the layout an output shows before one is chosen.
pub const DEFAULT_LAYOUT_ID: &'static str = "columns-3";

/// One of `n` equal parts of the whole.
pub open spec fn share(n: nat) -> Binary64 {
    (Binary64 { bits: ONE }).over(Binary64::spec_count(n as u64))
}

/// Where the `i`-th of `n` equal parts begins.
pub open spec fn share_start(i: int, n: nat) -> Binary64 {
    Binary64::spec_count(i as u64).times(share(n))
}

/// The `i`-th of `n` columns.
pub open spec fn column(i: int, n: nat) -> ZoneRect {
    ZoneRect { x: share_start(i, n), y: Binary64 { bits: ZERO }, w: share(n), h: Binary64 { bits: ONE } }
}

/// The `i`-th of `n` rows.
pub open spec fn row(i: int, n: nat) -> ZoneRect {
    ZoneRect { x: Binary64 { bits: ZERO }, y: share_start(i, n), w: Binary64 { bits: ONE }, h: share(n) }
}

/// The cell in column `c` of `cols` and row `r` of `rows`.
pub open spec fn cell(c: int, r: int, cols: nat, rows: nat) -> ZoneRect {
    ZoneRect { x: share_start(c, cols), y: share_start(r, rows), w: share(cols), h: share(rows) }
}

/// A layout of equal columns.
pub open spec fn columns_view(n: nat, name: Seq<char>) -> LayoutView {
    LayoutView { name, zones: Seq::new(n, |i: int| column(i, n)) }
}

/// A layout of equal rows.
pub open spec fn rows_view(n: nat, name: Seq<char>) -> LayoutView {
    LayoutView { name, zones: Seq::new(n, |i: int| row(i, n)) }
}

/// A layout of equal cells, row by row.
pub open spec fn grid_view(cols: nat, rows: nat, name: Seq<char>) -> LayoutView {
    LayoutView {
        name,
        zones: Seq::new(cols * rows, |i: int| cell(i % cols as int, i / cols as int, cols, rows)),
    }
}

/// A rectangle by the bits of its numbers.
pub open spec fn rect_of(x: u64, y: u64, w: u64, h: u64) -> ZoneRect {
    ZoneRect { x: Binary64 { bits: x }, y: Binary64 { bits: y }, w: Binary64 { bits: w }, h: Binary64 { bits: h } }
}

pub open spec fn priority_grid_view() -> LayoutView {
    LayoutView {
        name: "Priority Grid"@,
        zones: seq![
            rect_of(ZERO, ZERO, QUARTER, ONE),
            rect_of(QUARTER, ZERO, HALF, ONE),
            rect_of(THREE_QUARTERS, ZERO, QUARTER, ONE),
        ],
    }
}

pub open spec fn main_stack_view() -> LayoutView {
    LayoutView {
        name: "Main + Stack"@,
        zones: seq![
            rect_of(ZERO, ZERO, THREE_FIFTHS, ONE),
            rect_of(THREE_FIFTHS, ZERO, TWO_FIFTHS, HALF),
            rect_of(THREE_FIFTHS, HALF, TWO_FIFTHS, HALF),
        ],
    }
}

/// The built-in layout with an id.
pub open spec fn builtin(id: Seq<char>) -> Option<LayoutView> {
    if id == "columns-2"@ {
        Some(columns_view(2, "Columns (2)"@))
    } else if id == "columns-3"@ {
        Some(columns_view(3, "Columns (3)"@))
    } else if id == "rows-2"@ {
        Some(rows_view(2, "Rows (2)"@))
    } else if id == "grid-2x2"@ {
        Some(grid_view(2, 2, "Grid (2x2)"@))
    } else if id == "priority-grid"@ {
        Some(priority_grid_view())
    } else if id == "main-stack"@ {
        Some(main_stack_view())
    } else {
        None
    }
}

/// The ids of the built-in layouts differ.
pub proof fn lemma_builtin_ids()
    ensures
        "columns-2"@ != "columns-3"@,
        "columns-2"@ != "rows-2"@,
        "columns-2"@ != "grid-2x2"@,
        "columns-2"@ != "priority-grid"@,
        "columns-2"@ != "main-stack"@,
        "columns-3"@ != "rows-2"@,
        "columns-3"@ != "grid-2x2"@,
        "columns-3"@ != "priority-grid"@,
        "columns-3"@ != "main-stack"@,
        "rows-2"@ != "grid-2x2"@,
        "rows-2"@ != "priority-grid"@,
        "rows-2"@ != "main-stack"@,
        "grid-2x2"@ != "priority-grid"@,
        "grid-2x2"@ != "main-stack"@,
        "priority-grid"@ != "main-stack"@,
{
    reveal_strlit("columns-2");
    reveal_strlit("columns-3");
    reveal_strlit("rows-2");
    reveal_strlit("grid-2x2");
    reveal_strlit("priority-grid");
    reveal_strlit("main-stack");
    assert("columns-2"@.len() == 9 && "columns-3"@.len() == 9);
    assert("columns-2"@[8] != "columns-3"@[8]);
    assert("rows-2"@.len() == 6 && "grid-2x2"@.len() == 8);
    assert("priority-grid"@.len() == 13 && "main-stack"@.len() == 10);
}

/// Equal columns from left to right.
pub fn columns(n: usize, name: &str) -> (r: ZoneLayout)
    ensures
        r@ == columns_view(n as nat, name@),
{
    let w = fixed(ONE).over(Binary64::count(n as u64));
    let mut zones: Vec<ZoneRect> = Vec::new();
    let mut i: usize = 0;
    while i < n
        invariant
            i <= n,
            w == share(n as nat),
            zones@.len() == i,
            forall|j: int| 0 <= j < i ==> #[trigger] zones@[j] == column(j, n as nat),
        decreases n - i,
    {
        zones.push(ZoneRect::new(Binary64::count(i as u64).times(w), fixed(ZERO), w, fixed(ONE)));
        i = i + 1;
    }
    assert(zones@ =~= columns_view(n as nat, name@).zones);
    ZoneLayout::new(name, zones)
}

/// Equal rows from top to bottom.
pub fn rows(n: usize, name: &str) -> (r: ZoneLayout)
    ensures
        r@ == rows_view(n as nat, name@),
{
    let h = fixed(ONE).over(Binary64::count(n as u64));
    let mut zones: Vec<ZoneRect> = Vec::new();
    let mut i: usize = 0;
    while i < n
        invariant
            i <= n,
            h == share(n as nat),
            zones@.len() == i,
            forall|j: int| 0 <= j < i ==> #[trigger] zones@[j] == row(j, n as nat),
        decreases n - i,
    {
        zones.push(ZoneRect::new(fixed(ZERO), Binary64::count(i as u64).times(h), fixed(ONE), h));
        i = i + 1;
    }
    assert(zones@ =~= rows_view(n as nat, name@).zones);
    ZoneLayout::new(name, zones)
}

/// Equal cells in reading order.
pub fn grid(cols: usize, rows: usize, name: &str) -> (r: ZoneLayout)
    requires
        cols * rows <= usize::MAX,
    ensures
        r@ == grid_view(cols as nat, rows as nat, name@),
{
    let w = fixed(ONE).over(Binary64::count(cols as u64));
    let h = fixed(ONE).over(Binary64::count(rows as u64));
    let mut zones: Vec<ZoneRect> = Vec::new();
    let mut r: usize = 0;
    while r < rows
        invariant
            r <= rows,
            w == share(cols as nat),
            h == share(rows as nat),
            zones@.len() == r * cols,
            forall|j: int|
                0 <= j < zones@.len() ==> #[trigger] zones@[j] == cell(
                    j % cols as int,
                    j / cols as int,
                    cols as nat,
                    rows as nat,
                ),
        decreases rows - r,
    {
        let mut c: usize = 0;
        while c < cols
            invariant
                c <= cols,
                r < rows,
                w == share(cols as nat),
                h == share(rows as nat),
                zones@.len() == r * cols + c,
                forall|j: int|
                    0 <= j < zones@.len() ==> #[trigger] zones@[j] == cell(
                        j % cols as int,
                        j / cols as int,
                        cols as nat,
                        rows as nat,
                    ),
            decreases cols - c,
        {
            proof {
                vstd::arithmetic::div_mod::lemma_fundamental_div_mod_converse(
                    r * cols + c,
                    cols as int,
                    r as int,
                    c as int,
                );
            }
            zones.push(ZoneRect::new(Binary64::count(c as u64).times(w), Binary64::count(r as u64).times(h), w, h));
            c = c + 1;
        }
        proof {
            assert((r + 1) * cols == r * cols + cols) by (nonlinear_arith);
        }
        r = r + 1;
    }
    proof {
        assert(rows * cols == cols * rows) by (nonlinear_arith);
    }
    assert(zones@ =~= grid_view(cols as nat, rows as nat, name@).zones);
    ZoneLayout::new(name, zones)
}

/// A rectangle by the bits of its numbers.
fn rect_from(x: u64, y: u64, w: u64, h: u64) -> (r: ZoneRect)
    ensures
        r == rect_of(x, y, w, h),
{
    ZoneRect::new(fixed(x), fixed(y), fixed(w), fixed(h))
}

/// Narrow / wide / narrow: the layout most people actually want on a wide
/// monitor, with reference material either side of the thing being worked on.
pub fn priority_grid() -> (r: ZoneLayout)
    ensures
        r@ == priority_grid_view(),
{
    let zones: Vec<ZoneRect> = vec![
        rect_from(ZERO, ZERO, QUARTER, ONE),
        rect_from(QUARTER, ZERO, HALF, ONE),
        rect_from(THREE_QUARTERS, ZERO, QUARTER, ONE),
    ];
    assert(zones@ =~= priority_grid_view().zones);
    ZoneLayout::new("Priority Grid", zones)
}

/// One large primary zone with a stack of two beside it.
pub fn main_stack() -> (r: ZoneLayout)
    ensures
        r@ == main_stack_view(),
{
    let zones: Vec<ZoneRect> = vec![
        rect_from(ZERO, ZERO, THREE_FIFTHS, ONE),
        rect_from(THREE_FIFTHS, ZERO, TWO_FIFTHS, HALF),
        rect_from(THREE_FIFTHS, HALF, TWO_FIFTHS, HALF),
    ];
    assert(zones@ =~= main_stack_view().zones);
    ZoneLayout::new("Main + Stack", zones)
}

/// Built-in templates, by id.
pub fn default_layouts() -> (r: Table<String, ZoneLayout>)
    ensures
        forall|id: Seq<char>| #[trigger] r@.contains_key(id) <==> builtin(id) is Some,
        forall|id: Seq<char>| #[trigger] r@.contains_key(id) ==> builtin(id) == Some(r@[id]@),
{
    let mut layouts: Table<String, ZoneLayout> = Table::new();
    proof {
        lemma_builtin_ids();
    }
    layouts.insert("columns-2".to_owned(), columns(2, "Columns (2)"));
    layouts.insert("columns-3".to_owned(), columns(3, "Columns (3)"));
    layouts.insert("rows-2".to_owned(), rows(2, "Rows (2)"));
    layouts.insert("grid-2x2".to_owned(), grid(2, 2, "Grid (2x2)"));
    layouts.insert("priority-grid".to_owned(), priority_grid());
    layouts.insert("main-stack".to_owned(), main_stack());
    layouts
}

/// Whether an id is that of a built-in template.
pub fn is_builtin(id: &String) -> (r: bool)
    ensures
        r == (builtin(id@) is Some),
{
    default_layouts().contains_key(id)
}

} // verus!
