//! Layouts of equal parts tile the output, and so do the other built-in ones.

use crate::alignment::lemma_constants;
use crate::binary64::{lemma_signed, one_units, Binary64};
use crate::covering::{all_valid, holds_point, is_on_screen, is_reached, is_tiled, separate, separate_across};
use crate::dividers::Axis;
use crate::precision::{
    apart, lemma_negated, lemma_plus_exact, lemma_representable, lemma_rounded_finite, lemma_rounded_near,
    lemma_small_plus, slack,
};
use crate::rect::{ZoneRect, EPSILON, HALF, ONE, QUARTER, ZERO};
use crate::rounding::{lemma_rounded_scaled, lemma_units_small, rounded, scale, units, STEPS};
use crate::templates::{
    builtin, cell, column, columns_view, grid_view, main_stack_view, priority_grid_view, row, rows_view, share,
    share_start, THREE_FIFTHS, THREE_QUARTERS, TWO_FIFTHS,
};
use crate::tolerance::{lemma_magnitudes, tolerance};
use vstd::arithmetic::power2::{lemma2_to64, lemma_pow2_adds, lemma_pow2_pos, lemma_pow2_strictly_increases, pow2};
use vstd::prelude::*;

verus! {

/// The most parts that are each wider than the tolerance, with room to spare.
pub open spec fn most_parts() -> nat {
    0x4_0000
}

/// A number of parts is represented exactly.
proof fn lemma_count(n: nat)
    requires
        n <= most_parts(),
    ensures
        Binary64::spec_count(n as u64).is_finite(),
        !Binary64::spec_count(n as u64).is_negative(),
        units(Binary64::spec_count(n as u64).code()) == n * one_units(),
{
    lemma_representable(n, 1074);
    lemma_signed(false, rounded(n * one_units(), 1));
}

/// So many equal parts add up to one, up to what rounding loses.
proof fn lemma_share(n: nat)
    requires
        1 <= n <= most_parts(),
    ensures
        share(n).is_finite(),
        !share(n).is_negative(),
        apart(share(n).value() * n, one_units() as int) <= slack(),
        share(n).value() <= one_units() + slack(),
        tolerance() < share(n).value(),
{
    lemma_constants();
    lemma_magnitudes();
    lemma_count(n);
    reveal(Binary64::spec_over);
    let one = one_units();
    let s = slack() as nat;
    lemma2_to64();
    vstd::arithmetic::power2::lemma2_to64_rest();
    lemma_pow2_pos(1074);
    lemma_pow2_adds(52, 1022);
    lemma_pow2_strictly_increases(18, 1022);
    lemma_pow2_strictly_increases(1074, 1990);
    let d = n * one;
    assert(d >= one) by (nonlinear_arith)
        requires
            d == n * one,
            n >= 1,
    ;
    assert(units(Binary64::spec_count(n as u64).code()) == d);
    assert(Binary64::spec_count(n as u64).code() != 0) by {
        lemma_units_small(0);
    }
    assert(one * one <= d * pow2(1990)) by (nonlinear_arith)
        requires
            d >= one,
            one <= pow2(1990),
    ;
    lemma_rounded_finite(one * one, d);
    lemma_rounded_near(one * one, d);
    let code = rounded(one * one, d);
    lemma_signed(false, code);
    let u = units(code);
    assert(share(n).value() == u);
    let off = apart((u * n) as int, one as int);
    assert(apart((u * d) as int, (one * one) as int) == off * one) by {
        assert(u * d == (u * n) * one) by (nonlinear_arith)
            requires
                d == n * one,
        ;
        let a = (u * n) as int;
        let b = one as int;
        assert(a * b - b * b == (a - b) * b) by (nonlinear_arith);
        assert(b * b - a * b == (b - a) * b) by (nonlinear_arith);
        if a >= b {
            assert(a * b >= b * b) by (nonlinear_arith)
                requires
                    a >= b,
                    b > 0,
            ;
        } else {
            assert(a * b < b * b) by (nonlinear_arith)
                requires
                    a < b,
                    b > 0,
            ;
        }
    }
    assert(2 * STEPS * off <= one + STEPS * n) by (nonlinear_arith)
        requires
            2 * STEPS * (off * one) <= one * one + STEPS * (n * one),
            one > 0,
    ;
    assert(off <= s) by (nonlinear_arith)
        requires
            2 * STEPS * off <= one + STEPS * n,
            one == STEPS * s,
            n <= s,
    ;
    assert(u <= u * n) by (nonlinear_arith)
        requires
            n >= 1,
    ;
    if u <= tolerance() {
        lemma_pow2_adds(18, 1055);
        assert(u * n <= 0x4_0000 * u) by (nonlinear_arith)
            requires
                n <= 0x4_0000,
        ;
        assert(false);
    }
}

/// Where a part begins is so many parts from the start, up to what rounding loses.
proof fn lemma_share_start(i: nat, n: nat)
    requires
        i <= n,
        1 <= n <= most_parts(),
    ensures
        share_start(i as int, n).is_finite(),
        0 <= share_start(i as int, n).value() <= one_units() + 2 * slack(),
        apart(share_start(i as int, n).value(), share(n).value() * i) <= slack(),
        i == 0 ==> share_start(i as int, n).value() == 0,
{
    lemma_share(n);
    lemma_count(i);
    lemma_magnitudes();
    reveal(Binary64::spec_times);
    let one = one_units();
    let u = share(n).value() as nat;
    lemma_pow2_pos(1074);
    lemma2_to64();
    vstd::arithmetic::power2::lemma2_to64_rest();
    lemma_pow2_adds(53, 1022);
    lemma_pow2_adds(1, 1074);
    lemma_pow2_strictly_increases(1075, 1990);
    assert(units(share(n).code()) == u);
    let v = u * i;
    assert(v <= u * n) by (nonlinear_arith)
        requires
            v == u * i,
            i <= n,
    ;
    assert((i * one) * u == v * one) by (nonlinear_arith)
        requires
            v == u * i,
    ;
    lemma_rounded_scaled(v, 1, one);
    assert(1 * one == one);
    assert(1 * pow2(1990) == pow2(1990));
    lemma_rounded_finite(v, 1);
    lemma_rounded_near(v, 1);
    let code = rounded(v, 1);
    lemma_signed(false, code);
    let off = apart(units(code) as int, v as int);
    let s = slack();
    assert(off <= s) by (nonlinear_arith)
        requires
            2 * STEPS * off <= 2 * STEPS * s,
    ;
    if i == 0 {
        assert(v == 0) by (nonlinear_arith)
            requires
                v == u * i,
                i == 0,
        ;
        assert(2 * STEPS * off == 0) by (nonlinear_arith)
            requires
                2 * STEPS * off <= 0,
                off >= 0,
        ;
        assert(off == 0) by (nonlinear_arith)
            requires
                2 * STEPS * off == 0,
                off >= 0,
        ;
    }
}

/// Equal parts tile an axis: the first begins at its start, each ends where the next
/// one begins, and the last ends at its end, up to what rounding loses.
pub proof fn equal_parts_tile(i: nat, n: nat)
    requires
        i < n <= most_parts(),
    ensures
        share_start(0, n).value() == 0,
        apart(share_start(i as int, n).plus(share(n)).value(), share_start((i + 1) as int, n).value()) <= 3 * slack(),
        apart(share_start(n - 1, n).plus(share(n)).value(), one_units() as int) <= 3 * slack(),
{
    lemma_share(n);
    lemma_magnitudes();
    lemma_share_start(0, n);
    lemma_share_start(i, n);
    lemma_share_start(i + 1, n);
    lemma_share_start((n - 1) as nat, n);
    let u = share(n).value();
    assert(u * (i + 1) == u * i + u) by (nonlinear_arith);
    assert(u * n == u * (n - 1) + u) by (nonlinear_arith);
    assert(u * i + u <= u * n) by (nonlinear_arith)
        requires
            i + 1 <= n,
            u >= 0,
    ;
    lemma_small_plus(share_start(i as int, n), share(n));
    lemma_small_plus(share_start(n - 1, n), share(n));
}

/// Whether one axis of a zone is valid.
spec fn fits(low: Binary64, length: Binary64) -> bool {
    let eps = Binary64 { bits: EPSILON };
    &&& low.is_finite()
    &&& length.is_finite()
    &&& eps.below(length)
    &&& eps.negated().at_most(low)
    &&& low.plus(length).at_most((Binary64 { bits: ONE }).plus(eps))
}

proof fn lemma_part_fits(i: nat, n: nat)
    requires
        i < n <= most_parts(),
    ensures
        fits(share_start(i as int, n), share(n)),
{
    lemma_share(n);
    lemma_magnitudes();
    lemma_share_start(i, n);
    let u = share(n).value();
    assert(u * i + u <= u * n) by (nonlinear_arith)
        requires
            i + 1 <= n,
            u >= 0,
    ;
    lemma_small_plus(share_start(i as int, n), share(n));
    lemma_small_plus(Binary64 { bits: ONE }, Binary64 { bits: EPSILON });
    lemma_negated(Binary64 { bits: EPSILON });
}

proof fn lemma_whole_fits()
    ensures
        fits(Binary64 { bits: ZERO }, Binary64 { bits: ONE }),
{
    lemma_constants();
    lemma_magnitudes();
    lemma_small_plus(Binary64 { bits: ZERO }, Binary64 { bits: ONE });
    lemma_small_plus(Binary64 { bits: ONE }, Binary64 { bits: EPSILON });
    lemma_negated(Binary64 { bits: EPSILON });
}

/// Every zone of a layout of equal columns, rows or cells is usable.
pub proof fn equal_parts_are_valid(c: nat, cols: nat, r: nat, rows: nat)
    requires
        c < cols <= most_parts(),
        r < rows <= most_parts(),
    ensures
        column(c as int, cols).is_valid(),
        row(r as int, rows).is_valid(),
        cell(c as int, r as int, cols, rows).is_valid(),
{
    lemma_part_fits(c, cols);
    lemma_part_fits(r, rows);
    lemma_whole_fits();
}

/// Where a part lies, up to what rounding loses.
proof fn lemma_part(i: nat, n: nat)
    requires
        i < n <= most_parts(),
    ensures
        ({
            let from = share_start(i as int, n).value();
            let to = share_start(i as int, n).plus(share(n)).value();
            let u = share(n).value();
            &&& apart(from, u * i) <= slack()
            &&& apart(to, u * (i + 1)) <= 2 * slack()
            &&& 0 <= from
            &&& to <= one_units() + 3 * slack()
            &&& apart(u * n, one_units() as int) <= slack()
            &&& 0 < u
        }),
{
    lemma_share(n);
    lemma_magnitudes();
    lemma_share_start(i, n);
    let u = share(n).value();
    assert(u * (i + 1) == u * i + u) by (nonlinear_arith);
    assert(u * (i + 1) <= u * n) by (nonlinear_arith)
        requires
            i + 1 <= n,
            u >= 0,
    ;
    lemma_small_plus(share_start(i as int, n), share(n));
}

/// Of two parts the first ends where or before the second begins.
proof fn lemma_parts_apart(i: nat, j: nat, n: nat)
    requires
        i < j < n <= most_parts(),
    ensures
        share_start(i as int, n).plus(share(n)).value() <= share_start(j as int, n).value() + 3 * slack(),
{
    lemma_part(i, n);
    lemma_part(j, n);
    let u = share(n).value();
    assert(u * (i + 1) <= u * j) by (nonlinear_arith)
        requires
            i + 1 <= j,
            u >= 0,
    ;
}

/// The part that a place lies in.
proof fn lemma_part_at(at: int, n: nat) -> (i: nat)
    requires
        1 <= n <= most_parts(),
        0 <= at < one_units(),
    ensures
        i < n,
        share_start(i as int, n).value() - 3 * slack() <= at < share_start(i as int, n).plus(share(n)).value() + 3
            * slack(),
{
    lemma_magnitudes();
    lemma_part(0, n);
    let u = share(n).value();
    let q = at / u;
    vstd::arithmetic::div_mod::lemma_fundamental_div_mod(at, u);
    vstd::arithmetic::div_mod::lemma_div_pos_is_pos(at, u);
    assert(u * (q + 1) == u * q + u) by (nonlinear_arith);
    assert(0 <= at % u < u);
    if q < n {
        lemma_part(q as nat, n);
        q as nat
    } else {
        let i = (n - 1) as nat;
        lemma_part(i, n);
        assert(u * i <= u * q) by (nonlinear_arith)
            requires
                i <= q,
                u >= 0,
        ;
        assert(u * (i + 1) == u * n);
        i
    }
}

proof fn lemma_whole()
    ensures
        (Binary64 { bits: ZERO }).value() == 0,
        (Binary64 { bits: ZERO }).plus(Binary64 { bits: ONE }).value() == one_units(),
{
    lemma_constants();
    lemma_units_small(0);
    lemma_plus_exact(Binary64 { bits: ZERO }, Binary64 { bits: ONE }, (Binary64 { bits: ONE }).code());
}

/// A layout of equal columns is tiled, up to what rounding loses.
pub proof fn equal_columns_are_tiled(n: nat, name: Seq<char>)
    requires
        1 <= n <= most_parts(),
    ensures
        is_tiled(columns_view(n, name).zones, 3 * slack()),
{
    let zones = columns_view(n, name).zones;
    let off = 3 * slack();
    lemma_magnitudes();
    lemma_whole();
    assert forall|i: int| 0 <= i < zones.len() implies is_on_screen(#[trigger] zones[i], off) by {
        lemma_part(i as nat, n);
    }
    assert forall|x: int, y: int| 0 <= x < one_units() && 0 <= y < one_units() implies #[trigger] is_reached(
        zones,
        x,
        y,
        off,
    ) by {
        let i = lemma_part_at(x, n) as int;
        assert(holds_point(zones[i], x, y, off));
    }
    assert forall|i: int, j: int|
        #![trigger zones[i], zones[j]]
        0 <= i < zones.len() && 0 <= j < zones.len() && i != j implies separate(zones[i], zones[j], off) by {
        if i < j {
            lemma_parts_apart(i as nat, j as nat, n);
        } else {
            lemma_parts_apart(j as nat, i as nat, n);
        }
        assert(separate_across(zones[i], zones[j], Axis::Vertical, off));
    }
}

/// A layout of equal rows is tiled, up to what rounding loses.
pub proof fn equal_rows_are_tiled(n: nat, name: Seq<char>)
    requires
        1 <= n <= most_parts(),
    ensures
        is_tiled(rows_view(n, name).zones, 3 * slack()),
{
    let zones = rows_view(n, name).zones;
    let off = 3 * slack();
    lemma_magnitudes();
    lemma_whole();
    assert forall|i: int| 0 <= i < zones.len() implies is_on_screen(#[trigger] zones[i], off) by {
        lemma_part(i as nat, n);
    }
    assert forall|x: int, y: int| 0 <= x < one_units() && 0 <= y < one_units() implies #[trigger] is_reached(
        zones,
        x,
        y,
        off,
    ) by {
        let i = lemma_part_at(y, n) as int;
        assert(holds_point(zones[i], x, y, off));
    }
    assert forall|i: int, j: int|
        #![trigger zones[i], zones[j]]
        0 <= i < zones.len() && 0 <= j < zones.len() && i != j implies separate(zones[i], zones[j], off) by {
        if i < j {
            lemma_parts_apart(i as nat, j as nat, n);
        } else {
            lemma_parts_apart(j as nat, i as nat, n);
        }
        assert(separate_across(zones[i], zones[j], Axis::Horizontal, off));
    }
}

/// Two cells of a grid do not overlap.
proof fn lemma_cells_separate(c: nat, r: nat, d: nat, s: nat, cols: nat, rows: nat)
    requires
        c < cols <= most_parts(),
        d < cols,
        r < rows <= most_parts(),
        s < rows,
        c != d || r != s,
    ensures
        separate(
            cell(c as int, r as int, cols, rows),
            cell(d as int, s as int, cols, rows),
            3 * slack(),
        ),
{
    let a = cell(c as int, r as int, cols, rows);
    let b = cell(d as int, s as int, cols, rows);
    if c < d {
        lemma_parts_apart(c, d, cols);
        assert(separate_across(a, b, Axis::Vertical, 3 * slack()));
    } else if d < c {
        lemma_parts_apart(d, c, cols);
        assert(separate_across(a, b, Axis::Vertical, 3 * slack()));
    } else if r < s {
        lemma_parts_apart(r, s, rows);
        assert(separate_across(a, b, Axis::Horizontal, 3 * slack()));
    } else {
        lemma_parts_apart(s, r, rows);
        assert(separate_across(a, b, Axis::Horizontal, 3 * slack()));
    }
}

/// Column and row of a cell by its number.
proof fn lemma_cell_place(i: int, cols: nat, rows: nat)
    requires
        0 <= i < cols * rows,
        cols > 0,
    ensures
        0 <= i % (cols as int) < cols,
        0 <= i / (cols as int) < rows,
        i == cols * (i / (cols as int)) + i % (cols as int),
{
    let n = cols as int;
    vstd::arithmetic::div_mod::lemma_fundamental_div_mod(i, n);
    vstd::arithmetic::div_mod::lemma_div_pos_is_pos(i, n);
    let q = i / n;
    if q >= rows {
        assert(n * q >= n * rows) by (nonlinear_arith)
            requires
                q >= rows,
                n > 0,
        ;
    }
}

/// A layout of equal cells is tiled, up to what rounding loses.
pub proof fn equal_cells_are_tiled(cols: nat, rows: nat, name: Seq<char>)
    requires
        1 <= cols <= most_parts(),
        1 <= rows <= most_parts(),
    ensures
        is_tiled(grid_view(cols, rows, name).zones, 3 * slack()),
{
    let zones = grid_view(cols, rows, name).zones;
    let off = 3 * slack();
    let n = cols as int;
    assert forall|i: int| 0 <= i < zones.len() implies is_on_screen(#[trigger] zones[i], off) by {
        lemma_magnitudes();
        lemma_cell_place(i, cols, rows);
        lemma_part((i % n) as nat, cols);
        lemma_part((i / n) as nat, rows);
    }
    assert forall|x: int, y: int| 0 <= x < one_units() && 0 <= y < one_units() implies #[trigger] is_reached(
        zones,
        x,
        y,
        off,
    ) by {
        let c = lemma_part_at(x, cols) as int;
        let r = lemma_part_at(y, rows) as int;
        let i = n * r + c;
        assert(0 <= i < cols * rows) by (nonlinear_arith)
            requires
                i == n * r + c,
                n == cols,
                0 <= c < n,
                0 <= r < rows,
        ;
        assert(i == r * n + c) by (nonlinear_arith)
            requires
                i == n * r + c,
        ;
        vstd::arithmetic::div_mod::lemma_fundamental_div_mod_converse(i, n, r, c);
        assert(zones[i] == cell(c, r, cols, rows));
        assert(holds_point(zones[i], x, y, off));
    }
    assert forall|i: int, j: int|
        #![trigger zones[i], zones[j]]
        0 <= i < zones.len() && 0 <= j < zones.len() && i != j implies separate(zones[i], zones[j], off) by {
        lemma_cell_place(i, cols, rows);
        lemma_cell_place(j, cols, rows);
        lemma_cells_separate(
            (i % n) as nat,
            (i / n) as nat,
            (j % n) as nat,
            (j / n) as nat,
            cols,
            rows,
        );
    }
}

// ---------------------------------------------------------------------------
// The built-in layouts
// ---------------------------------------------------------------------------

/// The numbers that the built-in layouts are made of.
proof fn lemma_parts_of_one()
    ensures
        (Binary64 { bits: ZERO }).is_finite() && (Binary64 { bits: ZERO }).value() == 0,
        (Binary64 { bits: ONE }).is_finite() && (Binary64 { bits: ONE }).value() == one_units(),
        (Binary64 { bits: QUARTER }).is_finite() && 4 * (Binary64 { bits: QUARTER }).value() == one_units(),
        (Binary64 { bits: HALF }).is_finite() && 2 * (Binary64 { bits: HALF }).value() == one_units(),
        (Binary64 { bits: THREE_QUARTERS }).is_finite() && 4 * (Binary64 { bits: THREE_QUARTERS }).value() == 3
            * one_units(),
        (Binary64 { bits: TWO_FIFTHS }).is_finite() && 4 * (Binary64 { bits: TWO_FIFTHS }).value() > one_units(),
        (Binary64 { bits: THREE_FIFTHS }).is_finite() && 2 * (Binary64 { bits: THREE_FIFTHS }).value() > one_units(),
        (Binary64 { bits: TWO_FIFTHS }).value() + (Binary64 { bits: THREE_FIFTHS }).value() == one_units(),
{
    lemma_constants();
    lemma_magnitudes();
    lemma_units_small(0);
    lemma2_to64();
    vstd::arithmetic::power2::lemma2_to64_rest();
    lemma_pow2_pos(1020);
    lemma_pow2_adds(1, 1020);
    lemma_pow2_adds(54, 1020);
    let p = pow2(1020);
    assert(scale(QUARTER as nat) == 1020 && QUARTER - 1020 * STEPS == 0x10_0000_0000_0000);
    assert(scale(HALF as nat) == 1021 && HALF - 1021 * STEPS == 0x10_0000_0000_0000);
    assert(scale(THREE_QUARTERS as nat) == 1021 && THREE_QUARTERS - 1021 * STEPS == 0x18_0000_0000_0000);
    assert(scale(TWO_FIFTHS as nat) == 1020 && TWO_FIFTHS - 1020 * STEPS == 0x19_9999_9999_999a);
    assert(scale(THREE_FIFTHS as nat) == 1021 && THREE_FIFTHS - 1021 * STEPS == 0x13_3333_3333_3333);
    assert((Binary64 { bits: QUARTER }).value() == 0x10_0000_0000_0000 * p);
    assert((Binary64 { bits: HALF }).value() == 0x10_0000_0000_0000 * (2 * p));
    assert((Binary64 { bits: THREE_QUARTERS }).value() == 0x18_0000_0000_0000 * (2 * p));
    assert((Binary64 { bits: TWO_FIFTHS }).value() == 0x19_9999_9999_999a * p);
    assert((Binary64 { bits: THREE_FIFTHS }).value() == 0x13_3333_3333_3333 * (2 * p));
    assert(one_units() == 0x40_0000_0000_0000 * p);
}

/// A zone that lies on the screen is usable, and its edges are where they should be.
proof fn lemma_plain(zone: ZoneRect)
    requires
        zone.x.is_finite() && zone.y.is_finite() && zone.w.is_finite() && zone.h.is_finite(),
        0 <= zone.x.value() && 0 <= zone.y.value(),
        tolerance() < zone.w.value() && tolerance() < zone.h.value(),
        zone.x.value() + zone.w.value() <= one_units(),
        zone.y.value() + zone.h.value() <= one_units(),
    ensures
        zone.is_valid(),
        is_on_screen(zone, 3 * slack()),
        apart(zone.right().value(), zone.x.value() + zone.w.value()) <= slack(),
        apart(zone.bottom().value(), zone.y.value() + zone.h.value()) <= slack(),
{
    lemma_magnitudes();
    lemma_small_plus(zone.x, zone.w);
    lemma_small_plus(zone.y, zone.h);
    lemma_small_plus(Binary64 { bits: ONE }, Binary64 { bits: EPSILON });
    lemma_negated(Binary64 { bits: EPSILON });
}

proof fn lemma_symmetric(a: ZoneRect, b: ZoneRect, off: int)
    requires
        separate(a, b, off),
    ensures
        separate(b, a, off),
{
}

/// A layout of three zones is tiled if they are usable, do not overlap and reach
/// every point.
proof fn lemma_three(zones: Seq<ZoneRect>, off: int)
    requires
        zones.len() == 3,
        zones[0].is_valid() && zones[1].is_valid() && zones[2].is_valid(),
        is_on_screen(zones[0], off) && is_on_screen(zones[1], off) && is_on_screen(zones[2], off),
        separate(zones[0], zones[1], off) && separate(zones[0], zones[2], off) && separate(zones[1], zones[2], off),
        forall|x: int, y: int|
            0 <= x < one_units() && 0 <= y < one_units() ==> #[trigger] holds_point(zones[0], x, y, off) || holds_point(
                zones[1],
                x,
                y,
                off,
            ) || holds_point(zones[2], x, y, off),
    ensures
        all_valid(zones),
        is_tiled(zones, off),
{
    let (a, b, c) = (zones[0], zones[1], zones[2]);
    assert forall|i: int| 0 <= i < zones.len() implies (#[trigger] zones[i]).is_valid() && is_on_screen(
        zones[i],
        off,
    ) by {
        assert(zones[i] == a || zones[i] == b || zones[i] == c);
    }
    assert forall|x: int, y: int| 0 <= x < one_units() && 0 <= y < one_units() implies #[trigger] is_reached(
        zones,
        x,
        y,
        off,
    ) by {
        assert(holds_point(zones[0], x, y, off) || holds_point(zones[1], x, y, off) || holds_point(
            zones[2],
            x,
            y,
            off,
        ));
    }
    assert forall|i: int, j: int|
        #![trigger zones[i], zones[j]]
        0 <= i < zones.len() && 0 <= j < zones.len() && i != j implies separate(zones[i], zones[j], off) by {
        if j < i {
            lemma_symmetric(zones[j], zones[i], off);
        }
    }
}

proof fn lemma_priority_grid_tiled()
    ensures
        all_valid(priority_grid_view().zones),
        is_tiled(priority_grid_view().zones, 3 * slack()),
{
    let zones = priority_grid_view().zones;
    lemma_magnitudes();
    lemma_parts_of_one();
    lemma_plain(zones[0]);
    lemma_plain(zones[1]);
    lemma_plain(zones[2]);
    lemma_three(zones, 3 * slack());
}

proof fn lemma_main_stack_tiled()
    ensures
        all_valid(main_stack_view().zones),
        is_tiled(main_stack_view().zones, 3 * slack()),
{
    let zones = main_stack_view().zones;
    lemma_magnitudes();
    lemma_parts_of_one();
    lemma_plain(zones[0]);
    lemma_plain(zones[1]);
    lemma_plain(zones[2]);
    lemma_three(zones, 3 * slack());
}

/// Every built-in layout has usable zones only, and is tiled, up to what rounding
/// loses.
pub proof fn built_in_layouts_are_tiled(id: Seq<char>)
    ensures
        builtin(id) matches Some(layout) ==> all_valid(layout.zones) && is_tiled(layout.zones, 3 * slack()),
{
    equal_columns_are_tiled(2, "Columns (2)"@);
    equal_columns_are_tiled(3, "Columns (3)"@);
    equal_rows_are_tiled(2, "Rows (2)"@);
    equal_cells_are_tiled(2, 2, "Grid (2x2)"@);
    lemma_priority_grid_tiled();
    lemma_main_stack_tiled();
    equal_parts_are_valid(0, 2, 0, 2);
    equal_parts_are_valid(1, 2, 1, 2);
    equal_parts_are_valid(0, 2, 1, 2);
    equal_parts_are_valid(1, 2, 0, 2);
    equal_parts_are_valid(0, 3, 0, 2);
    equal_parts_are_valid(1, 3, 0, 2);
    equal_parts_are_valid(2, 3, 0, 2);
    let cells = grid_view(2, 2, "Grid (2x2)"@).zones;
    assert(all_valid(cells)) by {
        assert forall|i: int| 0 <= i < cells.len() implies (#[trigger] cells[i]).is_valid() by {
            assert(cells.len() == 4);
            assert(i == 0 || i == 1 || i == 2 || i == 3);
            assert(cells[i] == cell(i % 2, i / 2, 2, 2));
        }
    }
}

} // verus!
