//! Edges that stay where they are, however often a rectangle is taken together with
//! others.
//!
//! The far edge of a union is worked out by way of a length: the distance from the
//! near edge, rounded, and added to the near edge again, rounded. Numbers whose last
//! digit is even are not moved by that beyond themselves, so they bound what any
//! number of unions can do.

use crate::alignment::lemma_constants;
use crate::binary64::{lemma_signed, nearest, one_units, signed, Binary64};
use crate::precision::{
    apart, lemma_negated, lemma_nearest_monotone, lemma_plus_exact, lemma_plus_monotone, lemma_rounded_finite,
    lemma_rounded_monotone, lemma_rounded_near, lemma_small_minus, lemma_small_plus, lemma_units_of_parts, slack,
};
use crate::rect::ZERO;
use crate::rounding::{
    goes_up, lemma_code_parts, lemma_rounded_exact, lemma_rounded_parts, lemma_rounded_unfold, lemma_units_next,
    lemma_units_ordered, lemma_units_small, rounded, scale, units, INFINITE, STEPS,
};
use vstd::arithmetic::power2::{lemma2_to64, lemma_pow2_adds, lemma_pow2_pos, lemma_pow2_strictly_increases, pow2};
use vstd::prelude::*;

verus! {

/// What is no larger than a magnitude is rounded by at most half of that one's step.
proof fn lemma_half_step(v: nat, code: nat)
    requires
        code < INFINITE,
        v <= units(code),
    ensures
        rounded(v, 1) <= code,
        2 * apart(units(rounded(v, 1)) as int, v as int) <= pow2(scale(code)),
{
    lemma_rounded_monotone(v, units(code), 1);
    lemma_rounded_exact(code);
    lemma_code_parts(code);
    let (e, q, r) = lemma_rounded_unfold(v, 1);
    let f = scale(code);
    let p = pow2(e);
    lemma_pow2_pos(e);
    lemma_pow2_pos(f);
    assert(1 * p == p);
    if e > f {
        lemma_pow2_adds(1, f);
        lemma2_to64();
        if f + 1 < e {
            lemma_pow2_strictly_increases(f + 1, e);
        }
        let g = pow2(f);
        let k = (code - f * STEPS) as nat;
        assert(units(code) < 2 * STEPS * g) by (nonlinear_arith)
            requires
                units(code) == k * g,
                k < 2 * STEPS,
                g > 0,
        ;
        assert(v >= STEPS * (2 * g)) by (nonlinear_arith)
            requires
                v == q * p + r,
                q >= STEPS,
                p >= 2 * g,
                r >= 0,
        ;
        assert(STEPS * (2 * g) == 2 * STEPS * g) by (nonlinear_arith);
        assert(false);
    }
    if e < f {
        lemma_pow2_strictly_increases(e, f);
    }
    lemma_units_of_parts(e, q);
}

/// A magnitude with an even code takes in what is up to half a step above it.
proof fn lemma_even_above(code: nat, d: nat)
    requires
        code < INFINITE,
        code % 2 == 0,
        2 * d <= pow2(scale(code)),
    ensures
        rounded(units(code) + d, 1) == code,
{
    lemma_code_parts(code);
    let e = scale(code);
    let q = (code - e * STEPS) as nat;
    let p = pow2(e);
    lemma_pow2_pos(e);
    assert(1 * p == p);
    assert(q % 2 == 0) by {
        assert((e * STEPS) % 2 == 0) by (nonlinear_arith)
            requires
                STEPS == 0x10_0000_0000_0000,
        ;
    }
    lemma_rounded_parts(units(code) + d, 1, e, q, d);
}

/// A magnitude with an even code takes in what is up to half a step below it, unless
/// it is the first of its scale.
proof fn lemma_even_below(code: nat, d: nat)
    requires
        code < INFINITE,
        code % 2 == 0,
        code % STEPS as nat != 0,
        2 * d <= pow2(scale(code)),
    ensures
        d <= units(code),
        rounded((units(code) - d) as nat, 1) == code,
{
    lemma_code_parts(code);
    let e = scale(code);
    let q = (code - e * STEPS) as nat;
    let p = pow2(e);
    lemma_pow2_pos(e);
    assert(1 * p == p);
    if d == 0 {
        lemma_rounded_exact(code);
    } else {
        assert(q % 2 == 0 && q != STEPS && q != 0) by {
            assert((e * STEPS) % 2 == 0) by (nonlinear_arith)
                requires
                    STEPS == 0x10_0000_0000_0000,
            ;
            if q == STEPS || q == 0 {
                let m = if q == 0 {
                    e
                } else {
                    e + 1
                };
                assert(code == m * STEPS) by (nonlinear_arith)
                    requires
                        code == e * STEPS + q,
                        q == 0 && m == e || q == STEPS && m == e + 1,
                ;
                vstd::arithmetic::div_mod::lemma_fundamental_div_mod_converse(code as int, STEPS as int, m as int, 0);
            }
        }
        let k = (q - 1) as nat;
        let r = (p - d) as nat;
        assert(q * p == k * p + p) by (nonlinear_arith)
            requires
                k == q - 1,
        ;
        assert(k * p >= 0);
        lemma_rounded_parts((units(code) - d) as nat, 1, e, k, r);
        assert(goes_up(k, r, p));
    }
}

/// Below two, codes are at most the slack apart.
proof fn lemma_small_steps(code: nat)
    requires
        units(code) < 2 * one_units(),
    ensures
        pow2(scale(code)) <= slack(),
        code < INFINITE,
        units(code + 1) <= units(code) + slack(),
{
    lemma_code_parts(code);
    lemma_units_next(code);
    let e = scale(code);
    let q = (code - e * STEPS) as nat;
    let p = pow2(e);
    lemma_pow2_pos(e);
    lemma2_to64();
    vstd::arithmetic::power2::lemma2_to64_rest();
    lemma_pow2_adds(53, 1022);
    lemma_pow2_adds(1, 1074);
    if e > 1022 {
        lemma_pow2_strictly_increases(1022, e);
        lemma_pow2_adds(1, 1022);
        if e > 1023 {
            lemma_pow2_strictly_increases(1023, e);
        }
        let s = pow2(1022);
        assert(units(code) >= STEPS * (2 * s)) by (nonlinear_arith)
            requires
                units(code) == q * p,
                q >= STEPS,
                p >= 2 * s,
        ;
        assert(STEPS * (2 * s) == 2 * STEPS * s) by (nonlinear_arith);
        assert(false);
    }
    if e < 1022 {
        lemma_pow2_strictly_increases(e, 1022);
    }
    assert(code < INFINITE) by (nonlinear_arith)
        requires
            code == e * STEPS + q,
            e <= 1022,
            q < 2 * STEPS,
            STEPS == 0x10_0000_0000_0000,
            INFINITE == 0x7ff0_0000_0000_0000,
    ;
}

/// The nearest code to a magnitude below two.
proof fn lemma_near_code(v: nat) -> (c: nat)
    requires
        v + 4 * slack() < 2 * one_units(),
    ensures
        c < INFINITE,
        apart(units(c) as int, v as int) <= slack(),
        v <= units(c + 1),
        c > 0 ==> units((c - 1) as nat) <= v,
{
    let c = rounded(v, 1);
    lemma2_to64();
    vstd::arithmetic::power2::lemma2_to64_rest();
    lemma_pow2_adds(53, 1022);
    lemma_pow2_adds(1, 1074);
    lemma_pow2_strictly_increases(1075, 1990);
    lemma_pow2_pos(1022);
    assert(1 * pow2(1990) == pow2(1990));
    lemma_rounded_finite(v, 1);
    lemma_rounded_near(v, 1);
    let off = apart(units(c) as int, v as int);
    let s = slack();
    assert(off <= s) by (nonlinear_arith)
        requires
            2 * STEPS * off <= 2 * STEPS * s,
    ;
    lemma_small_steps(c);
    if v > units(c + 1) {
        lemma_units_ordered(c, c + 1);
        lemma_rounded_monotone(units(c + 1), v, 1);
        lemma_rounded_exact(c + 1);
    }
    if c > 0 && units((c - 1) as nat) > v {
        lemma_units_ordered((c - 1) as nat, c);
        lemma_rounded_monotone(v, units((c - 1) as nat), 1);
        lemma_rounded_exact((c - 1) as nat);
    }
    c
}

/// An even number not below a magnitude, and hardly above it.
proof fn lemma_even_over(v: nat) -> (c: nat)
    requires
        v + 8 * slack() < 2 * one_units(),
    ensures
        c < INFINITE,
        c % 2 == 0,
        v <= units(c) <= v + 3 * slack(),
{
    let n = lemma_near_code(v);
    lemma_pow2_pos(1022);
    lemma_small_steps(n);
    lemma_small_steps(n + 1);
    lemma_units_ordered(n + 1, n + 2);
    lemma_small_steps(n + 2);
    if (n + 1) % 2 == 0 {
        n + 1
    } else {
        n + 2
    }
}

/// An even number that is not the first of its scale, not above a magnitude and
/// hardly below it.
proof fn lemma_even_under(v: nat) -> (c: nat)
    requires
        v + 8 * slack() < 2 * one_units(),
        16 * slack() <= v,
    ensures
        c < INFINITE,
        c % 2 == 0,
        c % STEPS as nat != 0,
        units(c) <= v <= units(c) + 5 * slack(),
{
    let n = lemma_near_code(v);
    lemma_pow2_pos(1022);
    lemma_units_small(0);
    lemma_units_small(1);
    lemma_units_small(2);
    lemma_units_small(3);
    lemma_units_small(4);
    lemma2_to64();
    lemma_pow2_strictly_increases(3, 1022);
    if n <= 4 {
        assert(false);
    }
    lemma_units_ordered((n - 1) as nat, n);
    lemma_units_ordered((n - 2) as nat, n);
    lemma_units_ordered((n - 3) as nat, n);
    lemma_units_ordered((n - 4) as nat, n);
    lemma_small_steps((n - 1) as nat);
    lemma_small_steps((n - 2) as nat);
    lemma_small_steps((n - 3) as nat);
    lemma_small_steps((n - 4) as nat);
    let even = if (n - 1) % 2 == 0 {
        (n - 1) as nat
    } else {
        (n - 2) as nat
    };
    lemma_units_ordered(even, (n - 1) as nat);
    lemma_units_ordered((even - 2) as nat, (n - 1) as nat);
    if even % STEPS as nat == 0 {
        assert((even - 2) as nat % STEPS as nat != 0) by {
            let m = even / STEPS as nat;
            vstd::arithmetic::div_mod::lemma_fundamental_div_mod(even as int, STEPS as int);
            assert(even - 2 == (m - 1) * STEPS + (STEPS - 2)) by (nonlinear_arith)
                requires
                    even == STEPS * m,
            ;
            vstd::arithmetic::div_mod::lemma_fundamental_div_mod_converse(
                even - 2,
                STEPS as int,
                m - 1,
                STEPS - 2,
            );
        }
        (even - 2) as nat
    } else {
        even
    }
}

/// Where an edge ends up when it is told by its distance from another one.
pub open spec fn carried(from: Binary64, to: Binary64) -> Binary64 {
    from.plus(to.minus(from))
}

/// The value of a rounded magnitude.
proof fn lemma_nearest_value(v: int, negative_zero: bool)
    requires
        0 <= v <= 2 * one_units(),
    ensures
        nearest(v, negative_zero).is_finite(),
        nearest(v, negative_zero).value() == units(rounded(v as nat, 1)),
{
    lemma2_to64();
    lemma_pow2_adds(1, 1074);
    lemma_pow2_strictly_increases(1075, 1990);
    assert(1 * pow2(1990) == pow2(1990));
    lemma_rounded_finite(v as nat, 1);
    lemma_units_small(0);
    lemma_signed(false, rounded(v as nat, 1));
    lemma_signed(negative_zero, 0);
    if v == 0 {
        lemma_rounded_exact(0);
    }
}

/// An edge that is further away never ends up nearer.
pub proof fn lemma_carried_monotone(from: Binary64, a: Binary64, b: Binary64)
    requires
        from.is_finite(),
        a.is_finite(),
        b.is_finite(),
        a.value() <= b.value(),
        apart(a.value() - from.value(), 0) <= 2 * one_units(),
        apart(b.value() - from.value(), 0) <= 2 * one_units(),
    ensures
        carried(from, a).value() <= carried(from, b).value(),
{
    lemma_negated(from);
    lemma_small_minus(a, from);
    lemma_small_minus(b, from);
    lemma_plus_monotone(a, from.negated(), b, from.negated());
    lemma_plus_monotone(from, a.minus(from), from, b.minus(from));
}

/// Whether a number is even, and not negative.
pub open spec fn is_even(b: Binary64) -> bool {
    b.is_finite() && !b.is_negative() && b.code() % 2 == 0
}

/// Whether it is moreover not the first of its scale.
pub open spec fn is_inner(b: Binary64) -> bool {
    is_even(b) && b.code() % STEPS as nat != 0
}

/// An even number is not carried beyond itself from anywhere between zero and it.
pub proof fn lemma_even_lid(from: Binary64, b: Binary64)
    requires
        is_even(b),
        from.is_finite(),
        0 <= from.value() <= b.value(),
        b.value() + 2 * slack() < 2 * one_units(),
    ensures
        carried(from, b).value() <= b.value(),
{
    reveal(Binary64::spec_plus);
    lemma_negated(from);
    let code = b.code();
    let step = pow2(scale(code));
    let h = step / 2;
    let v = b.value() - from.value();
    lemma_small_steps(code);
    lemma_half_step(v as nat, code);
    lemma_nearest_value(v, b.is_negative() && from.negated().is_negative());
    let w = b.minus(from);
    assert(w.value() <= v + h);
    lemma_even_above(code, h);
    let top = b.value() + h;
    lemma_nearest_value(top, false);
    lemma_nearest_monotone(from.value() + w.value(), top, from.is_negative() && w.is_negative(), false);
}

/// Nor is it carried short of itself, unless it is the first of its scale.
pub proof fn lemma_even_floor(from: Binary64, b: Binary64)
    requires
        is_inner(b),
        from.is_finite(),
        0 <= from.value() <= b.value(),
        b.value() + 2 * slack() < 2 * one_units(),
    ensures
        carried(from, b).value() >= b.value(),
{
    reveal(Binary64::spec_plus);
    lemma_negated(from);
    let code = b.code();
    let step = pow2(scale(code));
    let h = step / 2;
    let v = b.value() - from.value();
    lemma_small_steps(code);
    lemma_half_step(v as nat, code);
    lemma_nearest_value(v, b.is_negative() && from.negated().is_negative());
    let w = b.minus(from);
    assert(w.value() >= v - h);
    lemma_even_below(code, h);
    let bottom = b.value() - h;
    lemma_nearest_value(bottom, false);
    lemma_nearest_monotone(bottom, from.value() + w.value(), false, from.is_negative() && w.is_negative());
}

/// An even number not below a magnitude, and hardly above it.
pub proof fn lemma_lid(v: int) -> (b: Binary64)
    requires
        0 <= v,
        v + 8 * slack() < 2 * one_units(),
    ensures
        is_even(b),
        v <= b.value() <= v + 3 * slack(),
{
    let c = lemma_even_over(v as nat);
    lemma_signed(false, c);
    signed(false, c)
}

/// An even number not above a magnitude, and hardly below it.
pub proof fn lemma_floor(v: int) -> (b: Binary64)
    requires
        16 * slack() <= v,
        v + 8 * slack() < 2 * one_units(),
    ensures
        is_inner(b),
        b.value() <= v <= b.value() + 5 * slack(),
{
    lemma_pow2_pos(1022);
    let c = lemma_even_under(v as nat);
    lemma_signed(false, c);
    signed(false, c)
}

/// A value that is no larger than a magnitude is rounded by at most half of that
/// one's step.
proof fn lemma_nearest_half(v: int, negative_zero: bool, code: nat)
    requires
        code < INFINITE,
        apart(v, 0) <= units(code),
    ensures
        2 * apart(nearest(v, negative_zero).value(), v) <= pow2(scale(code)),
{
    let n = apart(v, 0) as nat;
    lemma_half_step(n, code);
    lemma_units_small(0);
    lemma_signed(negative_zero, 0);
    lemma_signed(v < 0, rounded(n, 1));
    if v == 0 {
        lemma_rounded_exact(0);
    }
}

/// A length that is even carries to a place that stays put, from below zero.
proof fn lemma_length_stays(from: Binary64, w: Binary64)
    requires
        is_even(w),
        from.is_finite(),
        from.value() < 0,
        -w.value() <= from.value() + w.value(),
        w.value() + 2 * slack() < 2 * one_units(),
    ensures
        from.plus(w).is_finite(),
        apart(from.plus(w).value(), from.value() + w.value()) <= slack(),
        carried(from, from.plus(w)).value() <= from.plus(w).value(),
        is_inner(w) ==> carried(from, from.plus(w)).value() >= from.plus(w).value(),
{
    let b = from.plus(w);
    lemma_small_plus(from, w);
    let code = w.code();
    let h = pow2(scale(code)) / 2;
    let v = from.value() + w.value();
    lemma_small_steps(code);
    lemma_even_above(code, h);
    lemma_negated(from);
    assert(2 * apart(b.value(), v) <= pow2(scale(code))) by {
        reveal(Binary64::spec_plus);
        lemma_nearest_half(v, from.is_negative() && w.is_negative(), code);
    }
    let top = w.value() + h;
    let back = b.value() - from.value();
    assert(back >= w.value() - h);
    assert(b.minus(from) == nearest(back, b.is_negative() && from.negated().is_negative())) by {
        reveal(Binary64::spec_plus);
    }
    lemma_nearest_value(top, false);
    lemma_nearest_monotone(back, top, b.is_negative() && from.negated().is_negative(), false);
    assert(b.minus(from).value() <= w.value());
    lemma_small_minus(b, from);
    lemma_plus_monotone(from, b.minus(from), from, w);
    if is_inner(w) {
        lemma_even_below(code, h);
        let bottom = w.value() - h;
        lemma_nearest_value(bottom, false);
        lemma_nearest_monotone(bottom, back, false, b.is_negative() && from.negated().is_negative());
        assert(b.minus(from).value() >= w.value());
        lemma_plus_monotone(from, w, from, b.minus(from));
    }
}

/// A place not before another one, and hardly after it, that is not carried beyond
/// itself from a place below zero.
pub proof fn lemma_lid_beyond(from: Binary64, b: Binary64) -> (c: Binary64)
    requires
        from.is_finite(),
        b.is_finite(),
        from.value() < 0,
        0 <= b.value(),
        b.value() - from.value() + 12 * slack() < 2 * one_units(),
    ensures
        c.is_finite(),
        b.value() <= c.value() <= b.value() + 4 * slack(),
        carried(from, c).value() <= c.value(),
{
    lemma_pow2_pos(1022);
    let w = lemma_lid(b.value() - from.value());
    lemma_length_stays(from, w);
    lemma_reaches(from, w, b);
    from.plus(w)
}

/// A place not after another one, and hardly before it, that is not carried short of
/// itself from a place below zero.
pub proof fn lemma_floor_beyond(from: Binary64, b: Binary64) -> (c: Binary64)
    requires
        from.is_finite(),
        b.is_finite(),
        from.value() < 0,
        10 * slack() <= 2 * b.value() - from.value(),
        16 * slack() <= b.value() - from.value(),
        b.value() - from.value() + 12 * slack() < 2 * one_units(),
    ensures
        c.is_finite(),
        b.value() - 6 * slack() <= c.value() <= b.value(),
        carried(from, c).value() >= c.value(),
{
    lemma_pow2_pos(1022);
    let w = lemma_floor(b.value() - from.value());
    lemma_length_stays(from, w);
    lemma_reaches(from, w, b);
    from.plus(w)
}

/// A sum lies on the same side of a number as what it is rounded from.
proof fn lemma_reaches(a: Binary64, w: Binary64, b: Binary64)
    requires
        a.is_finite(),
        w.is_finite(),
        b.is_finite(),
        apart(b.value(), 0) <= 2 * one_units(),
    ensures
        a.value() + w.value() >= b.value() ==> a.plus(w).value() >= b.value(),
        a.value() + w.value() <= b.value() ==> a.plus(w).value() <= b.value(),
{
    lemma_constants();
    lemma_units_small(0);
    let zero = Binary64 { bits: ZERO };
    lemma_plus_exact(b, zero, b.code());
    if a.value() + w.value() >= b.value() {
        lemma_plus_monotone(b, zero, a, w);
    }
    if a.value() + w.value() <= b.value() {
        lemma_plus_monotone(a, w, b, zero);
    }
}

/// A sum that is not below zero is not rounded to below zero.
pub proof fn lemma_not_before(a: Binary64, w: Binary64)
    requires
        a.is_finite(),
        w.is_finite(),
        a.value() + w.value() >= 0,
    ensures
        a.plus(w).value() >= 0,
{
    lemma_constants();
    lemma_units_small(0);
    lemma_pow2_pos(1074);
    lemma_reaches(a, w, Binary64 { bits: ZERO });
}

} // verus!
