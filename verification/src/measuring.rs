//! What products, quotients and whole numbers measure: how far they are from what
//! they stand for.

use crate::binary64::{lemma_signed, one_units, Binary64};
use crate::precision::{apart, lemma_rounded_finite, lemma_rounded_near, lemma_whole, slack};
use crate::rounding::{lemma_units_small, rounded, units, STEPS};
use vstd::arithmetic::div_mod::{lemma_fundamental_div_mod, lemma_fundamental_div_mod_converse};
use vstd::arithmetic::power2::{lemma2_to64, lemma_pow2_adds, lemma_pow2_pos, lemma_pow2_strictly_increases, pow2};
use vstd::prelude::*;

verus! {

/// One is so many times the slack.
pub proof fn lemma_slack()
    ensures
        one_units() == STEPS * slack(),
        slack() > 0x1_0000_0000_0000_0000,
        one_units() > 0,
{
    lemma2_to64();
    vstd::arithmetic::power2::lemma2_to64_rest();
    lemma_pow2_adds(52, 1022);
    lemma_pow2_pos(1074);
    lemma_pow2_strictly_increases(64, 1022);
}

/// The value of a number in terms of its magnitude.
proof fn lemma_magnitude(a: Binary64)
    ensures
        a.is_negative() ==> a.value() == -(units(a.code()) as int),
        !a.is_negative() ==> a.value() == units(a.code()),
        apart(a.value(), 0) == units(a.code()),
{
}

/// The magnitude of a product.
proof fn lemma_product(u: int, v: int, a: int, b: int)
    requires
        a == u || a == -u,
        b == v || b == -v,
        u >= 0,
        v >= 0,
    ensures
        apart(a * b, 0) == u * v,
        (a == u && b == v) ==> a * b == u * v,
        (a == -u && b == -v) ==> a * b == u * v,
        (a == -u && b == v) ==> a * b == -(u * v),
        (a == u && b == -v) ==> a * b == -(u * v),
{
    assert(u * v >= 0) by (nonlinear_arith)
        requires
            u >= 0,
            v >= 0,
    ;
    assert((-u) * v == -(u * v)) by (nonlinear_arith);
    assert(u * (-v) == -(u * v)) by (nonlinear_arith);
    assert((-u) * (-v) == u * v) by (nonlinear_arith);
}

/// A product is within half a step of the exact one.
pub proof fn lemma_times_near(a: Binary64, b: Binary64)
    requires
        a.is_finite(),
        b.is_finite(),
        apart(a.value() * b.value(), 0) <= one_units() * pow2(1990),
    ensures
        a.times(b).is_finite(),
        2 * STEPS * apart(a.times(b).value() * one_units(), a.value() * b.value()) <= apart(
            a.value() * b.value(),
            0,
        ) + STEPS * one_units(),
{
    reveal(Binary64::spec_times);
    let one = one_units();
    let u = units(a.code());
    let v = units(b.code());
    let n = u * v;
    lemma_pow2_pos(1074);
    lemma_magnitude(a);
    lemma_magnitude(b);
    lemma_product(u as int, v as int, a.value(), b.value());
    lemma_rounded_finite(n, one);
    lemma_rounded_near(n, one);
    let negative = a.is_negative() != b.is_negative();
    let code = rounded(n, one);
    lemma_signed(negative, code);
    let r = a.times(b).value();
    let w = units(code);
    assert((-(w as int)) * one == -((w * one) as int)) by (nonlinear_arith);
    assert(r == if negative {
        -(w as int)
    } else {
        w as int
    });
}

/// A quotient is within half a step of the exact one.
pub proof fn lemma_over_near(a: Binary64, b: Binary64)
    requires
        a.is_finite(),
        b.is_finite(),
        0 < b.value(),
        apart(a.value() * one_units(), 0) <= b.value() * pow2(1990),
    ensures
        a.over(b).is_finite(),
        a.value() >= 0 ==> a.over(b).value() >= 0,
        2 * STEPS * apart(a.over(b).value() * b.value(), a.value() * one_units()) <= apart(
            a.value() * one_units(),
            0,
        ) + STEPS * b.value(),
{
    reveal(Binary64::spec_over);
    lemma_units_small(0);
    let one = one_units();
    let u = units(a.code());
    let d = units(b.code());
    lemma_pow2_pos(1074);
    lemma_magnitude(a);
    lemma_magnitude(b);
    assert(!b.is_negative());
    lemma_product(u as int, one as int, a.value(), one as int);
    let n = u * one;
    lemma_rounded_finite(n, d);
    lemma_rounded_near(n, d);
    let code = rounded(n, d);
    lemma_signed(a.is_negative(), code);
    let w = units(code);
    assert((-(w as int)) * d == -((w * d) as int)) by (nonlinear_arith);
    if a.value() == 0 {
        assert(n == 0) by (nonlinear_arith)
            requires
                n == u * one,
                u == 0,
        ;
        crate::binary64::lemma_rounded_zero(d);
    }
}

/// A fraction of a whole length, up to what rounding loses.
pub proof fn lemma_fraction_of(f: Binary64, size: i32)
    requires
        f.is_finite(),
        apart(f.value(), 0) <= 2 * one_units(),
        size >= 0,
    ensures
        f.times(Binary64::spec_whole(size)).is_finite(),
        apart(f.times(Binary64::spec_whole(size)).value(), f.value() * size) <= size * slack(),
{
    let one = one_units();
    let w = Binary64::spec_whole(size);
    lemma_whole(size);
    lemma_slack();
    let x = f.value();
    let s = slack();
    assert(x * (size * one) == (x * size) * one) by (nonlinear_arith);
    assert(apart(x * size, 0) <= 2 * one * size) by (nonlinear_arith)
        requires
            apart(x, 0) <= 2 * one,
            size >= 0,
    ;
    assert(apart((x * size) * one, 0) == apart(x * size, 0) * one) by (nonlinear_arith)
        requires
            one > 0,
    ;
    lemma_pow2_adds(33, 1074);
    lemma_pow2_strictly_increases(1107, 1990);
    lemma2_to64();
    vstd::arithmetic::power2::lemma2_to64_rest();
    let big = pow2(1990);
    assert(2 * one * size <= big) by (nonlinear_arith)
        requires
            0x2_0000_0000 * one <= big,
            size <= 0x7fff_ffff,
            one > 0,
    ;
    assert(apart(x * size, 0) * one <= one * big) by (nonlinear_arith)
        requires
            apart(x * size, 0) <= big,
            one > 0,
    ;
    lemma_times_near(f, w);
    let t = f.times(w).value();
    let off = apart(t, x * size);
    assert(apart(t * one, (x * size) * one) == off * one) by (nonlinear_arith)
        requires
            off == apart(t, x * size),
            one > 0,
    ;
    assert(off <= size * s) by (nonlinear_arith)
        requires
            2 * STEPS * (off * one) <= apart(x * size, 0) * one + STEPS * one,
            apart(x * size, 0) <= 2 * one * size,
            one == STEPS * s,
            STEPS == 0x10_0000_0000_0000,
            one > 0,
    ;
}

/// What fraction of a whole length a part of it is, up to what rounding loses.
pub proof fn lemma_share_of(part: i32, whole: i32)
    requires
        0 <= part <= whole,
        whole > 0,
    ensures
        Binary64::spec_whole(part).over(Binary64::spec_whole(whole)).is_finite(),
        Binary64::spec_whole(part).over(Binary64::spec_whole(whole)).value() >= 0,
        apart(
            Binary64::spec_whole(part).over(Binary64::spec_whole(whole)).value() * whole,
            part * one_units(),
        ) <= whole * slack(),
{
    let one = one_units();
    let a = Binary64::spec_whole(part);
    let b = Binary64::spec_whole(whole);
    lemma_whole(part);
    lemma_whole(whole);
    lemma_slack();
    let s = slack();
    lemma_pow2_strictly_increases(1074, 1990);
    let big = pow2(1990);
    assert(whole * one > 0) by (nonlinear_arith)
        requires
            whole > 0,
            one > 0,
    ;
    assert(0 <= (part * one) * one <= (whole * one) * big) by (nonlinear_arith)
        requires
            0 <= part <= whole,
            0 < one <= big,
    ;
    assert(0 <= part * one) by (nonlinear_arith)
        requires
            0 <= part,
            one > 0,
    ;
    lemma_over_near(a, b);
    let q = a.over(b).value();
    let off = apart(q * whole, part * one);
    assert(apart(q * (whole * one), (part * one) * one) == off * one) by (nonlinear_arith)
        requires
            off == apart(q * whole, part * one),
            one > 0,
    ;
    assert(off <= whole * s) by (nonlinear_arith)
        requires
            2 * STEPS * (off * one) <= (part * one) * one + STEPS * (whole * one),
            0 <= part <= whole,
            one == STEPS * s,
            STEPS == 0x10_0000_0000_0000,
            s > 1,
            one > 0,
    ;
}

/// A number that is not too large is rounded to a whole one at most half away.
pub proof fn lemma_round_near(x: Binary64)
    requires
        x.is_finite(),
        apart(x.value(), 0) <= 0x7fff_ffff * one_units(),
    ensures
        2 * apart(x.round_i32() * one_units(), x.value()) <= one_units(),
{
    reveal(Binary64::spec_round_i32);
    lemma_pow2_pos(1074);
    lemma_magnitude(x);
    let one = one_units() as int;
    let u = units(x.code()) as int;
    let n = 2 * u + one;
    let i = n / (2 * one);
    let r = n % (2 * one);
    lemma_fundamental_div_mod(n, 2 * one);
    assert(2 * (i * one) == (2 * one) * i) by (nonlinear_arith);
    assert(0 <= i <= 0x7fff_ffff) by (nonlinear_arith)
        requires
            n == (2 * one) * i + r,
            0 <= r < 2 * one,
            0 < n < 2 * (0x8000_0000 * one),
            one > 0,
    ;
    assert((-i) * one == -(i * one)) by (nonlinear_arith);
}

/// The whole number not above a number that is not too large.
pub proof fn lemma_floor_near(x: Binary64)
    requires
        !x.is_nan(),
        -0x8000_0000 * one_units() <= x.value() < 0x8000_0000 * one_units(),
    ensures
        x.floor_i32() * one_units() <= x.value() < (x.floor_i32() + 1) * one_units(),
{
    reveal(Binary64::spec_floor_i32);
    lemma_pow2_pos(1074);
    let one = one_units() as int;
    let v = x.value();
    let q = v / one;
    let r = v % one;
    lemma_fundamental_div_mod(v, one);
    assert(-0x8000_0000 <= q <= 0x7fff_ffff) by (nonlinear_arith)
        requires
            v == one * q + r,
            0 <= r < one,
            -0x8000_0000 * one <= v < 0x8000_0000 * one,
            one > 0,
    ;
    assert(q * one == one * q) by (nonlinear_arith);
    assert((q + 1) * one == q * one + one) by (nonlinear_arith);
}

/// What is whole is its own whole part, as far as 32 bits can tell.
pub proof fn lemma_floor_whole(x: Binary64, k: int)
    requires
        !x.is_nan(),
        x.value() == k * one_units(),
    ensures
        x.floor_i32() == crate::conversion::saturated(k),
{
    reveal(Binary64::spec_floor_i32);
    lemma_pow2_pos(1074);
    let one = one_units() as int;
    assert(k * one == k * one + 0);
    lemma_fundamental_div_mod_converse(x.value(), one, k, 0);
}

} // verus!
