//! How far a rounded result is from the exact one, and when it is exact.

use crate::binary64::{lemma_signed, nearest, one_units, signed, Binary64};
use crate::rounding::{
    goes_up, lemma_rounded_exact, lemma_rounded_limit, lemma_rounded_scaled, lemma_rounded_unfold, lemma_units_next,
    lemma_units_ordered, lemma_units_small, rounded, scale, units, INFINITE, STEPS,
};
use vstd::arithmetic::power2::{lemma2_to64, lemma_pow2_adds, lemma_pow2_pos, lemma_pow2_strictly_increases, pow2};
use vstd::prelude::*;

verus! {

/// Distance between two whole numbers.
pub open spec fn apart(a: int, b: int) -> int {
    if a >= b {
        a - b
    } else {
        b - a
    }
}

/// A code stands for its significand times its step.
pub proof fn lemma_units_of_parts(e: nat, q: nat)
    requires
        q < 2 * STEPS,
        e == 0 || q >= STEPS,
    ensures
        scale(e * STEPS as nat + q) == e,
        units(e * STEPS as nat + q) == q * pow2(e),
        units(e * STEPS as nat + q + 1) == q * pow2(e) + pow2(e),
{
    let code = e * STEPS as nat + q;
    assert(scale(code) == e) by {
        if e == 0 {
            if q >= STEPS {
                assert(code / STEPS as nat == 1);
            }
        } else {
            assert(code / STEPS as nat == e + 1) by (nonlinear_arith)
                requires
                    code == e * STEPS as nat + q,
                    STEPS <= q < 2 * STEPS,
            ;
        }
    }
    lemma_units_next(code);
}

/// A rounded magnitude is within half a step of the exact one.
pub proof fn lemma_rounded_near(n: nat, d: nat)
    requires
        d > 0,
        rounded(n, d) < INFINITE,
    ensures
        2 * STEPS * apart((units(rounded(n, d)) * d) as int, n as int) <= n + STEPS * d,
        d == 1 ==> 2 * STEPS * apart(units(rounded(n, d)) as int, n as int) <= n,
{
    let (e, q, r) = lemma_rounded_unfold(n, d);
    let p = pow2(e);
    let step = d * p;
    lemma_pow2_pos(e);
    lemma_units_of_parts(e, q);
    let up = goes_up(q, r, step);
    let u = units(rounded(n, d));
    assert(u == q * p + if up {
        p
    } else {
        0
    });
    assert((q * p) * d == q * step) by (nonlinear_arith)
        requires
            step == d * p,
    ;
    assert((q * p + p) * d == q * step + step) by (nonlinear_arith)
        requires
            step == d * p,
    ;
    let off = apart((u * d) as int, n as int);
    assert(2 * off <= step);
    if e == 0 {
        lemma2_to64();
        assert(step == d) by (nonlinear_arith)
            requires
                step == d * p,
                p == 1,
        ;
        assert(2 * STEPS * off <= STEPS * d) by (nonlinear_arith)
            requires
                2 * off <= d,
        ;
        if d == 1 {
            assert(off == 0);
            assert(u * d == u) by (nonlinear_arith)
                requires
                    d == 1,
            ;
        }
    } else {
        assert(STEPS * step <= q * step) by (nonlinear_arith)
            requires
                STEPS <= q,
                step >= 0,
        ;
        assert(2 * STEPS * off <= STEPS * step) by (nonlinear_arith)
            requires
                2 * off <= step,
        ;
        assert(STEPS * d >= 0) by (nonlinear_arith);
        if d == 1 {
            assert(u * d == u) by (nonlinear_arith)
                requires
                    d == 1,
            ;
        }
    }
}

/// A magnitude that is not huge rounds to a finite one.
pub proof fn lemma_rounded_finite(n: nat, d: nat)
    requires
        d > 0,
        n <= d * pow2(1990),
    ensures
        rounded(n, d) < INFINITE,
{
    let (e, q, r) = lemma_rounded_unfold(n, d);
    let p = pow2(e);
    let step = d * p;
    lemma_pow2_pos(e);
    if e > 1990 {
        lemma_pow2_strictly_increases(1990, e);
        lemma_pow2_pos(1990);
        let bound = pow2(1990);
        assert(n > d * bound) by (nonlinear_arith)
            requires
                n == q * step + r,
                step == d * p,
                q >= STEPS,
                p > bound,
                d > 0,
                bound > 0,
        ;
    }
    assert(e * STEPS + 2 * STEPS < INFINITE) by (nonlinear_arith)
        requires
            e <= 1990,
            STEPS == 0x10_0000_0000_0000,
            INFINITE == 0x7ff0_0000_0000_0000,
    ;
}

/// A whole number of full length times a power of two is representable.
pub proof fn lemma_representable(k: nat, t: nat)
    requires
        k < 2 * STEPS,
        t <= 1900,
    ensures
        rounded(k * pow2(t), 1) < INFINITE,
        units(rounded(k * pow2(t), 1)) == k * pow2(t),
{
    let n = k * pow2(t);
    let (e, q, r) = lemma_rounded_unfold(n, 1);
    let p = pow2(e);
    lemma_pow2_pos(e);
    lemma_pow2_pos(t);
    assert(1 * p == p);
    if e > t {
        lemma_pow2_adds(1, (e - 1) as nat);
        lemma2_to64();
        let h = pow2((e - 1) as nat);
        if e - 1 > t {
            lemma_pow2_strictly_increases(t, (e - 1) as nat);
        }
        let pt = pow2(t);
        assert(n < 2 * STEPS * pt) by (nonlinear_arith)
            requires
                n == k * pt,
                k < 2 * STEPS,
                pt > 0,
        ;
        assert(n >= STEPS * (2 * h)) by (nonlinear_arith)
            requires
                n == q * p + r,
                q >= STEPS,
                p == 2 * h,
                h >= 0,
                r >= 0,
        ;
        assert(STEPS * (2 * h) >= 2 * STEPS * pt) by (nonlinear_arith)
            requires
                h >= pt,
        ;
        assert(false);
    }
    lemma_pow2_adds(e, (t - e) as nat);
    let s = pow2((t - e) as nat);
    assert(n == (k * s) * p) by (nonlinear_arith)
        requires
            n == k * pow2(t),
            pow2(t) == p * s,
    ;
    vstd::arithmetic::div_mod::lemma_fundamental_div_mod_converse(n as int, p as int, q as int, r as int);
    assert((k * s) * p == p * (k * s) + 0) by (nonlinear_arith);
    vstd::arithmetic::div_mod::lemma_fundamental_div_mod_converse(n as int, p as int, (k * s) as int, 0);
    assert(r == 0);
    lemma_units_of_parts(e, q);
    assert(e * STEPS + q < INFINITE) by (nonlinear_arith)
        requires
            e <= 1900,
            q < 2 * STEPS,
            STEPS == 0x10_0000_0000_0000,
            INFINITE == 0x7ff0_0000_0000_0000,
    ;
    assert(!goes_up(q, r, p));
}

/// The number nearest to an exact value is within half a step of it.
pub proof fn lemma_nearest(v: int, negative_zero: bool)
    requires
        apart(v, 0) <= pow2(1990),
    ensures
        nearest(v, negative_zero).is_finite(),
        2 * STEPS * apart(nearest(v, negative_zero).value(), v) <= apart(v, 0),
{
    lemma_units_small(0);
    let n = apart(v, 0) as nat;
    if v == 0 {
        lemma_signed(negative_zero, 0);
        assert(nearest(v, negative_zero).value() == 0);
        assert(apart(0, 0) == 0);
    } else {
        assert(1 * pow2(1990) == pow2(1990));
        lemma_rounded_finite(n, 1);
        lemma_rounded_near(n, 1);
        lemma_signed(v < 0, rounded(n, 1));
        let x = nearest(v, negative_zero);
        assert(x == signed(v < 0, rounded(n, 1)));
        assert(x.value() == if v < 0 {
            -(units(rounded(n, 1)) as int)
        } else {
            units(rounded(n, 1)) as int
        });
        assert(apart(x.value(), v) == apart(units(rounded(n, 1)) as int, n as int));
    }
}

/// A representable value is its own nearest number.
pub proof fn lemma_nearest_exact(v: int, negative_zero: bool, code: nat)
    requires
        code < INFINITE,
        units(code) == apart(v, 0),
    ensures
        nearest(v, negative_zero).is_finite(),
        nearest(v, negative_zero).value() == v,
{
    lemma_rounded_exact(code);
    lemma_units_small(0);
    if v == 0 {
        lemma_signed(negative_zero, 0);
    } else {
        lemma_signed(v < 0, code);
    }
}

/// The value of a number with the other sign.
pub proof fn lemma_negated(a: Binary64)
    ensures
        a.negated().value() == -a.value(),
        a.negated().code() == a.code(),
        a.negated().is_finite() == a.is_finite(),
        a.negated().is_nan() == a.is_nan(),
{
}

/// A sum is within half a step of the exact one.
pub proof fn lemma_plus_near(a: Binary64, b: Binary64)
    requires
        a.is_finite(),
        b.is_finite(),
        apart(a.value() + b.value(), 0) <= pow2(1990),
    ensures
        a.plus(b).is_finite(),
        2 * STEPS * apart(a.plus(b).value(), a.value() + b.value()) <= apart(a.value() + b.value(), 0),
{
    reveal(Binary64::spec_plus);
    lemma_nearest(a.value() + b.value(), a.is_negative() && b.is_negative());
}

/// A difference is within half a step of the exact one.
pub proof fn lemma_minus_near(a: Binary64, b: Binary64)
    requires
        a.is_finite(),
        b.is_finite(),
        apart(a.value() - b.value(), 0) <= pow2(1990),
    ensures
        a.minus(b).is_finite(),
        2 * STEPS * apart(a.minus(b).value(), a.value() - b.value()) <= apart(a.value() - b.value(), 0),
{
    lemma_negated(b);
    lemma_plus_near(a, b.negated());
}

/// A sum that is representable is exact.
pub proof fn lemma_plus_exact(a: Binary64, b: Binary64, code: nat)
    requires
        a.is_finite(),
        b.is_finite(),
        code < INFINITE,
        units(code) == apart(a.value() + b.value(), 0),
    ensures
        a.plus(b).is_finite(),
        a.plus(b).value() == a.value() + b.value(),
{
    reveal(Binary64::spec_plus);
    lemma_nearest_exact(a.value() + b.value(), a.is_negative() && b.is_negative(), code);
}

/// A product of magnitudes that is representable is exact.
pub proof fn lemma_times_exact(a: Binary64, b: Binary64, code: nat)
    requires
        a.is_finite(),
        b.is_finite(),
        code < INFINITE,
        units(a.code()) * units(b.code()) == units(code) * one_units(),
    ensures
        a.times(b).is_finite(),
        a.times(b).code() == code,
        a.times(b).is_negative() == (a.is_negative() != b.is_negative()),
{
    reveal(Binary64::spec_times);
    lemma_pow2_pos(1074);
    lemma_rounded_exact(code);
    lemma_rounded_scaled(units(code), 1, one_units());
    assert(1 * one_units() == one_units());
    lemma_signed(a.is_negative() != b.is_negative(), code);
}

/// A whole number is represented exactly.
pub proof fn lemma_whole(v: i32)
    ensures
        Binary64::spec_whole(v).is_finite(),
        Binary64::spec_whole(v).value() == v * one_units(),
        units(Binary64::spec_whole(v).code()) == apart(v as int, 0) * one_units(),
        v != 0 ==> Binary64::spec_whole(v).is_negative() == (v < 0),
        v >= 0 ==> !Binary64::spec_whole(v).is_negative(),
{
    let k = apart(v as int, 0) as nat;
    lemma_representable(k, 1074);
    lemma_signed(v < 0, rounded(k * one_units(), 1));
    assert(v < 0 ==> -(k * one_units()) == v * one_units()) by (nonlinear_arith)
        requires
            v < 0 ==> k == -v,
    ;
}

/// A number that is whole rounds to itself.
pub proof fn lemma_round_whole(x: Binary64, v: i32)
    requires
        x.is_finite(),
        x.value() == v * one_units(),
    ensures
        x.round_i32() == v,
{
    reveal(Binary64::spec_round_i32);
    lemma_pow2_pos(1074);
    let one = one_units();
    let k = apart(v as int, 0) as nat;
    assert(units(x.code()) == k * one) by {
        assert(v < 0 ==> -(k * one) == v * one) by (nonlinear_arith)
            requires
                v < 0 ==> k == -v,
        ;
        if v < 0 {
            assert(v * one < 0) by (nonlinear_arith)
                requires
                    v < 0,
                    one > 0,
            ;
        } else {
            assert(v * one >= 0) by (nonlinear_arith)
                requires
                    v >= 0,
                    one > 0,
            ;
        }
    }
    let n = 2 * units(x.code()) + one;
    assert(n == k * (2 * one) + one) by (nonlinear_arith)
        requires
            n == 2 * (k * one) + one,
    ;
    vstd::arithmetic::div_mod::lemma_fundamental_div_mod_converse(n as int, (2 * one) as int, k as int, one as int);
    assert(n / (2 * one) == k);
    if x.is_negative() {
        if v > 0 {
            assert(v * one > 0) by (nonlinear_arith)
                requires
                    v > 0,
                    one > 0,
            ;
        }
    } else if v < 0 {
        assert(v * one < 0) by (nonlinear_arith)
            requires
                v < 0,
                one > 0,
        ;
    }
}

/// A larger magnitude never rounds to a smaller one.
pub proof fn lemma_rounded_monotone(n: nat, m: nat, d: nat)
    requires
        d > 0,
        n <= m,
    ensures
        rounded(n, d) <= rounded(m, d),
{
    let (e, q, r) = lemma_rounded_unfold(n, d);
    let (f, s, t) = lemma_rounded_unfold(m, d);
    let p = pow2(e);
    let g = pow2(f);
    let step = d * p;
    lemma_pow2_pos(e);
    lemma_pow2_pos(f);
    if e == f {
        assert(step > 0) by (nonlinear_arith)
            requires
                step == d * p,
                d > 0,
                p > 0,
        ;
        assert(q <= s) by (nonlinear_arith)
            requires
                q * step + r <= s * step + t,
                t < step,
                r >= 0,
                step > 0,
        ;
    } else if e < f {
        assert(e * STEPS + q + 1 <= f * STEPS + s) by (nonlinear_arith)
            requires
                e + 1 <= f,
                q < 2 * STEPS,
                s >= STEPS,
        ;
    } else {
        lemma_pow2_adds(1, (e - 1) as nat);
        lemma2_to64();
        let h = pow2((e - 1) as nat);
        if f < e - 1 {
            lemma_pow2_strictly_increases(f, (e - 1) as nat);
        }
        assert(n >= STEPS * (d * (2 * h))) by (nonlinear_arith)
            requires
                n == q * (d * p) + r,
                p == 2 * h,
                q >= STEPS,
                d * p >= 0,
                r >= 0,
        ;
        assert(m < 2 * STEPS * (d * g)) by (nonlinear_arith)
            requires
                m == s * (d * g) + t,
                t < d * g,
                s < 2 * STEPS,
        ;
        assert(STEPS * (d * (2 * h)) >= 2 * STEPS * (d * g)) by (nonlinear_arith)
            requires
                h >= g,
                d > 0,
        ;
        assert(false);
    }
}

/// A larger value never has a smaller nearest number.
pub proof fn lemma_nearest_monotone(v: int, w: int, v_zero: bool, w_zero: bool)
    requires
        v <= w,
    ensures
        !nearest(v, v_zero).is_nan(),
        !nearest(w, w_zero).is_nan(),
        nearest(v, v_zero).value() <= nearest(w, w_zero).value(),
{
    lemma_units_small(0);
    lemma_signed(v_zero, 0);
    lemma_signed(w_zero, 0);
    let n = apart(v, 0) as nat;
    let m = apart(w, 0) as nat;
    lemma_rounded_limit(n, 1);
    lemma_rounded_limit(m, 1);
    lemma_signed(v < 0, rounded(n, 1));
    lemma_signed(w < 0, rounded(m, 1));
    if v < 0 && w < 0 {
        lemma_rounded_monotone(m, n, 1);
        lemma_units_ordered(rounded(m, 1), rounded(n, 1));
    } else if v > 0 {
        lemma_rounded_monotone(n, m, 1);
        lemma_units_ordered(rounded(n, 1), rounded(m, 1));
    }
}

/// Adding more never gives less.
pub proof fn lemma_plus_monotone(a: Binary64, b: Binary64, c: Binary64, d: Binary64)
    requires
        a.is_finite(),
        b.is_finite(),
        c.is_finite(),
        d.is_finite(),
        a.value() + b.value() <= c.value() + d.value(),
    ensures
        !a.plus(b).is_nan(),
        !c.plus(d).is_nan(),
        a.plus(b).value() <= c.plus(d).value(),
{
    reveal(Binary64::spec_plus);
    lemma_nearest_monotone(
        a.value() + b.value(),
        c.value() + d.value(),
        a.is_negative() && b.is_negative(),
        c.is_negative() && d.is_negative(),
    );
}

/// Two to the power of minus 52, in units: the distance between the numbers from
/// one to two.
pub open spec fn slack() -> int {
    pow2(1022) as int
}

/// Sums up to two are off by at most the slack.
pub proof fn lemma_small_plus(a: Binary64, b: Binary64)
    requires
        a.is_finite(),
        b.is_finite(),
        apart(a.value() + b.value(), 0) <= 2 * one_units(),
    ensures
        a.plus(b).is_finite(),
        apart(a.plus(b).value(), a.value() + b.value()) <= slack(),
{
    lemma_pow2_adds(1, 1074);
    lemma_pow2_strictly_increases(1075, 1990);
    lemma2_to64();
    vstd::arithmetic::power2::lemma2_to64_rest();
    lemma_pow2_adds(53, 1022);
    lemma_plus_near(a, b);
    let off = apart(a.plus(b).value(), a.value() + b.value());
    let s = slack();
    assert(off <= s) by (nonlinear_arith)
        requires
            2 * STEPS * off <= 2 * STEPS * s,
    ;
}

/// Differences up to two are off by at most the slack.
pub proof fn lemma_small_minus(a: Binary64, b: Binary64)
    requires
        a.is_finite(),
        b.is_finite(),
        apart(a.value() - b.value(), 0) <= 2 * one_units(),
    ensures
        a.minus(b).is_finite(),
        apart(a.minus(b).value(), a.value() - b.value()) <= slack(),
{
    lemma_negated(b);
    lemma_small_plus(a, b.negated());
}

/// Products of numbers up to two are off by at most four times the slack.
pub proof fn lemma_small_times(a: Binary64, b: Binary64)
    requires
        a.is_finite(),
        b.is_finite(),
        apart(a.value(), 0) <= 2 * one_units(),
        apart(b.value(), 0) <= 2 * one_units(),
    ensures
        a.times(b).is_finite(),
        apart(a.times(b).value() * one_units(), a.value() * b.value()) <= (4 * slack()) * one_units(),
{
    reveal(Binary64::spec_times);
    let one = one_units();
    let ua = units(a.code());
    let ub = units(b.code());
    let n = ua * ub;
    lemma_pow2_pos(1074);
    lemma2_to64();
    vstd::arithmetic::power2::lemma2_to64_rest();
    lemma_pow2_adds(2, 1074);
    lemma_pow2_strictly_increases(1076, 1990);
    lemma_pow2_adds(52, 1022);
    lemma_pow2_pos(1022);
    assert(n <= one * (4 * one)) by (nonlinear_arith)
        requires
            n == ua * ub,
            ua <= 2 * one,
            ub <= 2 * one,
    ;
    assert(one * (4 * one) <= one * pow2(1990)) by (nonlinear_arith)
        requires
            4 * one <= pow2(1990),
            one > 0,
    ;
    lemma_rounded_finite(n, one);
    lemma_rounded_near(n, one);
    let negative = a.is_negative() != b.is_negative();
    let code = rounded(n, one);
    lemma_signed(negative, code);
    let off = apart((units(code) * one) as int, n as int);
    let s = slack();
    assert(off <= (4 * s) * one) by (nonlinear_arith)
        requires
            2 * STEPS * off <= n + STEPS * one,
            n <= one * (4 * one),
            one == STEPS * s,
            s >= 1,
            one > 0,
    ;
    let r = a.times(b).value();
    assert(a.value() * b.value() == if negative {
        -(n as int)
    } else {
        n as int
    }) by (nonlinear_arith)
        requires
            n == ua * ub,
            a.value() == ua || a.value() == -ua,
            b.value() == ub || b.value() == -ub,
            negative <==> ((a.value() == -ua && a.is_negative()) != (b.value() == -ub && b.is_negative())),
            a.is_negative() ==> a.value() == -ua,
            !a.is_negative() ==> a.value() == ua,
            b.is_negative() ==> b.value() == -ub,
            !b.is_negative() ==> b.value() == ub,
    ;
    assert(r * one == if negative {
        -((units(code) * one) as int)
    } else {
        (units(code) * one) as int
    }) by (nonlinear_arith)
        requires
            r == if negative {
                -(units(code) as int)
            } else {
                units(code) as int
            },
    ;
}

/// What is no larger than a finite number is finite.
pub proof fn lemma_finite_below(a: Binary64, b: Binary64)
    requires
        !a.is_nan(),
        b.is_finite(),
        apart(a.value(), 0) <= apart(b.value(), 0),
    ensures
        a.is_finite(),
{
    lemma_units_ordered(b.code(), a.code());
}

} // verus!
