//! Rounding an exact rational to the nearest binary64 number, ties to even.
//!
//! A non-negative binary64 number is told by its *code*, its bits without the
//! sign: the codes count the representable magnitudes from zero upwards, and the
//! code after the largest finite one stands for infinity. Every finite magnitude
//! is a whole number of *units*, a unit being the smallest one above zero.

use vstd::arithmetic::div_mod::{lemma_fundamental_div_mod, lemma_fundamental_div_mod_converse};
use vstd::arithmetic::power2::{lemma_pow2_adds, lemma_pow2_pos, lemma_pow2_unfold, pow2};
use vstd::prelude::*;

verus! {

/// Number of codes that share one scale: two to the power of the stored
/// significand bits.
pub const STEPS: u64 = 0x10_0000_0000_0000;

/// The code of infinity. Larger codes are no numbers.
pub const INFINITE: u64 = 0x7ff0_0000_0000_0000;

/// Exponent of the number of units in one step of the magnitudes around `x`
/// units.
pub open spec fn exponent(x: nat) -> nat
    decreases x,
{
    if x < 2 * STEPS {
        0
    } else {
        1 + exponent(x / 2)
    }
}

/// Exponent of the number of units between a code and the next one.
pub open spec fn scale(code: nat) -> nat {
    if code < STEPS {
        0
    } else {
        (code / STEPS as nat - 1) as nat
    }
}

/// The magnitude that a code stands for, in units. For the code of infinity this
/// is the first magnitude that is too large.
pub open spec fn units(code: nat) -> nat {
    ((code - scale(code) * STEPS) * pow2(scale(code))) as nat
}

/// Whether a magnitude that lies `r` past the `q`-th multiple of `step` is
/// nearer to the next multiple, or half way to it with `q` odd.
pub open spec fn goes_up(q: nat, r: nat, step: nat) -> bool {
    2 * r > step || (2 * r == step && q % 2 == 1)
}

/// Code of the representable magnitude nearest to `n / d` units, the even one of
/// two that are equally near, infinity past the largest.
pub open spec fn rounded(n: nat, d: nat) -> nat {
    let e = exponent(n / d);
    let step = d * pow2(e);
    let q = n / step;
    let code = e * STEPS + q + if goes_up(q, n % step, step) {
        1nat
    } else {
        0nat
    };
    if code < INFINITE {
        code as nat
    } else {
        INFINITE as nat
    }
}

/// What [`rounded`] makes of its parts, once they are known.
pub open spec fn assembled(e: nat, q: nat, up: bool) -> nat {
    let code = e * STEPS + q + if up {
        1nat
    } else {
        0nat
    };
    if code < INFINITE {
        code as nat
    } else {
        INFINITE as nat
    }
}

/// [`exponent`] is the only exponent that leaves a significand of full length.
pub proof fn lemma_exponent(x: nat, e: nat)
    requires
        x < 2 * STEPS * pow2(e),
        e == 0 || x >= STEPS * pow2(e),
    ensures
        exponent(x) == e,
    decreases e,
{
    lemma_pow2_pos(e);
    if e == 0 {
        lemma_pow2_unfold(1);
        lemma_pow2_adds(0, 1);
        vstd::arithmetic::power2::lemma2_to64();
    } else {
        let f = (e - 1) as nat;
        lemma_pow2_unfold(e);
        lemma_pow2_pos(f);
        let h = pow2(f);
        assert(STEPS * (2 * h) == 2 * (STEPS * h)) by (nonlinear_arith);
        assert(2 * STEPS * (2 * h) == 2 * (2 * STEPS * h)) by (nonlinear_arith);
        assert(STEPS * h >= STEPS) by (nonlinear_arith)
            requires
                h >= 1,
        ;
        lemma_exponent(x / 2, f);
    }
}

/// [`exponent`] leaves a significand of full length.
pub proof fn lemma_exponent_bounds(x: nat)
    ensures
        x < 2 * STEPS * pow2(exponent(x)),
        exponent(x) == 0 || x >= STEPS * pow2(exponent(x)),
    decreases x,
{
    if x < 2 * STEPS {
        vstd::arithmetic::power2::lemma2_to64();
    } else {
        lemma_exponent_bounds(x / 2);
        let f = exponent(x / 2);
        lemma_pow2_unfold(f + 1);
        let h = pow2(f);
        assert(STEPS * (2 * h) == 2 * (STEPS * h)) by (nonlinear_arith);
        assert(2 * STEPS * (2 * h) == 2 * (2 * STEPS * h)) by (nonlinear_arith);
        if f == 0 {
            vstd::arithmetic::power2::lemma2_to64();
        }
    }
}

/// A rational given as a multiple of a step and a rest rounds by those parts.
pub proof fn lemma_rounded_parts(n: nat, d: nat, e: nat, q: nat, r: nat)
    requires
        d > 0,
        n == q * (d * pow2(e)) + r,
        r < d * pow2(e),
        q < 2 * STEPS,
        e == 0 || q >= STEPS,
    ensures
        rounded(n, d) == assembled(e, q, goes_up(q, r, d * pow2(e))),
{
    lemma_pow2_pos(e);
    let p = pow2(e);
    let step = d * p;
    let x = n / d;
    lemma_fundamental_div_mod(n as int, d as int);
    assert(x < 2 * STEPS * p) by {
        assert(d * x <= n);
        assert(n < (q + 1) * step) by (nonlinear_arith)
            requires
                n == q * step + r,
                r < step,
        ;
        assert((q + 1) * step <= 2 * STEPS * step) by (nonlinear_arith)
            requires
                q + 1 <= 2 * STEPS,
                step >= 0,
        ;
        assert(2 * STEPS * step == d * (2 * STEPS * p)) by (nonlinear_arith)
            requires
                step == d * p,
        ;
        assert(x < 2 * STEPS * p) by (nonlinear_arith)
            requires
                d * x < d * (2 * STEPS * p),
                d > 0,
        ;
    }
    if e > 0 {
        assert(n >= STEPS * step) by (nonlinear_arith)
            requires
                n == q * step + r,
                q >= STEPS,
                step >= 0,
                r >= 0,
        ;
        assert(STEPS * step == d * (STEPS * p)) by (nonlinear_arith)
            requires
                step == d * p,
        ;
        let rest = n % d;
        assert(x >= STEPS * p) by (nonlinear_arith)
            requires
                n >= d * (STEPS * p),
                n == d * x + rest,
                rest < d,
                d > 0,
        ;
    }
    lemma_exponent(x, e);
    lemma_fundamental_div_mod_converse(n as int, step as int, q as int, r as int);
}

/// The parts of [`rounded`] are such parts.
pub proof fn lemma_rounded_unfold(n: nat, d: nat) -> (t: (nat, nat, nat))
    requires
        d > 0,
    ensures
        n == t.1 * (d * pow2(t.0)) + t.2,
        t.2 < d * pow2(t.0),
        t.1 < 2 * STEPS,
        t.0 == 0 || t.1 >= STEPS,
        rounded(n, d) == assembled(t.0, t.1, goes_up(t.1, t.2, d * pow2(t.0))),
{
    let x = n / d;
    let e = exponent(x);
    let p = pow2(e);
    let step = d * p;
    lemma_exponent_bounds(x);
    lemma_pow2_pos(e);
    assert(step > 0) by (nonlinear_arith)
        requires
            step == d * p,
            d > 0,
            p > 0,
    ;
    lemma_fundamental_div_mod(n as int, d as int);
    lemma_fundamental_div_mod(n as int, step as int);
    let q = n / step;
    let r = n % step;
    assert(q < 2 * STEPS) by {
        assert(d * (x + 1) <= d * (2 * STEPS * p)) by (nonlinear_arith)
            requires
                x + 1 <= 2 * STEPS * p,
        ;
        let rest = n % d;
        assert(n < d * (x + 1)) by (nonlinear_arith)
            requires
                n == d * x + rest,
                rest < d,
        ;
        assert(d * (2 * STEPS * p) == 2 * STEPS * step) by (nonlinear_arith)
            requires
                step == d * p,
        ;
        assert(q < 2 * STEPS) by (nonlinear_arith)
            requires
                step * q <= n,
                n < 2 * STEPS * step,
                step > 0,
        ;
    }
    if e > 0 {
        assert(d * x >= d * (STEPS * p)) by (nonlinear_arith)
            requires
                x >= STEPS * p,
        ;
        assert(d * (STEPS * p) == STEPS * step) by (nonlinear_arith)
            requires
                step == d * p,
        ;
        assert(q >= STEPS) by (nonlinear_arith)
            requires
                n >= STEPS * step,
                n == step * q + r,
                r < step,
                step > 0,
        ;
    }
    assert(step * q == q * step) by (nonlinear_arith);
    lemma_rounded_parts(n, d, e, q, r);
    (e, q, r)
}

/// Rounding gives a number.
pub proof fn lemma_rounded_limit(n: nat, d: nat)
    requires
        d > 0,
    ensures
        rounded(n, d) <= INFINITE,
{
    let _ = lemma_rounded_unfold(n, d);
}

/// Rounding looks at the quotient alone.
pub proof fn lemma_rounded_scaled(n: nat, d: nat, c: nat)
    requires
        d > 0,
        c > 0,
    ensures
        rounded(n * c, d * c) == rounded(n, d),
{
    let (e, q, r) = lemma_rounded_unfold(n, d);
    let p = pow2(e);
    let step = d * p;
    assert(d * c * p == c * step) by (nonlinear_arith)
        requires
            step == d * p,
    ;
    assert(n * c == q * (c * step) + c * r) by (nonlinear_arith)
        requires
            n == q * step + r,
    ;
    assert(c * r < c * step) by (nonlinear_arith)
        requires
            r < step,
            c > 0,
    ;
    assert(d * c > 0) by (nonlinear_arith)
        requires
            d > 0,
            c > 0,
    ;
    assert(2 * (c * r) == c * (2 * r)) by (nonlinear_arith);
    assert(2 * r > step ==> c * (2 * r) > c * step) by (nonlinear_arith)
        requires
            c > 0,
    ;
    assert(2 * r < step ==> c * (2 * r) < c * step) by (nonlinear_arith)
        requires
            c > 0,
    ;
    lemma_rounded_parts(n * c, d * c, e, q, c * r);
}

/// The parts of a code.
pub proof fn lemma_code_parts(code: nat)
    ensures
        scale(code) * STEPS <= code,
        code - scale(code) * STEPS < 2 * STEPS,
        scale(code) == 0 || code - scale(code) * STEPS >= STEPS,
        code < INFINITE ==> scale(code) <= 2045,
        code == INFINITE ==> scale(code) == 2046 && code - scale(code) * STEPS == STEPS,
{
}

/// A representable magnitude rounds to itself.
pub proof fn lemma_rounded_exact(code: nat)
    requires
        code <= INFINITE,
    ensures
        rounded(units(code), 1) == code,
{
    lemma_code_parts(code);
    let e = scale(code);
    let q = (code - e * STEPS) as nat;
    lemma_pow2_pos(e);
    assert(1 * pow2(e) == pow2(e));
    lemma_rounded_parts(units(code), 1, e, q, 0);
}

/// The first codes count units.
pub proof fn lemma_units_small(code: nat)
    requires
        code < 2 * STEPS,
    ensures
        units(code) == code,
{
    vstd::arithmetic::power2::lemma2_to64();
    assert(scale(code) == 0);
    assert(code * 1 == code);
}

/// The next code stands for a magnitude one step further.
pub proof fn lemma_units_next(code: nat)
    ensures
        units(code + 1) == units(code) + pow2(scale(code)),
{
    lemma_code_parts(code);
    lemma_code_parts(code + 1);
    let e = scale(code);
    let q = (code - e * STEPS) as nat;
    let p = pow2(e);
    if scale(code + 1) == e {
        assert((q + 1) * p == q * p + p) by (nonlinear_arith);
    } else {
        assert(scale(code + 1) == e + 1);
        assert(q + 1 == 2 * STEPS);
        lemma_pow2_unfold(e + 1);
        assert(STEPS * (2 * p) == (2 * STEPS - 1) * p + p) by (nonlinear_arith);
    }
}

/// Larger codes stand for larger magnitudes.
pub proof fn lemma_units_increase(a: nat, b: nat)
    requires
        a < b,
    ensures
        units(a) < units(b),
    decreases b,
{
    let c = (b - 1) as nat;
    lemma_units_next(c);
    lemma_pow2_pos(scale(c));
    if a < c {
        lemma_units_increase(a, c);
    }
}

/// Codes are ordered as the magnitudes that they stand for.
pub proof fn lemma_units_ordered(a: nat, b: nat)
    ensures
        a < b <==> units(a) < units(b),
        a == b <==> units(a) == units(b),
{
    if a < b {
        lemma_units_increase(a, b);
    } else if b < a {
        lemma_units_increase(b, a);
    }
}

} // verus!
