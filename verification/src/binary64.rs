//! Binary64 numbers held as their bits, with arithmetic done in integers.
//!
//! Coordinates of zones are binary64 fractions of an output. Keeping the bits
//! and computing with integers makes every result a plain function of its
//! inputs, so that what the layout code decides can be stated and proved. The
//! results are the ones that IEEE 754 prescribes: each operation rounds the exact
//! result once, to nearest, ties to even.

use crate::rounding::{
    assembled, goes_up, lemma_code_parts, lemma_rounded_exact, lemma_rounded_limit, lemma_rounded_parts,
    lemma_rounded_scaled, lemma_units_ordered, lemma_units_small, rounded, scale, units, INFINITE, STEPS,
};
use vstd::arithmetic::power2::{
    lemma2_to64, lemma_pow2_adds, lemma_pow2_pos, lemma_pow2_strictly_increases, lemma_pow2_unfold, pow2,
};
use vstd::prelude::*;

verus! {

/// The sign bit.
pub const SIGN: u64 = 0x8000_0000_0000_0000;

/// The bits of the number that stands for no number.
pub const NAN: u64 = 0x7ff8_0000_0000_0000;

/// A binary64 number.
#[derive(Clone, Copy, Debug)]
pub struct Binary64 {
    pub bits: u64,
}

/// The number with this sign and code.
pub open spec fn signed(negative: bool, code: nat) -> Binary64 {
    Binary64 {
        bits: (code + if negative {
            SIGN as nat
        } else {
            0nat
        }) as u64,
    }
}

/// The number nearest to `v` units. A zero gets the sign that `negative_zero`
/// tells.
pub open spec fn nearest(v: int, negative_zero: bool) -> Binary64 {
    if v == 0 {
        signed(negative_zero, 0)
    } else if v < 0 {
        signed(true, rounded((-v) as nat, 1))
    } else {
        signed(false, rounded(v as nat, 1))
    }
}

/// How many units make up one.
pub open spec fn one_units() -> nat {
    pow2(1074)
}

/// Largest exponent that a value handed to [`pack`] may be scaled down by.
pub open spec fn headroom() -> nat {
    2200
}

/// Two to the power of `t`.
pub(crate) fn power(t: u32) -> (w: u128)
    requires
        t <= 127,
    ensures
        w == pow2(t as nat),
{
    let mut w: u128 = 1;
    let mut i: u32 = 0;
    proof {
        lemma2_to64();
    }
    while i < t
        invariant
            i <= t <= 127,
            w == pow2(i as nat),
        decreases t - i,
    {
        proof {
            lemma_pow2_unfold((i + 1) as nat);
            lemma_pow2_unfold(127);
            if i + 1 < 127 {
                lemma_pow2_strictly_increases((i + 1) as nat, 127);
            }
            lemma_power_limit();
        }
        w = w * 2;
        i = i + 1;
    }
    w
}

pub(crate) proof fn lemma_power_limit()
    ensures
        pow2(127) == 0x8000_0000_0000_0000_0000_0000_0000_0000nat,
        pow2(126) == 0x4000_0000_0000_0000_0000_0000_0000_0000nat,
        pow2(106) == 0x400_0000_0000_0000_0000_0000_0000nat,
        pow2(53) == 2 * STEPS,
        pow2(52) == STEPS,
{
    lemma2_to64();
    vstd::arithmetic::power2::lemma2_to64_rest();
    lemma_pow2_adds(53, 53);
    lemma_pow2_adds(63, 63);
    lemma_pow2_adds(63, 64);
}

/// Number of binary digits of `p`.
fn digits(p: u128) -> (l: u32)
    requires
        p < pow2(126),
    ensures
        l <= 126,
        p < pow2(l as nat),
        l > 0 ==> p >= pow2((l - 1) as nat),
{
    let mut l: u32 = 0;
    let mut w: u128 = 1;
    proof {
        lemma2_to64();
        lemma_power_limit();
    }
    while w <= p
        invariant
            w == pow2(l as nat),
            l <= 126,
            p < pow2(126),
            l > 0 ==> p >= pow2((l - 1) as nat),
        decreases 126 - l,
    {
        proof {
            if l == 126 {
                assert(false);
            }
            lemma_pow2_unfold((l + 1) as nat);
            lemma_power_limit();
        }
        w = w * 2;
        l = l + 1;
    }
    l
}

/// Widening `p` by a power of two rounds without a rest.
proof fn lemma_pack_wide(p: nat, s: int, l: nat, t: int)
    requires
        -1200 <= s <= 3100,
        pow2((l - 1) as nat) <= p < pow2(l),
        0 < l <= 126,
        t <= 0,
        t >= l - 53,
        s + t >= 0,
        s + t > 0 ==> t == l - 53,
    ensures
        p * pow2((-t) as nat) < 2 * STEPS,
        rounded(p * pow2((s + headroom()) as nat), pow2(headroom())) == assembled(
            (s + t) as nat,
            p * pow2((-t) as nat),
            false,
        ),
{
    let k = headroom();
    let e = (s + t) as nat;
    let w = pow2((-t) as nat);
    let q = p * w;
    let a = pow2((s + k + t) as nat);
    let pl = pow2(l);
    let ph = pow2((l - 1) as nat);
    lemma_power_limit();
    lemma_pow2_pos((-t) as nat);
    lemma_pow2_pos(k);
    lemma_pow2_pos(e);
    lemma_pow2_pos((k + e) as nat);
    lemma_pow2_adds(l, (-t) as nat);
    lemma_pow2_adds((l - 1) as nat, (-t) as nat);
    lemma_pow2_adds((s + k + t) as nat, (-t) as nat);
    lemma_pow2_adds(k, e);
    assert(p * w < pl * w) by (nonlinear_arith)
        requires
            p < pl,
            w > 0,
    ;
    assert(p * w >= ph * w) by (nonlinear_arith)
        requires
            p >= ph,
            w > 0,
    ;
    if l - t < 53 {
        lemma_pow2_strictly_increases((l - t) as nat, 53);
    }
    assert(p * (a * w) == (p * w) * a + 0) by (nonlinear_arith);
    lemma_rounded_parts(p * pow2((s + k) as nat), pow2(k), e, q, 0);
}

/// Narrowing `p` by a power of two leaves a rest to round by.
proof fn lemma_pack_narrow(p: nat, s: int, l: nat, t: int, q: nat, r: nat)
    requires
        -1200 <= s <= 3100,
        pow2((l - 1) as nat) <= p < pow2(l),
        0 < l <= 126,
        t > 0,
        t >= l - 53,
        s + t >= 0,
        s + t > 0 ==> t == l - 53,
        p == q * pow2(t as nat) + r,
        r < pow2(t as nat),
    ensures
        q < 2 * STEPS,
        rounded(p * pow2((s + headroom()) as nat), pow2(headroom())) == assembled(
            (s + t) as nat,
            q,
            goes_up(q, r, pow2(t as nat)),
        ),
{
    let k = headroom();
    let e = (s + t) as nat;
    let w = pow2(t as nat);
    let a = pow2((s + k) as nat);
    lemma_power_limit();
    lemma_pow2_pos(t as nat);
    lemma_pow2_pos(k);
    lemma_pow2_pos((s + k) as nat);
    lemma_pow2_adds((s + k) as nat, t as nat);
    lemma_pow2_adds(k, e);
    assert(k + e == s + k + t);
    let unit = pow2(k) * pow2(e);
    assert(unit == a * w);
    lemma_pow2_adds(53, t as nat);
    if l < 53 + t {
        lemma_pow2_strictly_increases(l, (53 + t) as nat);
    }
    assert(q < 2 * STEPS) by (nonlinear_arith)
        requires
            q * w <= p,
            p < 2 * STEPS * w,
            w > 0,
    ;
    if e > 0 {
        lemma_pow2_adds(52, t as nat);
        assert(q >= STEPS) by (nonlinear_arith)
            requires
                q * w + r >= STEPS * w,
                r < w,
                w > 0,
        ;
    }
    assert((q * w + r) * a == q * (a * w) + a * r) by (nonlinear_arith);
    assert(a * r < a * w) by (nonlinear_arith)
        requires
            r < w,
            a > 0,
    ;
    assert(2 * (a * r) == a * (2 * r)) by (nonlinear_arith);
    assert(2 * r > w ==> a * (2 * r) > a * w) by (nonlinear_arith)
        requires
            a > 0,
    ;
    assert(2 * r < w ==> a * (2 * r) < a * w) by (nonlinear_arith)
        requires
            a > 0,
    ;
    lemma_rounded_parts(p * a, pow2(k), e, q, a * r);
}

/// Zero rounds to zero.
pub(crate) proof fn lemma_rounded_zero(d: nat)
    requires
        d > 0,
    ensures
        rounded(0, d) == 0,
{
    lemma2_to64();
    lemma_rounded_parts(0, d, 0, 0, 0);
}

/// Code of the magnitude nearest to `p` times two to the power of `s` units.
pub(crate) fn pack(p: u128, s: i32) -> (code: u64)
    requires
        p < pow2(126),
        -1200 <= s <= 3100,
    ensures
        code == rounded(p as nat * pow2((s + headroom()) as nat), pow2(headroom())),
        code <= INFINITE,
{
    if p == 0 {
        proof {
            lemma_pow2_pos(headroom());
            lemma_rounded_zero(pow2(headroom()));
        }
        return 0;
    }
    let l = digits(p);
    proof {
        lemma2_to64();
        lemma_power_limit();
    }
    let lo: i32 = l as i32 - 53;
    let t: i32 = if -s > lo { -s } else { lo };
    let e: i32 = s + t;
    let mut q: u64 = 0;
    let mut up: bool = false;
    if t <= 0 {
        let w = power((-t) as u32);
        proof {
            lemma_pack_wide(p as nat, s as int, l as nat, t as int);
        }
        q = (p * w) as u64;
    } else if t <= 127 {
        let w = power(t as u32);
        proof {
            lemma_pow2_pos(t as nat);
        }
        let wide = p / w;
        let r = p % w;
        proof {
            vstd::arithmetic::div_mod::lemma_fundamental_div_mod(p as int, w as int);
            assert(w * wide == wide * w) by (nonlinear_arith);
            lemma_pack_narrow(p as nat, s as int, l as nat, t as int, wide as nat, r as nat);
        }
        q = wide as u64;
        up = r > w - r || (r == w - r && q % 2 == 1);
    } else {
        proof {
            lemma_pow2_strictly_increases(127, t as nat);
            lemma_pack_narrow(p as nat, s as int, l as nat, t as int, 0, p as nat);
        }
    }
    let code: u64 = e as u64 * STEPS + q + if up { 1 } else { 0 };
    if code < INFINITE {
        code
    } else {
        INFINITE
    }
}

/// Exponent of the step at a code.
pub(crate) fn step_exponent(code: u64) -> (e: i32)
    ensures
        e == scale(code as nat),
{
    if code < STEPS {
        0
    } else {
        (code / STEPS) as i32 - 1
    }
}

/// The exact sum of two magnitudes in units, or their difference.
spec fn combined(a: nat, b: nat, subtract: bool) -> nat {
    if subtract {
        (units(a) - units(b)) as nat
    } else {
        units(a) + units(b)
    }
}

/// Adding or taking away something far smaller than a step changes nothing.
proof fn lemma_absorbed(a: nat, b: nat, subtract: bool)
    requires
        b <= a < INFINITE,
        scale(a) > scale(b) + 70,
    ensures
        rounded(combined(a, b, subtract), 1) == a,
{
    lemma_code_parts(a);
    lemma_code_parts(b);
    let e = scale(a);
    let p = pow2(e);
    let m = (a - e * STEPS) as nat;
    let y = units(b);
    let f = scale(b);
    let mb = (b - f * STEPS) as nat;
    let h = pow2((e - 1) as nat);
    lemma_pow2_unfold(e);
    lemma_pow2_pos((e - 1) as nat);
    assert(2 * y < h) by {
        lemma_power_limit();
        let g = pow2(f);
        lemma_pow2_pos(f);
        assert(y < 2 * STEPS * g) by (nonlinear_arith)
            requires
                y == mb * g,
                mb < 2 * STEPS,
                g > 0,
        ;
        lemma_pow2_adds(53, f);
        lemma_pow2_unfold(f + 54);
        lemma_pow2_strictly_increases(f + 54, (e - 1) as nat);
    }
    if !subtract || y == 0 {
        lemma_rounded_parts(m * p + y, 1, e, m, y);
    } else if m > STEPS {
        let q = (m - 1) as nat;
        let r = (p - y) as nat;
        assert(m * p - y == q * p + r) by (nonlinear_arith)
            requires
                q == m - 1,
                r == p - y,
        ;
        lemma_rounded_parts((m * p - y) as nat, 1, e, q, r);
    } else {
        let q = (2 * STEPS - 1) as nat;
        let r = (h - y) as nat;
        assert(m * p - y == q * h + r) by (nonlinear_arith)
            requires
                m == STEPS,
                p == 2 * h,
                q == 2 * STEPS - 1,
                r == h - y,
        ;
        lemma_rounded_parts((m * p - y) as nat, 1, (e - 1) as nat, q, r);
    }
}

/// Code of the sum of two magnitudes, or of their difference.
fn add_codes(a: u64, b: u64, subtract: bool) -> (code: u64)
    requires
        b <= a < INFINITE,
    ensures
        code == rounded(combined(a as nat, b as nat, subtract), 1),
        code <= INFINITE,
{
    let ea = step_exponent(a);
    let eb = step_exponent(b);
    proof {
        lemma_code_parts(a as nat);
        lemma_code_parts(b as nat);
        lemma_units_ordered(b as nat, a as nat);
    }
    let ma: u64 = a - ea as u64 * STEPS;
    let mb: u64 = b - eb as u64 * STEPS;
    if ea - eb > 70 {
        proof {
            lemma_absorbed(a as nat, b as nat, subtract);
        }
        return a;
    }
    let w = power((ea - eb) as u32);
    let ghost g = pow2(eb as nat);
    let ghost c = pow2(headroom());
    proof {
        lemma_power_limit();
        lemma_pow2_adds(53, 70);
        lemma_pow2_unfold(124);
        lemma_pow2_strictly_increases(124, 126);
        if ea - eb < 70 {
            lemma_pow2_strictly_increases((ea - eb) as nat, 70);
        }
        lemma_pow2_pos(70);
        assert(ma * w < pow2(123)) by (nonlinear_arith)
            requires
                ma < 2 * STEPS,
                w <= pow2(70),
                pow2(123) == 2 * STEPS * pow2(70),
                pow2(70) > 0,
        ;
        lemma_pow2_strictly_increases(53, 123);
        lemma_pow2_adds((ea - eb) as nat, eb as nat);
        lemma_pow2_pos(eb as nat);
        assert(ma * (w * g) == (ma * w) * g) by (nonlinear_arith);
        assert((ma * w) * g + mb * g == (ma * w + mb) * g) by (nonlinear_arith);
        assert((ma * w) * g - mb * g == (ma * w - mb) * g) by (nonlinear_arith);
        assert(units(b as nat) <= units(a as nat) ==> mb <= ma * w) by (nonlinear_arith)
            requires
                units(b as nat) == mb * g,
                units(a as nat) == (ma * w) * g,
                g > 0,
        ;
        lemma_pow2_pos(headroom());
        lemma_pow2_adds(eb as nat, headroom());
    }
    let wide = ma as u128 * w;
    let p = if subtract { wide - mb as u128 } else { wide + mb as u128 };
    proof {
        assert(p * (g * c) == (p * g) * c) by (nonlinear_arith);
        lemma_rounded_scaled((p * g) as nat, 1, c);
    }
    pack(p, eb)
}

/// Code of the product of two magnitudes.
fn multiply_codes(a: u64, b: u64) -> (code: u64)
    requires
        a < INFINITE,
        b < INFINITE,
    ensures
        code == rounded(units(a as nat) * units(b as nat), one_units()),
        code <= INFINITE,
{
    let ea = step_exponent(a);
    let eb = step_exponent(b);
    proof {
        lemma_code_parts(a as nat);
        lemma_code_parts(b as nat);
    }
    let ma: u64 = a - ea as u64 * STEPS;
    let mb: u64 = b - eb as u64 * STEPS;
    let ghost ga = pow2(ea as nat);
    let ghost gb = pow2(eb as nat);
    let ghost rest = (headroom() - 1074) as nat;
    let ghost c = pow2(rest);
    proof {
        lemma_power_limit();
        lemma_pow2_strictly_increases(106, 126);
        lemma_pow2_adds(53, 53);
        assert(ma * mb < pow2(106)) by (nonlinear_arith)
            requires
                ma < pow2(53),
                mb < pow2(53),
                pow2(106) == pow2(53) * pow2(53),
        ;
        lemma_pow2_adds(ea as nat, eb as nat);
        lemma_pow2_adds((ea + eb) as nat, rest);
        lemma_pow2_adds(1074, rest);
        lemma_pow2_pos(rest);
        lemma_pow2_pos(1074);
        assert((ma * ga) * (mb * gb) == (ma * mb) * (ga * gb)) by (nonlinear_arith);
        assert((ma * mb) * ((ga * gb) * c) == ((ma * mb) * (ga * gb)) * c) by (nonlinear_arith);
        lemma_rounded_scaled((ma * mb * (ga * gb)) as nat, one_units(), c);
    }
    pack(ma as u128 * mb as u128, ea + eb - 1074)
}

/// Rounding a quotient by the parts of a quotient that is a common factor
/// smaller.
proof fn lemma_quotient_parts(num: nat, den: nat, g: nat, d: nat, e: nat, q: nat, r: nat)
    requires
        den > 0,
        g > 0,
        d > 0,
        d * pow2(e) == den * g,
        num == den * q + r,
        r < den,
        q < 2 * STEPS,
        e == 0 || q >= STEPS,
    ensures
        rounded(num * g, d) == assembled(e, q, goes_up(q, r, den)),
{
    let step = den * g;
    assert((den * q + r) * g == q * (den * g) + r * g) by (nonlinear_arith);
    assert(r * g < den * g) by (nonlinear_arith)
        requires
            r < den,
            g > 0,
    ;
    assert(2 * (r * g) == (2 * r) * g) by (nonlinear_arith);
    assert(2 * r > den ==> (2 * r) * g > den * g) by (nonlinear_arith)
        requires
            g > 0,
    ;
    assert(2 * r < den ==> (2 * r) * g < den * g) by (nonlinear_arith)
        requires
            g > 0,
    ;
    lemma_rounded_parts(num * g, d, e, q, r * g);
}

/// How far `m` has to be widened for its quotient by `d` to have full length.
fn widening(m: u64, d: u64) -> (s: u32)
    requires
        0 < m < 2 * STEPS,
        0 < d < 2 * STEPS,
    ensures
        s <= 106,
        m * pow2(s as nat) < pow2(107),
        STEPS <= (m * pow2(s as nat)) / (d as int) < 2 * STEPS,
{
    let wide: u128 = d as u128;
    let mut num: u128 = m as u128;
    let mut s: u32 = 0;
    proof {
        lemma2_to64();
        lemma_power_limit();
        lemma_pow2_unfold(107);
        lemma_pow2_strictly_increases(53, 107);
        assert(num / wide <= num) by (nonlinear_arith)
            requires
                wide > 0,
        ;
    }
    while num / wide < STEPS as u128
        invariant
            wide == d,
            0 < d < 2 * STEPS,
            0 < m < 2 * STEPS,
            num == m * pow2(s as nat),
            num / wide < 2 * STEPS,
            num < pow2(107),
            s <= 106,
        decreases 106 - s,
    {
        proof {
            let w = pow2(s as nat);
            lemma_pow2_pos(s as nat);
            lemma_power_limit();
            lemma_pow2_adds(53, 53);
            lemma_pow2_unfold(107);
            vstd::arithmetic::div_mod::lemma_fundamental_div_mod(num as int, d as int);
            let q = num / wide;
            let r = num % wide;
            assert(num < STEPS * d) by (nonlinear_arith)
                requires
                    num == d * q + r,
                    r < d,
                    q + 1 <= STEPS,
                    d > 0,
            ;
            assert(num < pow2(106)) by (nonlinear_arith)
                requires
                    num < STEPS * d,
                    STEPS <= pow2(53),
                    d < pow2(53),
                    pow2(106) == pow2(53) * pow2(53),
            ;
            assert(num >= w) by (nonlinear_arith)
                requires
                    num == m * w,
                    m >= 1,
            ;
            if s == 106 {
                assert(false);
            }
            lemma_pow2_unfold((s + 1) as nat);
            assert(m * (2 * w) == 2 * (m * w)) by (nonlinear_arith);
            assert((2 * num) / (d as int) < 2 * STEPS) by (nonlinear_arith)
                requires
                    num < STEPS * d,
                    d > 0,
            ;
        }
        num = num * 2;
        s = s + 1;
    }
    s
}

/// Code of the quotient of two magnitudes.
fn divide_codes(a: u64, b: u64) -> (code: u64)
    requires
        a < INFINITE,
        0 < b < INFINITE,
    ensures
        code == rounded(units(a as nat) * one_units(), units(b as nat)),
        code <= INFINITE,
{
    let ea = step_exponent(a);
    let eb = step_exponent(b);
    proof {
        lemma_code_parts(a as nat);
        lemma_code_parts(b as nat);
        lemma_units_small(0);
        lemma_units_ordered(b as nat, 0);
    }
    if a == 0 {
        proof {
            assert(units(a as nat) * one_units() == 0) by (nonlinear_arith)
                requires
                    units(a as nat) == 0,
            ;
            lemma_rounded_zero(units(b as nat));
        }
        return 0;
    }
    let ma: u64 = a - ea as u64 * STEPS;
    let mb: u64 = b - eb as u64 * STEPS;
    let s = widening(ma, mb);
    let delta: i32 = ea - eb + 1074;
    let ghost d = units(b as nat);
    let ghost n = units(a as nat) * one_units();
    let ghost gb = pow2(eb as nat);
    proof {
        lemma_power_limit();
        lemma_pow2_pos(eb as nat);
        lemma_pow2_pos((ea + 1074) as nat);
        lemma_pow2_adds(ea as nat, 1074);
        let ga = pow2(ea as nat);
        let one = pow2(1074);
        assert((ma * ga) * one == ma * (ga * one)) by (nonlinear_arith);
        lemma_pow2_unfold(107);
    }
    if delta >= 0 {
        let t: u32 = if delta as u32 >= s { s } else { delta as u32 };
        let e: u32 = delta as u32 - t;
        let w = power(t);
        let ghost g = pow2((e + eb) as nat);
        proof {
            let ws = pow2(s as nat);
            if t < s {
                lemma_pow2_strictly_increases(t as nat, s as nat);
            }
            assert(ma * w <= ma * ws) by (nonlinear_arith)
                requires
                    w <= ws,
            ;
            vstd::arithmetic::div_mod::lemma_div_is_ordered((ma * w) as int, (ma * ws) as int, mb as int);
            lemma_pow2_adds(t as nat, (e + eb) as nat);
            lemma_pow2_adds(eb as nat, e as nat);
            lemma_pow2_pos((e + eb) as nat);
            let pe = pow2(e as nat);
            assert((mb * gb) * pe == mb * (gb * pe)) by (nonlinear_arith);
            assert(ma * (w * g) == (ma * w) * g) by (nonlinear_arith);
        }
        let num: u128 = ma as u128 * w;
        let q: u64 = (num / mb as u128) as u64;
        let r: u64 = (num % mb as u128) as u64;
        let up: bool = r > mb - r || (r == mb - r && q % 2 == 1);
        proof {
            vstd::arithmetic::div_mod::lemma_fundamental_div_mod(num as int, mb as int);
            lemma_quotient_parts(num as nat, mb as nat, g, d, e as nat, q as nat, r as nat);
        }
        let code: u64 = e as u64 * STEPS + q + if up { 1 } else { 0 };
        if code < INFINITE {
            code
        } else {
            INFINITE
        }
    } else {
        let t: u32 = (-delta) as u32;
        let ghost g = pow2((ea + 1074) as nat);
        proof {
            lemma_pow2_adds(t as nat, (ea + 1074) as nat);
            lemma2_to64();
            let pt = pow2(t as nat);
            assert((mb * pt) * g == mb * (pt * g)) by (nonlinear_arith);
            lemma_pow2_pos(t as nat);
            assert(mb * pt >= pt) by (nonlinear_arith)
                requires
                    mb >= 1,
                    pt >= 0,
            ;
        }
        if t > 53 {
            proof {
                let pt = pow2(t as nat);
                lemma_pow2_unfold(54);
                if t > 54 {
                    lemma_pow2_strictly_increases(54, t as nat);
                }
                lemma_quotient_parts(ma as nat, (mb * pt) as nat, g, d, 0, 0, ma as nat);
            }
            return 0;
        }
        let w = power(t);
        proof {
            if t < 53 {
                lemma_pow2_strictly_increases(t as nat, 53);
            }
            lemma_pow2_adds(53, 53);
            assert(mb * w < pow2(106)) by (nonlinear_arith)
                requires
                    mb < pow2(53),
                    w <= pow2(53),
                    w > 0,
                    pow2(106) == pow2(53) * pow2(53),
            ;
        }
        let den: u128 = mb as u128 * w;
        let num: u128 = ma as u128;
        proof {
            assert(num / den <= num) by (nonlinear_arith)
                requires
                    den > 0,
            ;
        }
        let q: u64 = (num / den) as u64;
        let r: u128 = num % den;
        let up: bool = r > den - r || (r == den - r && q % 2 == 1);
        proof {
            vstd::arithmetic::div_mod::lemma_fundamental_div_mod(num as int, den as int);
            lemma_quotient_parts(num as nat, den as nat, g, d, 0, q as nat, r as nat);
        }
        q + if up { 1 } else { 0 }
    }
}

/// Code of a whole number.
fn whole_code(v: u64) -> (code: u64)
    ensures
        code == rounded(v as nat * one_units(), 1),
        code <= INFINITE,
{
    let ghost k = headroom();
    proof {
        lemma2_to64();
        lemma_pow2_strictly_increases(64, 126);
        lemma_pow2_adds(1074, k);
        lemma_pow2_pos(k);
        assert(v * (one_units() * pow2(k)) == (v * one_units()) * pow2(k)) by (nonlinear_arith);
        lemma_rounded_scaled((v * one_units()) as nat, 1, pow2(k));
    }
    pack(v as u128, 1074)
}

/// Order of two magnitudes.
proof fn lemma_values_ordered(a: Binary64, b: Binary64)
    ensures
        a.spec_is_negative() == b.spec_is_negative() ==> (a.value() == b.value() <==> a.code() == b.code()),
        !a.spec_is_negative() && !b.spec_is_negative() ==> (a.value() < b.value() <==> a.code() < b.code()),
        a.spec_is_negative() && b.spec_is_negative() ==> (a.value() < b.value() <==> b.code() < a.code()),
        a.value() == 0 <==> a.code() == 0,
        a.spec_is_negative() ==> a.value() <= 0,
        !a.spec_is_negative() ==> a.value() >= 0,
{
    lemma_units_ordered(a.code(), b.code());
    lemma_units_ordered(b.code(), a.code());
    lemma_units_ordered(a.code(), 0);
    lemma_units_small(0);
}

impl Binary64 {
    /// The bits without the sign.
    pub open spec fn code(self) -> nat {
        (self.bits % SIGN) as nat
    }

    pub open spec fn spec_is_negative(self) -> bool {
        self.bits >= SIGN
    }

    pub open spec fn spec_is_nan(self) -> bool {
        self.code() > INFINITE
    }

    pub open spec fn spec_is_finite(self) -> bool {
        self.code() < INFINITE
    }

    /// Signed size in units; an infinity counts as the first size that is too
    /// large.
    pub open spec fn value(self) -> int {
        if self.bits >= SIGN {
            -(units(self.code()) as int)
        } else {
            units(self.code()) as int
        }
    }

    /// The sum, rounded once. An infinity absorbs what is finite; opposite
    /// infinities have no sum.
    #[verifier::opaque]
    pub open spec fn spec_plus(self, other: Binary64) -> Binary64 {
        if self.spec_is_nan() || other.spec_is_nan() {
            Binary64 { bits: NAN }
        } else if !self.spec_is_finite() {
            if !other.spec_is_finite() && self.spec_is_negative() != other.spec_is_negative() {
                Binary64 { bits: NAN }
            } else {
                self
            }
        } else if !other.spec_is_finite() {
            other
        } else {
            nearest(self.value() + other.value(), self.spec_is_negative() && other.spec_is_negative())
        }
    }

    pub open spec fn spec_negated(self) -> Binary64 {
        signed(!self.spec_is_negative(), self.code())
    }

    /// The difference, rounded once.
    pub open spec fn spec_minus(self, other: Binary64) -> Binary64 {
        self.spec_plus(other.spec_negated())
    }

    /// The product, rounded once. Infinity times zero is no number.
    #[verifier::opaque]
    pub open spec fn spec_times(self, other: Binary64) -> Binary64 {
        let negative = self.spec_is_negative() != other.spec_is_negative();
        if self.spec_is_nan() || other.spec_is_nan() {
            Binary64 { bits: NAN }
        } else if !self.spec_is_finite() || !other.spec_is_finite() {
            if self.code() == 0 || other.code() == 0 {
                Binary64 { bits: NAN }
            } else {
                signed(negative, INFINITE as nat)
            }
        } else {
            signed(negative, rounded(units(self.code()) * units(other.code()), one_units()))
        }
    }

    /// Whether this number is less than the other; never with what is no number.
    pub open spec fn spec_below(self, other: Binary64) -> bool {
        !self.spec_is_nan() && !other.spec_is_nan() && self.value() < other.value()
    }

    /// Whether this number is at most the other; never with what is no number.
    pub open spec fn spec_at_most(self, other: Binary64) -> bool {
        !self.spec_is_nan() && !other.spec_is_nan() && self.value() <= other.value()
    }

    /// Whether the two are the same number, whatever the sign of a zero.
    pub open spec fn spec_same(self, other: Binary64) -> bool {
        !self.spec_is_nan() && !other.spec_is_nan() && self.value() == other.value()
    }

    pub open spec fn spec_absolute(self) -> Binary64 {
        signed(false, self.code())
    }

    /// The lesser of the two, the other one where one is no number.
    pub open spec fn spec_least(self, other: Binary64) -> Binary64 {
        if self.spec_is_nan() || other.spec_below(self) {
            other
        } else {
            self
        }
    }

    /// The greater of the two, the other one where one is no number.
    pub open spec fn spec_greatest(self, other: Binary64) -> Binary64 {
        if self.spec_is_nan() || self.spec_below(other) {
            other
        } else {
            self
        }
    }

    /// This number, or the bound that it lies beyond.
    pub open spec fn spec_bounded(self, low: Binary64, high: Binary64) -> Binary64 {
        if self.spec_below(low) {
            low
        } else if high.spec_below(self) {
            high
        } else {
            self
        }
    }

    /// The quotient, rounded once. Zero by zero and infinity by infinity have
    /// none.
    #[verifier::opaque]
    pub open spec fn spec_over(self, other: Binary64) -> Binary64 {
        let negative = self.spec_is_negative() != other.spec_is_negative();
        if self.spec_is_nan() || other.spec_is_nan() {
            Binary64 { bits: NAN }
        } else if !self.spec_is_finite() {
            if other.spec_is_finite() {
                signed(negative, INFINITE as nat)
            } else {
                Binary64 { bits: NAN }
            }
        } else if !other.spec_is_finite() {
            signed(negative, 0)
        } else if other.code() == 0 {
            if self.code() == 0 {
                Binary64 { bits: NAN }
            } else {
                signed(negative, INFINITE as nat)
            }
        } else {
            signed(negative, rounded(units(self.code()) * one_units(), units(other.code())))
        }
    }

    /// Whether this number comes before the other in the order of all numbers,
    /// in which a negative zero comes before zero and what is no number lies at
    /// the ends.
    pub open spec fn spec_precedes(self, other: Binary64) -> bool {
        if self.spec_is_negative() {
            !other.spec_is_negative() || other.code() < self.code()
        } else {
            !other.spec_is_negative() && self.code() < other.code()
        }
    }

    /// The number nearest to a whole number.
    pub open spec fn spec_count(v: u64) -> Binary64 {
        signed(false, rounded(v as nat * one_units(), 1))
    }

    /// The number equal to a whole number.
    pub open spec fn spec_whole(v: i32) -> Binary64 {
        if v < 0 {
            signed(true, rounded((-v) as nat * one_units(), 1))
        } else {
            signed(false, rounded(v as nat * one_units(), 1))
        }
    }

    /// The number that has these bits.
    pub fn from_bits(bits: u64) -> (r: Self)
        ensures
            r.bits == bits,
    {
        Binary64 { bits }
    }

    pub fn to_bits(self) -> (bits: u64)
        ensures
            bits == self.bits,
    {
        self.bits
    }

    #[verifier::when_used_as_spec(spec_is_negative)]
    pub fn is_negative(self) -> (r: bool)
        ensures
            r == self.spec_is_negative(),
    {
        self.bits >= SIGN
    }

    #[verifier::when_used_as_spec(spec_is_nan)]
    pub fn is_nan(self) -> (r: bool)
        ensures
            r == self.spec_is_nan(),
    {
        self.bits % SIGN > INFINITE
    }

    #[verifier::when_used_as_spec(spec_is_finite)]
    pub fn is_finite(self) -> (r: bool)
        ensures
            r == self.spec_is_finite(),
    {
        self.bits % SIGN < INFINITE
    }

    #[verifier::when_used_as_spec(spec_negated)]
    pub fn negated(self) -> (r: Self)
        ensures
            r == self.spec_negated(),
            r.code() == self.code(),
            r.spec_is_negative() == !self.spec_is_negative(),
            r.value() == -self.value(),
    {
        if self.bits >= SIGN {
            Binary64 { bits: self.bits - SIGN }
        } else {
            Binary64 { bits: self.bits + SIGN }
        }
    }

    #[verifier::when_used_as_spec(spec_absolute)]
    pub fn absolute(self) -> (r: Self)
        ensures
            r == self.spec_absolute(),
    {
        Binary64 { bits: self.bits % SIGN }
    }

    #[verifier::when_used_as_spec(spec_plus)]
    pub fn plus(self, other: Self) -> (r: Self)
        ensures
            r == self.spec_plus(other),
    {
        reveal(Binary64::spec_plus);
        if self.is_nan() || other.is_nan() {
            return Binary64 { bits: NAN };
        }
        if !self.is_finite() {
            if !other.is_finite() && self.is_negative() != other.is_negative() {
                return Binary64 { bits: NAN };
            }
            return self;
        }
        if !other.is_finite() {
            return other;
        }
        let a: u64 = self.bits % SIGN;
        let b: u64 = other.bits % SIGN;
        let (large, small, negative) = if b <= a {
            (a, b, self.is_negative())
        } else {
            (b, a, other.is_negative())
        };
        let subtract = self.is_negative() != other.is_negative();
        proof {
            lemma_units_ordered(a as nat, b as nat);
            lemma_units_ordered(b as nat, a as nat);
            lemma_units_ordered(a as nat, 0);
            lemma_units_ordered(b as nat, 0);
            lemma_units_small(0);
        }
        if subtract && a == b {
            return Binary64 { bits: 0 };
        }
        let code = add_codes(large, small, subtract);
        proof {
            if a == 0 && b == 0 {
                lemma_rounded_zero(1);
            }
        }
        if negative {
            Binary64 { bits: code + SIGN }
        } else {
            Binary64 { bits: code }
        }
    }

    #[verifier::when_used_as_spec(spec_minus)]
    pub fn minus(self, other: Self) -> (r: Self)
        ensures
            r == self.spec_minus(other),
    {
        self.plus(other.negated())
    }

    #[verifier::when_used_as_spec(spec_times)]
    pub fn times(self, other: Self) -> (r: Self)
        ensures
            r == self.spec_times(other),
    {
        reveal(Binary64::spec_times);
        if self.is_nan() || other.is_nan() {
            return Binary64 { bits: NAN };
        }
        let a: u64 = self.bits % SIGN;
        let b: u64 = other.bits % SIGN;
        let negative = self.is_negative() != other.is_negative();
        let code = if a < INFINITE && b < INFINITE {
            multiply_codes(a, b)
        } else if a == 0 || b == 0 {
            return Binary64 { bits: NAN };
        } else {
            INFINITE
        };
        if negative {
            Binary64 { bits: code + SIGN }
        } else {
            Binary64 { bits: code }
        }
    }

    #[verifier::when_used_as_spec(spec_below)]
    pub fn below(self, other: Self) -> (r: bool)
        ensures
            r == self.spec_below(other),
    {
        proof {
            lemma_values_ordered(self, other);
            lemma_values_ordered(other, self);
        }
        let a: u64 = self.bits % SIGN;
        let b: u64 = other.bits % SIGN;
        if a > INFINITE || b > INFINITE {
            false
        } else if self.is_negative() {
            if other.is_negative() {
                b < a
            } else {
                a != 0 || b != 0
            }
        } else {
            !other.is_negative() && a < b
        }
    }

    #[verifier::when_used_as_spec(spec_at_most)]
    pub fn at_most(self, other: Self) -> (r: bool)
        ensures
            r == self.spec_at_most(other),
    {
        !self.is_nan() && !other.is_nan() && !other.below(self)
    }

    #[verifier::when_used_as_spec(spec_same)]
    pub fn same(self, other: Self) -> (r: bool)
        ensures
            r == self.spec_same(other),
    {
        self.at_most(other) && other.at_most(self)
    }

    #[verifier::when_used_as_spec(spec_least)]
    pub fn least(self, other: Self) -> (r: Self)
        ensures
            r == self.spec_least(other),
    {
        if self.is_nan() || other.below(self) {
            other
        } else {
            self
        }
    }

    #[verifier::when_used_as_spec(spec_greatest)]
    pub fn greatest(self, other: Self) -> (r: Self)
        ensures
            r == self.spec_greatest(other),
    {
        if self.is_nan() || self.below(other) {
            other
        } else {
            self
        }
    }

    #[verifier::when_used_as_spec(spec_bounded)]
    pub fn bounded(self, low: Self, high: Self) -> (r: Self)
        ensures
            r == self.spec_bounded(low, high),
    {
        if self.below(low) {
            low
        } else if high.below(self) {
            high
        } else {
            self
        }
    }

    #[verifier::when_used_as_spec(spec_over)]
    pub fn over(self, other: Self) -> (r: Self)
        ensures
            r == self.spec_over(other),
    {
        reveal(Binary64::spec_over);
        if self.is_nan() || other.is_nan() {
            return Binary64 { bits: NAN };
        }
        let a: u64 = self.bits % SIGN;
        let b: u64 = other.bits % SIGN;
        let negative = self.is_negative() != other.is_negative();
        let code = if a == INFINITE {
            if b == INFINITE {
                return Binary64 { bits: NAN };
            }
            INFINITE
        } else if b == INFINITE {
            0
        } else if b == 0 {
            if a == 0 {
                return Binary64 { bits: NAN };
            }
            INFINITE
        } else {
            divide_codes(a, b)
        };
        if negative {
            Binary64 { bits: code + SIGN }
        } else {
            Binary64 { bits: code }
        }
    }

    #[verifier::when_used_as_spec(spec_precedes)]
    pub fn precedes(self, other: Self) -> (r: bool)
        ensures
            r == self.spec_precedes(other),
    {
        if self.is_negative() {
            !other.is_negative() || other.bits % SIGN < self.bits % SIGN
        } else {
            !other.is_negative() && self.bits < other.bits
        }
    }

    #[verifier::when_used_as_spec(spec_count)]
    pub fn count(v: u64) -> (r: Self)
        ensures
            r == Self::spec_count(v),
    {
        Binary64 { bits: whole_code(v) }
    }

    #[verifier::when_used_as_spec(spec_whole)]
    pub fn whole(v: i32) -> (r: Self)
        ensures
            r == Self::spec_whole(v),
    {
        if v < 0 {
            let code = whole_code((-(v as i64)) as u64);
            Binary64 { bits: code + SIGN }
        } else {
            Binary64 { bits: whole_code(v as u64) }
        }
    }
}

/// A code together with a sign is told apart again.
pub proof fn lemma_signed(negative: bool, code: nat)
    requires
        code < SIGN,
    ensures
        signed(negative, code).code() == code,
        signed(negative, code).is_negative() == negative,
{
}

/// A product of two numbers other than zero is a number.
pub proof fn lemma_times_number(a: Binary64, b: Binary64)
    requires
        !a.is_nan(),
        !b.is_nan(),
        a.code() != 0,
        b.code() != 0,
    ensures
        !a.times(b).is_nan(),
{
    reveal(Binary64::spec_times);
    let negative = a.is_negative() != b.is_negative();
    let code = rounded(units(a.code()) * units(b.code()), one_units());
    lemma_pow2_pos(1074);
    lemma_rounded_limit(units(a.code()) * units(b.code()), one_units());
    lemma_signed(negative, code);
    lemma_signed(negative, INFINITE as nat);
}

/// Adding a zero changes no number.
pub proof fn lemma_plus_zero(a: Binary64, b: Binary64)
    requires
        !a.is_nan(),
        b.code() == 0,
    ensures
        a.plus(b).value() == a.value(),
        !a.plus(b).is_nan(),
        a.is_finite() ==> a.plus(b).is_finite(),
{
    reveal(Binary64::spec_plus);
    lemma_units_small(0);
    lemma_values_ordered(a, b);
    if a.is_finite() {
        lemma_rounded_exact(a.code());
        if a.code() != 0 {
            lemma_signed(a.is_negative(), a.code());
        } else {
            lemma_signed(a.is_negative() && b.is_negative(), 0);
        }
    }
}

impl PartialEq for Binary64 {
    fn eq(&self, other: &Self) -> (r: bool) {
        self.same(*other)
    }
}

impl vstd::std_specs::cmp::PartialEqSpecImpl for Binary64 {
    open spec fn obeys_eq_spec() -> bool {
        true
    }

    open spec fn eq_spec(&self, other: &Self) -> bool {
        self.spec_same(*other)
    }
}

} // verus!
