//! Going from binary64 numbers to whole pixels and to single precision.

use crate::binary64::{
    headroom, lemma_power_limit, lemma_rounded_zero, one_units, pack, power, signed, step_exponent, Binary64, NAN,
    SIGN,
};
use crate::rounding::{goes_up, lemma_code_parts, lemma_rounded_scaled, rounded, scale, units, INFINITE, STEPS};
use vstd::arithmetic::div_mod::{lemma_fundamental_div_mod, lemma_fundamental_div_mod_converse};
use vstd::arithmetic::power2::{
    lemma2_to64, lemma_pow2_adds, lemma_pow2_pos, lemma_pow2_strictly_increases, lemma_pow2_unfold, pow2,
};
use vstd::prelude::*;

verus! {

/// Exponent of the number of units in one step of single precision around a
/// code.
pub open spec fn narrow_scale(code: nat) -> nat {
    if scale(code) + 29 < 925 {
        925
    } else {
        scale(code) + 29
    }
}

/// A number of steps of single precision that is nearest to a code, the even one
/// of two that are equally near.
pub open spec fn narrow_steps(code: nat) -> nat {
    let step = pow2(narrow_scale(code));
    let q = units(code) / step;
    q + if goes_up(q, units(code) % step, step) {
        1nat
    } else {
        0nat
    }
}

/// Code of the single precision magnitude nearest to a code.
pub open spec fn narrow_code(code: nat) -> nat {
    let v = narrow_steps(code) * pow2(narrow_scale(code));
    if v >= pow2(1202) {
        INFINITE as nat
    } else {
        rounded(v, 1)
    }
}

/// The whole number of 32 bits nearest to `v`.
pub open spec fn saturated(v: int) -> int {
    if v < i32::MIN {
        i32::MIN as int
    } else if v > i32::MAX {
        i32::MAX as int
    } else {
        v
    }
}

fn narrow(code: u64) -> (r: u64)
    requires
        code < INFINITE,
    ensures
        r == narrow_code(code as nat),
        r <= INFINITE,
{
    let e = step_exponent(code);
    proof {
        lemma_code_parts(code as nat);
    }
    let m: u64 = code - e as u64 * STEPS;
    let f: i32 = if e + 29 < 925 { 925 } else { e + 29 };
    let t: i32 = f - e;
    let ghost step = pow2(f as nat);
    let ghost g = pow2(e as nat);
    let ghost wide = pow2(t as nat);
    proof {
        lemma_power_limit();
        lemma_pow2_adds(t as nat, e as nat);
        lemma_pow2_pos(t as nat);
        lemma_pow2_pos(e as nat);
        lemma_pow2_pos(f as nat);
        lemma_pow2_pos(1202);
    }
    if t > 54 {
        proof {
            lemma_pow2_unfold(54);
            lemma_pow2_unfold(55);
            if t > 55 {
                lemma_pow2_strictly_increases(55, t as nat);
            }
            assert(2 * (m * g) < wide * g) by (nonlinear_arith)
                requires
                    2 * m < wide,
                    g > 0,
            ;
            lemma_fundamental_div_mod_converse(units(code as nat) as int, step as int, 0, units(code as nat) as int);
            assert(narrow_steps(code as nat) == 0);
            assert(0 * step == 0);
            lemma_rounded_zero(1);
        }
        return 0;
    }
    let w = power(t as u32);
    let q: u128 = m as u128 / w;
    let r: u128 = m as u128 % w;
    let up: bool = r > w - r || (r == w - r && q % 2 == 1);
    let steps: u128 = q + if up { 1 } else { 0 };
    proof {
        lemma_fundamental_div_mod(m as int, w as int);
        assert((w * q + r) * g == (w * g) * q + r * g) by (nonlinear_arith);
        assert(r * g < w * g) by (nonlinear_arith)
            requires
                r < w,
                g > 0,
        ;
        assert(step * q == q * step) by (nonlinear_arith);
        lemma_fundamental_div_mod_converse(units(code as nat) as int, step as int, q as int, (r * g) as int);
        assert(2 * (r * g) == (2 * r) * g) by (nonlinear_arith);
        assert(2 * r > w ==> (2 * r) * g > w * g) by (nonlinear_arith)
            requires
                g > 0,
        ;
        assert(2 * r < w ==> (2 * r) * g < w * g) by (nonlinear_arith)
            requires
                g > 0,
        ;
        assert(steps == narrow_steps(code as nat));
        assert(q <= m) by (nonlinear_arith)
            requires
                q == m as int / w as int,
                w > 0,
                m >= 0,
        ;
        lemma_pow2_strictly_increases(53, 126);
        if t >= 29 {
            lemma2_to64();
            if t > 29 {
                lemma_pow2_strictly_increases(29, t as nat);
            }
            assert(w * q == q * w) by (nonlinear_arith);
            assert(q <= 0xff_ffff) by (nonlinear_arith)
                requires
                    q * w <= m,
                    m < 2 * STEPS,
                    w >= 0x2000_0000,
            ;
        }
    }
    let too_large: bool = f > 1178 || (f == 1178 && steps >= 0x100_0000);
    proof {
        let v = steps as nat * step;
        lemma2_to64();
        lemma_pow2_adds(24, 1178);
        if f > 1178 {
            // A step this large only occurs with a significand of full length.
            assert(t == 29);
            assert(q >= 0x80_0000) by (nonlinear_arith)
                requires
                    w == 0x2000_0000,
                    w * q + r >= STEPS,
                    r < w,
            ;
            lemma_pow2_adds(23, f as nat);
            if 23 + f > 1202 {
                lemma_pow2_strictly_increases(1202, (23 + f) as nat);
            }
            assert(v >= pow2(23) * step) by (nonlinear_arith)
                requires
                    v == steps * step,
                    steps >= pow2(23),
            ;
        } else if f == 1178 {
            assert(steps >= 0x100_0000 <==> v >= pow2(24) * step) by (nonlinear_arith)
                requires
                    v == steps * step,
                    pow2(24) == 0x100_0000,
                    step > 0,
            ;
        } else {
            lemma_pow2_adds(24, f as nat);
            lemma_pow2_strictly_increases((24 + f) as nat, 1202);
            assert(v <= pow2(24) * step) by (nonlinear_arith)
                requires
                    v == steps * step,
                    steps <= pow2(24),
            ;
        }
    }
    if too_large {
        return INFINITE;
    }
    proof {
        let c = pow2(headroom());
        lemma_pow2_pos(headroom());
        lemma_pow2_adds(f as nat, headroom());
        assert(steps * (step * c) == (steps * step) * c) by (nonlinear_arith);
        lemma_rounded_scaled((steps * step) as nat, 1, c);
    }
    pack(steps, f)
}

/// Cuts a wide whole number down to 32 bits.
fn saturate(negative: bool, v: u128) -> (r: i32)
    ensures
        r == saturated(
            if negative {
                -(v as int)
            } else {
                v as int
            },
        ),
{
    if negative {
        if v >= 0x8000_0000 {
            i32::MIN
        } else {
            -(v as i32)
        }
    } else if v > 0x7fff_ffff {
        i32::MAX
    } else {
        v as i32
    }
}

/// A quotient does not change with a common factor.
proof fn lemma_common_factor(n: nat, d: nat, g: nat)
    requires
        d > 0,
        g > 0,
    ensures
        (n * g) / (d * g) == n / d,
        (n * g) % (d * g) == (n % d) * g,
{
    let q = n / d;
    let r = n % d;
    lemma_fundamental_div_mod(n as int, d as int);
    assert((d * q + r) * g == q * (d * g) + r * g) by (nonlinear_arith);
    assert(r * g < d * g) by (nonlinear_arith)
        requires
            r < d,
            g > 0,
    ;
    lemma_fundamental_div_mod_converse((n * g) as int, (d * g) as int, q as int, (r * g) as int);
}

impl Binary64 {
    /// The nearest single precision number; applied to the result of an
    /// operation on single precision numbers, the result of that operation in
    /// single precision.
    #[verifier::opaque]
    pub open spec fn spec_narrowed(self) -> Binary64 {
        if self.spec_is_nan() {
            Binary64 { bits: NAN }
        } else if !self.spec_is_finite() {
            self
        } else {
            signed(self.spec_is_negative(), narrow_code(self.code()))
        }
    }

    /// The nearest whole number, away from zero where two are equally near.
    pub open spec fn nearest_whole(self) -> int {
        let i = (2 * units(self.code()) + one_units()) / (2 * one_units());
        if self.spec_is_negative() {
            -(i as int)
        } else {
            i as int
        }
    }

    /// The nearest whole number of 32 bits; zero for what is no number.
    #[verifier::opaque]
    pub open spec fn spec_round_i32(self) -> i32 {
        if self.spec_is_nan() {
            0
        } else {
            saturated(self.nearest_whole()) as i32
        }
    }

    /// The greatest whole number of 32 bits that is not above; zero for what is
    /// no number.
    #[verifier::opaque]
    pub open spec fn spec_floor_i32(self) -> i32 {
        if self.spec_is_nan() {
            0
        } else {
            saturated(self.value() / one_units() as int) as i32
        }
    }

    #[verifier::when_used_as_spec(spec_narrowed)]
    pub fn narrowed(self) -> (r: Self)
        ensures
            r == self.spec_narrowed(),
    {
        reveal(Binary64::spec_narrowed);
        if self.is_nan() {
            return Binary64 { bits: NAN };
        }
        if !self.is_finite() {
            return self;
        }
        let code = narrow(self.bits % SIGN);
        if self.is_negative() {
            Binary64 { bits: code + SIGN }
        } else {
            Binary64 { bits: code }
        }
    }

    /// The nearest whole number of 32 bits; zero for what is no number.
    #[verifier::when_used_as_spec(spec_round_i32)]
    pub fn round_i32(self) -> (r: i32)
        ensures
            r == self.spec_round_i32(),
    {
        reveal(Binary64::spec_round_i32);
        if self.is_nan() {
            return 0;
        }
        let code: u64 = self.bits % SIGN;
        let e = step_exponent(code);
        proof {
            lemma_code_parts(code as nat);
        }
        let m: u64 = code - e as u64 * STEPS;
        let ghost g = pow2(e as nat);
        let ghost one = one_units();
        proof {
            lemma_power_limit();
            lemma_pow2_pos(e as nat);
            lemma_pow2_pos(1074);
        }
        if e >= 1074 {
            proof {
                if e > 1074 {
                    lemma_pow2_strictly_increases(1074, e as nat);
                }
                let v = units(code as nat);
                assert(v >= STEPS * one) by (nonlinear_arith)
                    requires
                        v == m * g,
                        m >= STEPS,
                        g >= one,
                ;
                let i = (2 * v + one) / (2 * one);
                assert(i >= STEPS) by (nonlinear_arith)
                    requires
                        v >= STEPS * one,
                        i == (2 * v + one) / (2 * one),
                        one > 0,
                ;
            }
            return if self.is_negative() { i32::MIN } else { i32::MAX };
        }
        let t: i32 = 1074 - e;
        let ghost wide = pow2(t as nat);
        proof {
            lemma_pow2_adds(t as nat, e as nat);
            lemma_pow2_pos(t as nat);
            assert(2 * (m * g) + wide * g == (2 * m + wide) * g) by (nonlinear_arith);
            assert(2 * (wide * g) == (2 * wide) * g) by (nonlinear_arith);
            lemma_common_factor((2 * m + wide) as nat, 2 * wide, g);
        }
        if t > 54 {
            proof {
                lemma_pow2_strictly_increases(54, t as nat);
                lemma_pow2_unfold(54);
                lemma_fundamental_div_mod_converse((2 * m + wide) as int, (2 * wide) as int, 0, (2 * m + wide) as int);
            }
            return 0;
        }
        let w = power(t as u32);
        proof {
            lemma_pow2_unfold(54);
            if t < 54 {
                lemma_pow2_strictly_increases(t as nat, 54);
            }
        }
        let i: u128 = (2 * m as u128 + w) / (2 * w);
        saturate(self.is_negative(), i)
    }

    /// The largest whole number of 32 bits that is not above; zero for what is
    /// no number.
    #[verifier::when_used_as_spec(spec_floor_i32)]
    pub fn floor_i32(self) -> (r: i32)
        ensures
            r == self.spec_floor_i32(),
    {
        reveal(Binary64::spec_floor_i32);
        if self.is_nan() {
            return 0;
        }
        let code: u64 = self.bits % SIGN;
        let e = step_exponent(code);
        proof {
            lemma_code_parts(code as nat);
        }
        let m: u64 = code - e as u64 * STEPS;
        let ghost g = pow2(e as nat);
        let ghost one = one_units();
        let ghost v = units(code as nat);
        proof {
            lemma_power_limit();
            lemma_pow2_pos(e as nat);
            lemma_pow2_pos(1074);
        }
        if e >= 1074 {
            proof {
                if e > 1074 {
                    lemma_pow2_strictly_increases(1074, e as nat);
                }
                assert(v >= STEPS * one) by (nonlinear_arith)
                    requires
                        v == m * g,
                        m >= STEPS,
                        g >= one,
                ;
                assert(v as int / one as int >= STEPS) by (nonlinear_arith)
                    requires
                        v >= STEPS * one,
                        one > 0,
                ;
                assert((-(v as int)) / one as int <= -(STEPS as int)) by (nonlinear_arith)
                    requires
                        v >= STEPS * one,
                        one > 0,
                ;
            }
            return if self.is_negative() { i32::MIN } else { i32::MAX };
        }
        let t: i32 = 1074 - e;
        let ghost wide = pow2(t as nat);
        proof {
            lemma_pow2_adds(t as nat, e as nat);
            lemma_pow2_pos(t as nat);
            lemma_common_factor(m as nat, wide, g);
        }
        let (q, rest) = if t > 54 {
            proof {
                lemma_pow2_strictly_increases(54, t as nat);
                lemma_pow2_unfold(54);
                lemma_fundamental_div_mod_converse(m as int, wide as int, 0, m as int);
            }
            (0u64, m > 0)
        } else {
            let w = power(t as u32);
            proof {
                assert(m as int / w as int <= m) by (nonlinear_arith)
                    requires
                        w > 0,
                        m >= 0,
                ;
            }
            ((m as u128 / w) as u64, m as u128 % w > 0)
        };
        proof {
            let k = m as nat % wide;
            lemma_fundamental_div_mod(v as int, one as int);
            assert((k == 0 ==> k * g == 0) && (k > 0 ==> k * g > 0)) by (nonlinear_arith)
                requires
                    g > 0,
            ;
            assert(q == v as int / one as int);
            assert(rest <==> k > 0);
            assert(v as int % one as int == k * g);
            if self.is_negative() {
                let up = q + if rest { 1int } else { 0int };
                let back = one * up - v;
                assert(one * up == one * q + if rest { one as int } else { 0int }) by (nonlinear_arith)
                    requires
                        up == q + if rest { 1int } else { 0int },
                ;
                assert(-(v as int) == (-up) * one + back) by (nonlinear_arith)
                    requires
                        back == one * up - v,
                ;
                lemma_fundamental_div_mod_converse(-(v as int), one as int, -up, back);
            }
        }
        if self.is_negative() {
            saturate(true, q as u128 + if rest { 1 } else { 0 })
        } else {
            saturate(false, q as u128)
        }
    }
}

} // verus!
