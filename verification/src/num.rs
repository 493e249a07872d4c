//! Exact numeric comparison.
//!
//! A floating-point number travels through the library as its IEEE 754
//! binary64 bit pattern.  Every finite `f64` denotes a rational number that
//! is an integer multiple of 2^-1074, so this module reasons about the
//! integer `value * 2^1074` ("the scaled value") and performs all
//! comparisons — equality and epsilon closeness — exactly, with integer
//! arithmetic only.

use vstd::prelude::*;
use vstd::arithmetic::power2::pow2;
use vstd::arithmetic::power2::lemma_pow2_adds;
use vstd::arithmetic::power2::lemma_pow2_pos;
use vstd::arithmetic::power2::lemma_pow2_strictly_increases;
use vstd::arithmetic::power2::lemma2_to64;
use vstd::arithmetic::power2::lemma2_to64_rest;
use vstd::arithmetic::mul::lemma_mul_inequality;
use vstd::arithmetic::mul::lemma_mul_is_distributive_add_other_way;
use vstd::arithmetic::div_mod::lemma_fundamental_div_mod;
use vstd::arithmetic::div_mod::lemma_mod_bound;
use crate::config::FloatCompareMode;
use crate::config::NumericMode;
use crate::value::Number;

verus! {

/// 2^52, the weight of the binary64 exponent field.
pub const FRAC_WEIGHT: u64 = 0x10_0000_0000_0000;

/// 2^63, the weight of the binary64 sign bit.
pub const SIGN_WEIGHT: u64 = 0x8000_0000_0000_0000;

/// The sign bit of a binary64 bit pattern.
pub open spec fn f64_sign(bits: u64) -> bool {
    bits / SIGN_WEIGHT == 1
}

/// The biased exponent field of a binary64 bit pattern.
pub open spec fn f64_exp(bits: u64) -> nat {
    (((bits / FRAC_WEIGHT) % 0x800) as nat)
}

/// The fraction field of a binary64 bit pattern.
pub open spec fn f64_frac(bits: u64) -> nat {
    ((bits % FRAC_WEIGHT) as nat)
}

/// Whether the bit pattern denotes a finite number.
pub open spec fn f64_is_finite(bits: u64) -> bool {
    f64_exp(bits) != 0x7ff
}

/// The magnitude of the number the bits denote, scaled by 2^1074: a
/// subnormal (or zero) is `frac * 2^0`, a normal number with biased exponent
/// `e` is `(frac + 2^52) * 2^(e-1)`.
pub open spec fn f64_mag(bits: u64) -> nat {
    if f64_exp(bits) == 0 {
        f64_frac(bits)
    } else {
        ((f64_frac(bits) + FRAC_WEIGHT) * pow2((f64_exp(bits) - 1) as nat)) as nat
    }
}

/// The number a finite binary64 bit pattern denotes, scaled by 2^1074.
pub open spec fn f64_val(bits: u64) -> int {
    if f64_sign(bits) {
        -(f64_mag(bits) as int)
    } else {
        f64_mag(bits) as int
    }
}

/// The number of low-order bits an integer loses when rounded to a 53-bit
/// significand: the smallest `s` with `n < 2^(53+s)`.
pub open spec fn ulp53(n: nat) -> nat
    decreases n,
{
    if n < 0x20_0000_0000_0000 {
        0
    } else {
        1 + ulp53(n / 2)
    }
}

/// An integer rounded to 53 significant bits — to nearest, ties to even —
/// which is what conversion of an integer to `f64` does.
pub open spec fn round53(n: nat) -> nat {
    let p = pow2(ulp53(n));
    let q = n / p;
    let r = n % p;
    if 2 * r < p || (2 * r == p && q % 2 == 0) {
        q * p
    } else {
        (q + 1) * p
    }
}

/// The scaled value a number takes after conversion to `f64` (rounding to
/// nearest, ties to even; an integer below 2^53 converts exactly).
pub open spec fn number_float_val(n: Number) -> int {
    match n {
        Number::PosInt(u) => round53(u as nat) * pow2(1074) as int,
        Number::NegInt(i) => if i >= 0 {
            round53(i as nat) * pow2(1074) as int
        } else {
            -((round53((-(i as int)) as nat) * pow2(1074)) as int)
        },
        Number::Float(bits) => f64_val(bits),
    }
}

/// The absolute value.
pub open spec fn abs_int(x: int) -> int {
    if x < 0 {
        -x
    } else {
        x
    }
}

/// Whether a non-negative difference `d` (scaled by 2^1074) is within the
/// epsilon threshold whose `f64` bit pattern is `eps_bits`.  Positive
/// infinity admits every difference; a NaN or a negative threshold admits
/// none (for a strictly negative threshold, because `d <= eps` then fails;
/// a negative zero admits exactly `d == 0`).
pub open spec fn eps_admits(d: int, eps_bits: u64) -> bool {
    if !f64_is_finite(eps_bits) {
        f64_frac(eps_bits) == 0 && !f64_sign(eps_bits)
    } else {
        d <= f64_val(eps_bits)
    }
}

/// Whether two scaled float values are equivalent under a float comparison
/// mode: exactly equal, or within the epsilon threshold.
pub open spec fn float_equiv(x: int, y: int, fm: FloatCompareMode) -> bool {
    match fm {
        FloatCompareMode::Exact => x == y,
        FloatCompareMode::Epsilon(bits) => eps_admits(abs_int(x - y), bits),
    }
}

/// Whether two numbers are equivalent under the numeric and float comparison
/// modes.  Under strict numeric comparison the kinds must match: integers
/// compare exactly and floats by value under the float mode.  Under
/// assume-float both numbers are first converted to `f64`.
pub open spec fn number_equiv(a: Number, b: Number, nm: NumericMode, fm: FloatCompareMode) -> bool {
    match nm {
        NumericMode::Strict => match (a, b) {
            (Number::PosInt(x), Number::PosInt(y)) => x == y,
            (Number::NegInt(x), Number::NegInt(y)) => x == y,
            (Number::Float(x), Number::Float(y)) => float_equiv(f64_val(x), f64_val(y), fm),
            _ => false,
        },
        NumericMode::AssumeFloat => float_equiv(number_float_val(a), number_float_val(b), fm),
    }
}

/// `p * d <= q` exactly when `p <= q / d`, for a positive divisor.
proof fn lemma_mul_le_div(p: int, d: int, q: int)
    requires
        d > 0,
        p >= 0,
        q >= 0,
    ensures
        (p * d <= q) <==> (p <= q / d),
{
    lemma_fundamental_div_mod(q, d);
    lemma_mod_bound(q, d);
    let f = q / d;
    let r = q % d;
    assert((p * d <= d * f + r) <==> (p <= f)) by (nonlinear_arith)
        requires
            d > 0,
            p >= 0,
            f >= 0,
            0 <= r < d,
    ;
}

/// `p <= q * d` exactly when the quotient of `p` by `d` falls below `q`, or
/// equals it with no remainder.
proof fn lemma_le_mul_div(p: int, d: int, q: int)
    requires
        d > 0,
        p >= 0,
        q >= 0,
    ensures
        (p <= q * d) <==> (p / d < q || (p / d == q && p % d == 0)),
{
    lemma_fundamental_div_mod(p, d);
    lemma_mod_bound(p, d);
    let f = p / d;
    let r = p % d;
    assert((d * f + r <= q * d) <==> (f < q || (f == q && r == 0))) by (nonlinear_arith)
        requires
            d > 0,
            q >= 0,
            f >= 0,
            0 <= r < d,
    ;
}

/// 2^s as a `u128`.
fn pow2_u128(s: u32) -> (r: u128)
    requires
        s <= 127,
    ensures
        r == pow2(s as nat),
        r >= 1,
{
    proof {
        lemma_pow2_pos(s as nat);
    }
    let mut r: u128 = 1;
    let mut i: u32 = 0;
    assert(r == pow2(0)) by {
        lemma2_to64();
            lemma2_to64_rest();
    }
    while i < s
        invariant
            i <= s,
            s <= 127,
            r == pow2(i as nat),
        decreases s - i,
    {
        proof {
            lemma_pow2_adds(i as nat, 1);
            lemma2_to64();
            lemma2_to64_rest();
            lemma_pow2_strictly_increases((i + 1) as nat, 128);
            lemma_pow2_adds(64, 64);
            assert(pow2(128) == 0x1_0000_0000_0000_0000 * 0x1_0000_0000_0000_0000nat);
        }
        r = r * 2;
        i = i + 1;
    }
    proof {
        lemma_pow2_pos(s as nat);
    }
    r
}

/// Decides `p * 2^s <= q` exactly.
fn le_shl(p: u128, s: u32, q: u128) -> (r: bool)
    ensures
        r == (p * pow2(s as nat) <= q),
{
    if p == 0 {
        proof {
            lemma_pow2_pos(s as nat);
        }
        true
    } else if s >= 128 {
        proof {
            if s > 128 {
                lemma_pow2_strictly_increases(128, s as nat);
            }
            lemma_pow2_adds(64, 64);
            lemma2_to64();
            lemma2_to64_rest();
            assert(pow2(128) == 0x1_0000_0000_0000_0000 * 0x1_0000_0000_0000_0000nat);
            lemma_mul_inequality(1, p as int, pow2(s as nat) as int);
        }
        false
    } else {
        let d = pow2_u128(s);
        proof {
            lemma_mul_le_div(p as int, d as int, q as int);
        }
        p <= q / d
    }
}

/// Decides `p <= q * 2^s` exactly.
fn le_shr(p: u128, q: u128, s: u32) -> (r: bool)
    ensures
        r == (p <= q * pow2(s as nat)),
{
    if q == 0 {
        p == 0
    } else if s >= 128 {
        proof {
            if s > 128 {
                lemma_pow2_strictly_increases(128, s as nat);
            }
            lemma_pow2_adds(64, 64);
            lemma2_to64();
            lemma2_to64_rest();
            assert(pow2(128) == 0x1_0000_0000_0000_0000 * 0x1_0000_0000_0000_0000nat);
            lemma_mul_inequality(1, q as int, pow2(s as nat) as int);
        }
        true
    } else {
        let d = pow2_u128(s);
        proof {
            lemma_le_mul_div(p as int, d as int, q as int);
        }
        p / d < q || (p / d == q && p % d == 0)
    }
}

/// Decides `p * 2^u <= q * 2^v` exactly.
fn le2(p: u128, u: u32, q: u128, v: u32) -> (r: bool)
    requires
        u <= 4096,
        v <= 4096,
    ensures
        r == (p * pow2(u as nat) <= q * pow2(v as nat)),
{
    if u >= v {
        let r = le_shl(p, u - v, q);
        proof {
            lemma_pow2_adds((u - v) as nat, v as nat);
            lemma_pow2_pos(v as nat);
            lemma_shift_cancel(p as int, q as int, (u - v) as nat, v as nat);
        }
        r
    } else {
        let r = le_shr(p, q, v - u);
        proof {
            lemma_pow2_adds((v - u) as nat, u as nat);
            lemma_pow2_pos(u as nat);
            lemma_shift_cancel_r(p as int, q as int, (v - u) as nat, u as nat);
        }
        r
    }
}

/// Multiplying both sides of a comparison by a positive power of two
/// preserves it: `p * 2^(s+t) <= q * 2^t` exactly when `p * 2^s <= q`.
proof fn lemma_shift_cancel(p: int, q: int, s: nat, t: nat)
    requires
        p >= 0,
        q >= 0,
    ensures
        (p * pow2((s + t) as nat) <= q * pow2(t)) <==> (p * pow2(s) <= q),
{
    lemma_pow2_adds(s, t);
    lemma_pow2_pos(s);
    lemma_pow2_pos(t);
    assert(p * (pow2(s) * pow2(t)) == (p * pow2(s)) * pow2(t)) by {
        vstd::arithmetic::mul::lemma_mul_is_associative(p, pow2(s) as int, pow2(t) as int);
    }
    lemma_mul_le_cancel(p * pow2(s), q, pow2(t) as int);
}

/// `p <= q * 2^(s+t)` scaled down by `2^t`: equivalent to `p <= q * 2^s`
/// after multiplying `p` by `2^t`... stated directly on the shifted forms.
proof fn lemma_shift_cancel_r(p: int, q: int, s: nat, t: nat)
    requires
        p >= 0,
        q >= 0,
    ensures
        (p * pow2(t) <= q * pow2((s + t) as nat)) <==> (p <= q * pow2(s)),
{
    lemma_pow2_adds(s, t);
    lemma_pow2_pos(s);
    lemma_pow2_pos(t);
    assert(q * (pow2(s) * pow2(t)) == (q * pow2(s)) * pow2(t)) by {
        vstd::arithmetic::mul::lemma_mul_is_associative(q, pow2(s) as int, pow2(t) as int);
    }
    lemma_mul_le_cancel(p, q * pow2(s), pow2(t) as int);
}

/// Cancelling a positive common factor preserves a comparison.
proof fn lemma_mul_le_cancel(a: int, b: int, c: int)
    requires
        c > 0,
    ensures
        (a * c <= b * c) <==> (a <= b),
{
    if a <= b {
        lemma_mul_inequality(a, b, c);
    }
    if b < a {
        lemma_mul_inequality(b + 1, a, c);
        lemma_mul_is_distributive_add_other_way(c, b, 1);
    }
}

/// Powers of two are monotone.
proof fn lemma_pow2_le(a: nat, b: nat)
    requires
        a <= b,
    ensures
        pow2(a) <= pow2(b),
{
    if a < b {
        lemma_pow2_strictly_increases(a, b);
    }
}

/// A term with a positive mantissa is at least its power of two.
proof fn lemma_term_lower(m: int, e: nat)
    requires
        m >= 1,
    ensures
        m * pow2(e) >= pow2(e),
        m * pow2(e) >= 1,
{
    lemma_pow2_pos(e);
    lemma_mul_inequality(1, m, pow2(e) as int);
}

/// A term whose mantissa fits 54 bits stays below `2^(54+e)`.
proof fn lemma_term_upper(m: int, e: nat)
    requires
        0 <= m < pow2(54),
    ensures
        0 <= m * pow2(e),
        m * pow2(e) < pow2((54 + e) as nat),
{
    lemma_pow2_pos(e);
    vstd::arithmetic::mul::lemma_mul_nonnegative(m, pow2(e) as int);
    lemma_mul_inequality(m, pow2(54) - 1, pow2(e) as int);
    vstd::arithmetic::mul::lemma_mul_is_distributive_sub_other_way(
        pow2(e) as int,
        pow2(54) as int,
        1,
    );
    lemma_pow2_adds(54, e);
}

/// Scaling a term back up to a common exponent: for `k <= e`,
/// `(m * 2^(e-k)) * 2^k == m * 2^e`.
proof fn lemma_split(m: int, e: nat, k: nat)
    requires
        k <= e,
    ensures
        (m * pow2((e - k) as nat)) * pow2(k) == m * pow2(e),
{
    lemma_pow2_adds((e - k) as nat, k);
    vstd::arithmetic::mul::lemma_mul_is_associative(
        m,
        pow2((e - k) as nat) as int,
        pow2(k) as int,
    );
}

/// A mantissa below `2^54` shifted by at most 55 bits fits easily in `u128`.
proof fn lemma_prod_fits(m: int, sh: nat)
    requires
        0 <= m < pow2(54),
        sh <= 55,
    ensures
        0 <= m * pow2(sh),
        m * pow2(sh) < pow2(109),
        pow2(109) < 0x1_0000_0000_0000_0000_0000_0000_0000_0000,
{
    lemma_term_upper(m, sh);
    lemma_pow2_le((54 + sh) as nat, 109);
    lemma_pow2_strictly_increases(109, 128);
    lemma_pow2_adds(64, 64);
    lemma2_to64();
            lemma2_to64_rest();
    assert(pow2(128) == 0x1_0000_0000_0000_0000 * 0x1_0000_0000_0000_0000nat);
}

/// Decides `m1 * 2^e1 <= m2 * 2^e2 + m3 * 2^e3` exactly.
fn le_add(m1: u64, e1: u32, m2: u64, e2: u32, m3: u64, e3: u32) -> (r: bool)
    requires
        m1 < pow2(54),
        m2 < pow2(54),
        m3 < pow2(54),
        e1 <= 4000,
        e2 <= 4000,
        e3 <= 4000,
    ensures
        r == (m1 * pow2(e1 as nat) <= m2 * pow2(e2 as nat) + m3 * pow2(e3 as nat)),
{
    proof {
        lemma_term_upper(m1 as int, e1 as nat);
        lemma_term_upper(m2 as int, e2 as nat);
        lemma_term_upper(m3 as int, e3 as nat);
    }
    if m1 == 0 {
        true
    } else if m2 == 0 {
        le2(m1 as u128, e1, m3 as u128, e3)
    } else if m3 == 0 {
        le2(m1 as u128, e1, m2 as u128, e2)
    } else {
        let swap = e2 < e3;
        let n2 = if swap { m3 } else { m2 };
        let f2 = if swap { e3 } else { e2 };
        let n3 = if swap { m2 } else { m3 };
        let f3 = if swap { e2 } else { e3 };
        if f2 >= e1 + 56 {
            proof {
                lemma_term_lower(n2 as int, f2 as nat);
                lemma_pow2_le((54 + e1) as nat, f2 as nat);
            }
            true
        } else if e1 >= f2 + 56 {
            proof {
                lemma_term_lower(m1 as int, e1 as nat);
                lemma_pow2_le((54 + f2) as nat, (e1 - 2) as nat);
                lemma_pow2_le((54 + f3) as nat, (e1 - 2) as nat);
                lemma_pow2_adds((e1 - 2) as nat, 1);
                lemma_pow2_adds((e1 - 1) as nat, 1);
                lemma2_to64();
            lemma2_to64_rest();
                lemma_pow2_le((e1 - 1) as nat, e1 as nat);
            }
            false
        } else {
            let k = if e1 <= f2 { e1 } else { f2 };
            proof {
                lemma_prod_fits(m1 as int, (e1 - k) as nat);
                lemma_prod_fits(n2 as int, (f2 - k) as nat);
            }
            let a = (m1 as u128) * pow2_u128(e1 - k);
            let b = (n2 as u128) * pow2_u128(f2 - k);
            proof {
                lemma_split(m1 as int, e1 as nat, k as nat);
                lemma_split(n2 as int, f2 as nat, k as nat);
                lemma_pow2_pos(k as nat);
            }
            if a <= b {
                proof {
                    lemma_mul_inequality(a as int, b as int, pow2(k as nat) as int);
                }
                true
            } else {
                let r = le2(a - b, k, n3 as u128, f3);
                proof {
                    vstd::arithmetic::mul::lemma_mul_is_distributive_sub_other_way(
                        pow2(k as nat) as int,
                        a as int,
                        b as int,
                    );
                }
                r
            }
        }
    }
}

/// Decides `m1 * 2^e1 + m2 * 2^e2 <= m3 * 2^e3` exactly.
fn add_le(m1: u64, e1: u32, m2: u64, e2: u32, m3: u64, e3: u32) -> (r: bool)
    requires
        m1 < pow2(54),
        m2 < pow2(54),
        m3 < pow2(54),
        e1 <= 4000,
        e2 <= 4000,
        e3 <= 4000,
    ensures
        r == (m1 * pow2(e1 as nat) + m2 * pow2(e2 as nat) <= m3 * pow2(e3 as nat)),
{
    proof {
        lemma_term_upper(m1 as int, e1 as nat);
        lemma_term_upper(m2 as int, e2 as nat);
        lemma_term_upper(m3 as int, e3 as nat);
    }
    if m1 == 0 {
        le2(m2 as u128, e2, m3 as u128, e3)
    } else if m2 == 0 {
        le2(m1 as u128, e1, m3 as u128, e3)
    } else if m3 == 0 {
        proof {
            lemma_term_lower(m1 as int, e1 as nat);
            lemma_term_lower(m2 as int, e2 as nat);
        }
        false
    } else {
        let swap = e1 < e2;
        let n1 = if swap { m2 } else { m1 };
        let f1 = if swap { e2 } else { e1 };
        let n2 = if swap { m1 } else { m2 };
        let f2 = if swap { e1 } else { e2 };
        if e3 >= f1 + 56 {
            proof {
                lemma_term_lower(m3 as int, e3 as nat);
                lemma_pow2_le((54 + f1) as nat, (e3 - 2) as nat);
                lemma_pow2_le((54 + f2) as nat, (e3 - 2) as nat);
                lemma_pow2_adds((e3 - 2) as nat, 1);
                lemma_pow2_adds((e3 - 1) as nat, 1);
                lemma2_to64();
            lemma2_to64_rest();
                lemma_pow2_le((e3 - 1) as nat, e3 as nat);
            }
            true
        } else if f1 >= e3 + 55 {
            proof {
                lemma_term_lower(n1 as int, f1 as nat);
                lemma_term_lower(n2 as int, f2 as nat);
                lemma_pow2_le((54 + e3) as nat, (f1 - 1) as nat);
                lemma_pow2_le((f1 - 1) as nat, f1 as nat);
            }
            false
        } else {
            let k = if f1 <= e3 { f1 } else { e3 };
            proof {
                lemma_prod_fits(n1 as int, (f1 - k) as nat);
                lemma_prod_fits(m3 as int, (e3 - k) as nat);
            }
            let a = (n1 as u128) * pow2_u128(f1 - k);
            let c = (m3 as u128) * pow2_u128(e3 - k);
            proof {
                lemma_split(n1 as int, f1 as nat, k as nat);
                lemma_split(m3 as int, e3 as nat, k as nat);
                lemma_pow2_pos(k as nat);
            }
            if c <= a {
                proof {
                    lemma_mul_inequality(c as int, a as int, pow2(k as nat) as int);
                    lemma_term_lower(n2 as int, f2 as nat);
                }
                false
            } else {
                let r = le2(n2 as u128, f2, c - a, k);
                proof {
                    vstd::arithmetic::mul::lemma_mul_is_distributive_sub_other_way(
                        pow2(k as nat) as int,
                        c as int,
                        a as int,
                    );
                }
                r
            }
        }
    }
}

/// A sign-magnitude exact binary number `(-1)^neg * m * 2^e`, with the
/// exponent already scaled so that the denoted (scaled) value is an integer.
struct Fnum {
    neg: bool,
    m: u64,
    e: u32,
}

/// The integer a `Fnum` denotes.
spec fn fnum_val(f: Fnum) -> int {
    if f.neg {
        -((f.m * pow2(f.e as nat)) as int)
    } else {
        (f.m * pow2(f.e as nat)) as int
    }
}

/// The bounds every `Fnum` built in this module satisfies.
spec fn fnum_wf(f: Fnum) -> bool {
    &&& f.m < pow2(54)
    &&& f.e <= 4000
    &&& (f.m == 0 ==> !f.neg)
}

/// Split a finite `f64` bit pattern into an exact sign-magnitude number,
/// `fnum_val(f) == f64_val(bits)`.
fn decode(bits: u64) -> (f: Fnum)
    ensures
        fnum_wf(f),
        fnum_val(f) == f64_val(bits),
        f.m < pow2(53),
        f.e <= 2046,
{
    let sign = bits / SIGN_WEIGHT == 1;
    let exp = (bits / FRAC_WEIGHT) % 0x800;
    let frac = bits % FRAC_WEIGHT;
    proof {
        lemma2_to64();
            lemma2_to64_rest();
    }
    let f = if exp == 0 {
        Fnum { neg: sign && frac != 0, m: frac, e: 0 }
    } else {
        Fnum { neg: sign, m: frac + FRAC_WEIGHT, e: (exp as u32) - 1 }
    };
    proof {
        lemma_pow2_le(53, 54);
        if f.e == 0 {
            assert(pow2(0) == 1) by {
                lemma2_to64();
            lemma2_to64_rest();
            }
        }
    }
    f
}

/// Round an integer to a 53-bit significand (to nearest, ties to even) and
/// return it as an exact scaled number: `fnum_val(f) == round53(n) * 2^1074`.
fn round53_fnum(n: u64) -> (f: Fnum)
    ensures
        fnum_wf(f),
        !f.neg,
        fnum_val(f) == round53(n as nat) * pow2(1074),
        n > 0 ==> f.m > 0,
        1074 <= f.e <= 1085,
{
    let mut s: u32 = 0;
    let mut p: u64 = 1;
    proof {
        lemma2_to64();
            lemma2_to64_rest();
    }
    while (n / p) >= 0x20_0000_0000_0000u64
        invariant
            s <= 11,
            p >= 1,
            p == pow2(s as nat),
            s == 0 || n >= pow2((52 + s) as nat),
        decreases 12 - s,
    {
        proof {
            lemma_mul_le_div(0x20_0000_0000_0000, p as int, n as int);
            assert(0x20_0000_0000_0000 * pow2(s as nat) == pow2((53 + s) as nat)) by {
                lemma2_to64();
            lemma2_to64_rest();
                lemma_pow2_adds(53, s as nat);
            }
            lemma_pow2_le((52 + s + 1) as nat, (53 + s) as nat);
            assert(53 + s < 64) by {
                if 53 + s >= 64 {
                    lemma_pow2_le(64, (53 + s) as nat);
                    lemma_pow2_adds(64, 64);
                    lemma2_to64();
            lemma2_to64_rest();
                }
            }
            lemma_pow2_adds(s as nat, 1);
            lemma2_to64();
            lemma2_to64_rest();
            lemma_pow2_le((s + 1) as nat, 12);
        }
        p = p * 2;
        s = s + 1;
    }
    proof {
        assert(!(0x20_0000_0000_0000 * pow2(s as nat) <= n)) by {
            lemma_mul_le_div(0x20_0000_0000_0000, p as int, n as int);
        }
        assert(0x20_0000_0000_0000 * pow2(s as nat) == pow2((53 + s) as nat)) by {
            lemma2_to64();
            lemma2_to64_rest();
            lemma_pow2_adds(53, s as nat);
        }
        lemma_ulp53_char(n as nat, s as nat);
        lemma_pow2_pos(s as nat);
    }
    let q = n / p;
    let r = n % p;
    let round_up = !(2 * r < p || (2 * r == p && q % 2 == 0));
    proof {
        lemma_mod_bound(n as int, p as int);
        lemma_mul_le_div(q as int + 1, p as int, n as int);
        lemma_fundamental_div_mod(n as int, p as int);
        assert(q < 0x20_0000_0000_0000);
        lemma2_to64();
            lemma2_to64_rest();
        lemma_pow2_le(53, 54);
    }
    proof {
        if n > 0 {
            lemma_mul_le_div(1, p as int, n as int);
        }
    }
    let m = if round_up {
        q + 1
    } else {
        q
    };
    let f = Fnum { neg: false, m, e: 1074 + s };
    proof {
        lemma_split_round(m as int, s as nat);
    }
    f
}

/// `m * 2^(1074+s) == (m * 2^s) * 2^1074`.
proof fn lemma_split_round(m: int, s: nat)
    ensures
        m * pow2((1074 + s) as nat) == (m * pow2(s)) * pow2(1074),
{
    lemma_pow2_adds(s, 1074);
    vstd::arithmetic::mul::lemma_mul_is_associative(m, pow2(s) as int, pow2(1074) as int);
}

/// `ulp53` is characterized by the bracketing powers of two.
proof fn lemma_ulp53_char(n: nat, s: nat)
    requires
        n < pow2((53 + s) as nat),
        s == 0 || n >= pow2((52 + s) as nat),
    ensures
        ulp53(n) == s,
    decreases s,
{
    lemma2_to64();
            lemma2_to64_rest();
    if s == 0 {
        assert(n < 0x20_0000_0000_0000);
    } else {
        lemma_pow2_le(53, (52 + s) as nat);
        assert(n >= 0x20_0000_0000_0000);
        lemma_pow2_adds((52 + s) as nat, 1);
        lemma_pow2_adds((51 + s) as nat, 1);
        assert(n / 2 < pow2((52 + s) as nat)) by {
            lemma_mul_le_div(pow2((52 + s) as nat) as int, 2, n as int);
        }
        if s >= 2 {
            assert(n / 2 >= pow2((51 + s) as nat)) by {
                lemma_mul_le_div(pow2((51 + s) as nat) as int, 2, n as int);
            }
        }
        lemma_ulp53_char(n / 2, (s - 1) as nat);
    }
}

/// Convert a number to an exact scaled sign-magnitude form whose value is
/// `number_float_val`: integers are rounded to 53 significant bits, floats
/// are decoded exactly.
fn to_fnum(n: &Number) -> (f: Fnum)
    ensures
        fnum_wf(f),
        fnum_val(f) == number_float_val(*n),
{
    match n {
        Number::PosInt(u) => {
            let f = round53_fnum(*u);
            assert(number_float_val(*n) == round53((*u) as nat) * pow2(1074));
            f
        },
        Number::NegInt(i) => {
            let v: i64 = *i;
            if v >= 0 {
                let f = round53_fnum(v as u64);
                assert(v as u64 == v as nat);
                assert(number_float_val(*n) == round53(v as nat) * pow2(1074));
                f
            } else {
                let mag = (-(v as i128)) as u64;
                assert(mag == -(v as int));
                let f0 = round53_fnum(mag);
                let f = Fnum { neg: true, m: f0.m, e: f0.e };
                assert(f.m * pow2(f.e as nat) == round53(mag as nat) * pow2(1074));
                assert(number_float_val(*n) == -((round53(mag as nat) * pow2(1074)) as int));
                assert(fnum_val(f) == number_float_val(*n));
                f
            }
        },
        Number::Float(bits) => decode(*bits),
    }
}

/// Decides whether two exact scaled numbers are equal.
fn fnum_eq(x: &Fnum, y: &Fnum) -> (r: bool)
    requires
        fnum_wf(*x),
        fnum_wf(*y),
    ensures
        r == (fnum_val(*x) == fnum_val(*y)),
{
    if x.m == 0 && y.m == 0 {
        proof {
            vstd::arithmetic::mul::lemma_mul_by_zero_is_zero(pow2(x.e as nat) as int);
            vstd::arithmetic::mul::lemma_mul_by_zero_is_zero(pow2(y.e as nat) as int);
        }
        true
    } else if x.m == 0 || y.m == 0 {
        proof {
            vstd::arithmetic::mul::lemma_mul_by_zero_is_zero(pow2(x.e as nat) as int);
            vstd::arithmetic::mul::lemma_mul_by_zero_is_zero(pow2(y.e as nat) as int);
            if x.m != 0 {
                lemma_term_lower(x.m as int, x.e as nat);
            }
            if y.m != 0 {
                lemma_term_lower(y.m as int, y.e as nat);
            }
        }
        false
    } else {
        proof {
            lemma_term_lower(x.m as int, x.e as nat);
            lemma_term_lower(y.m as int, y.e as nat);
        }
        if x.neg != y.neg {
            assert(fnum_val(*x) != fnum_val(*y));
            false
        } else {
            let r1 = le2(x.m as u128, x.e, y.m as u128, y.e);
            let r2 = le2(y.m as u128, y.e, x.m as u128, x.e);
            assert(r1 == (x.m * pow2(x.e as nat) <= y.m * pow2(y.e as nat)));
            assert((r1 && r2) == (fnum_val(*x) == fnum_val(*y)));
            r1 && r2
        }
    }
}

/// Decides whether two exact scaled numbers differ by at most
/// `me * 2^ee`.
fn fnum_le_eps(x: &Fnum, y: &Fnum, me: u64, ee: u32) -> (r: bool)
    requires
        fnum_wf(*x),
        fnum_wf(*y),
        me < pow2(54),
        ee <= 4000,
    ensures
        r == (abs_int(fnum_val(*x) - fnum_val(*y)) <= me * pow2(ee as nat)),
{
    if x.neg == y.neg {
        let r1 = le_add(x.m, x.e, y.m, y.e, me, ee);
        let r2 = le_add(y.m, y.e, x.m, x.e, me, ee);
        r1 && r2
    } else {
        proof {
            if x.neg {
                lemma_term_lower(x.m as int, x.e as nat);
            } else {
                lemma_term_lower(y.m as int, y.e as nat);
            }
        }
        add_le(x.m, x.e, y.m, y.e, me, ee)
    }
}

/// Decides `float_equiv` on two exact scaled numbers; the epsilon threshold
/// arrives as an `f64` bit pattern and is decoded exactly, with positive
/// infinity admitting everything and a NaN or strictly negative threshold
/// admitting nothing.
fn float_equiv_exec(x: &Fnum, y: &Fnum, fm: FloatCompareMode) -> (r: bool)
    requires
        fnum_wf(*x),
        fnum_wf(*y),
    ensures
        r == float_equiv(fnum_val(*x), fnum_val(*y), fm),
{
    match fm {
        FloatCompareMode::Exact => fnum_eq(x, y),
        FloatCompareMode::Epsilon(bits) => {
            let exp = (bits / FRAC_WEIGHT) % 0x800;
            if exp == 0x7ff {
                bits % FRAC_WEIGHT == 0 && bits / SIGN_WEIGHT == 0
            } else {
                let e = decode(bits);
                proof {
                    lemma_pow2_le(53, 54);
                }
                if e.neg {
                    proof {
                        lemma_term_lower(e.m as int, e.e as nat);
                    }
                    false
                } else {
                    fnum_le_eps(x, y, e.m, e.e)
                }
            }
        },
    }
}

/// Decides [`number_equiv`]: the numeric heart of the comparison engine.
pub(crate) fn number_equiv_exec(a: &Number, b: &Number, nm: NumericMode, fm: FloatCompareMode) -> (r:
    bool)
    ensures
        r == number_equiv(*a, *b, nm, fm),
{
    match nm {
        NumericMode::Strict => match (a, b) {
            (Number::PosInt(x), Number::PosInt(y)) => *x == *y,
            (Number::NegInt(x), Number::NegInt(y)) => *x == *y,
            (Number::Float(x), Number::Float(y)) => {
                let fx = decode(*x);
                let fy = decode(*y);
                float_equiv_exec(&fx, &fy, fm)
            },
            _ => false,
        },
        NumericMode::AssumeFloat => {
            let fx = to_fnum(a);
            let fy = to_fnum(b);
            float_equiv_exec(&fx, &fy, fm)
        },
    }
}

} // verus!
