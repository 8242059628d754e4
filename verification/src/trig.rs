//! Fixed-point transcendental helpers for filter design.
//!
//! The RBJ biquad formulas need `sin`, `cos` and a decibel-to-linear
//! conversion (a power of two). All three are computed here on Q2.30
//! values with truncated power series, evaluated in Horner form with the
//! exact saturating operations of [`crate::fixed`]. Each executable
//! function's contract states the computed value exactly, as the same
//! composition of those operations; the doc comments note which real
//! function is approximated and on which domain the series is accurate.

use vstd::prelude::*;
use vstd::arithmetic::power2::{
    pow2, lemma2_to64, lemma2_to64_rest, lemma_pow2_unfold, lemma_pow2_strictly_increases,
};
use vstd::arithmetic::div_mod::{lemma_div_is_ordered, lemma_fundamental_div_mod, lemma_mod_bound};

use crate::fixed::{
    COEFF_ONE, sat_i64, floor_div, q30_mul, q30_sub, q30_add, q30_divi,
    mul_q30, sub_q30, add_q30, divi_q30, div_floor_i128, sat_to_i64, lemma_mul_bound,
};

verus! {

/// ln 2 in Q2.30.
pub const LN2_Q30: i64 = 744261117;

/// log2(10) in Q2.30.
pub const LOG2_10_Q30: i64 = 3566893131;

/// 2*pi in Q2.30.
pub const TWO_PI_Q30: i64 = 6746518852;

/// The value computed by [`sin_q30`]: the degree-15 Taylor polynomial of
/// sine in Horner form over the exact Q2.30 operations.
pub open spec fn sin_poly(x: int) -> int {
    let one = COEFF_ONE as int;
    let u = q30_mul(x, x);
    let t7 = q30_sub(one, q30_divi(u, 210));
    let t6 = q30_sub(one, q30_divi(q30_mul(u, t7), 156));
    let t5 = q30_sub(one, q30_divi(q30_mul(u, t6), 110));
    let t4 = q30_sub(one, q30_divi(q30_mul(u, t5), 72));
    let t3 = q30_sub(one, q30_divi(q30_mul(u, t4), 42));
    let t2 = q30_sub(one, q30_divi(q30_mul(u, t3), 20));
    let t1 = q30_sub(one, q30_divi(q30_mul(u, t2), 6));
    q30_mul(x, t1)
}

/// The value computed by [`cos_q30`]: the degree-14 Taylor polynomial of
/// cosine in Horner form over the exact Q2.30 operations.
pub open spec fn cos_poly(x: int) -> int {
    let one = COEFF_ONE as int;
    let u = q30_mul(x, x);
    let c7 = q30_sub(one, q30_divi(u, 182));
    let c6 = q30_sub(one, q30_divi(q30_mul(u, c7), 132));
    let c5 = q30_sub(one, q30_divi(q30_mul(u, c6), 90));
    let c4 = q30_sub(one, q30_divi(q30_mul(u, c5), 56));
    let c3 = q30_sub(one, q30_divi(q30_mul(u, c4), 30));
    let c2 = q30_sub(one, q30_divi(q30_mul(u, c3), 12));
    q30_sub(one, q30_divi(q30_mul(u, c2), 2))
}

/// The value computed by the exponential series inside [`pow2_q30`]: the
/// degree-12 Taylor polynomial of `exp` in Horner form.
pub open spec fn exp_poly(v: int) -> int {
    let one = COEFF_ONE as int;
    let p12 = q30_add(one, q30_divi(v, 12));
    let p11 = q30_add(one, q30_divi(q30_mul(v, p12), 11));
    let p10 = q30_add(one, q30_divi(q30_mul(v, p11), 10));
    let p9 = q30_add(one, q30_divi(q30_mul(v, p10), 9));
    let p8 = q30_add(one, q30_divi(q30_mul(v, p9), 8));
    let p7 = q30_add(one, q30_divi(q30_mul(v, p8), 7));
    let p6 = q30_add(one, q30_divi(q30_mul(v, p7), 6));
    let p5 = q30_add(one, q30_divi(q30_mul(v, p6), 5));
    let p4 = q30_add(one, q30_divi(q30_mul(v, p5), 4));
    let p3 = q30_add(one, q30_divi(q30_mul(v, p4), 3));
    let p2 = q30_add(one, q30_divi(q30_mul(v, p3), 2));
    q30_add(one, q30_mul(v, p2))
}

/// The value computed by [`pow2_q30`]: split the exponent into integer and
/// fractional parts, take `exp` of the fractional part times ln 2, and
/// scale by the integer power of two (saturating).
pub open spec fn pow2_spec(t: int) -> int {
    let one = COEFF_ONE as int;
    let k = floor_div(t, one);
    let f = t - k * one;
    let e = exp_poly(q30_mul(f, LN2_Q30 as int));
    if k >= 0 {
        sat_i64(e * pow2(k as nat))
    } else {
        sat_i64(floor_div(e, pow2((-k) as nat) as int))
    }
}

/// Approximates `sin x` for `x` in Q2.30 radians; the series is accurate
/// to well under 1e-5 on `[0, pi]`, the range of biquad centre
/// frequencies up to Nyquist.
pub fn sin_q30(x: i64) -> (r: i64)
    ensures
        r == sin_poly(x as int),
{
    let one = COEFF_ONE;
    let u = mul_q30(x, x);
    let t7 = sub_q30(one, divi_q30(u, 210));
    let t6 = sub_q30(one, divi_q30(mul_q30(u, t7), 156));
    let t5 = sub_q30(one, divi_q30(mul_q30(u, t6), 110));
    let t4 = sub_q30(one, divi_q30(mul_q30(u, t5), 72));
    let t3 = sub_q30(one, divi_q30(mul_q30(u, t4), 42));
    let t2 = sub_q30(one, divi_q30(mul_q30(u, t3), 20));
    let t1 = sub_q30(one, divi_q30(mul_q30(u, t2), 6));
    mul_q30(x, t1)
}

/// Approximates `cos x` for `x` in Q2.30 radians; accurate to well under
/// 1e-5 on `[0, pi]`.
pub fn cos_q30(x: i64) -> (r: i64)
    ensures
        r == cos_poly(x as int),
{
    let one = COEFF_ONE;
    let u = mul_q30(x, x);
    let c7 = sub_q30(one, divi_q30(u, 182));
    let c6 = sub_q30(one, divi_q30(mul_q30(u, c7), 132));
    let c5 = sub_q30(one, divi_q30(mul_q30(u, c6), 90));
    let c4 = sub_q30(one, divi_q30(mul_q30(u, c5), 56));
    let c3 = sub_q30(one, divi_q30(mul_q30(u, c4), 30));
    let c2 = sub_q30(one, divi_q30(mul_q30(u, c3), 12));
    sub_q30(one, divi_q30(mul_q30(u, c2), 2))
}

/// 2 to the power `i`, for small exponents.
fn pow2_u64(k: u64) -> (m: u64)
    requires
        k <= 62,
    ensures
        m as nat == pow2(k as nat),
{
    let mut m: u64 = 1;
    let mut i: u64 = 0;
    proof {
        lemma2_to64();
    }
    while i < k
        invariant
            i <= k <= 62,
            m as nat == pow2(i as nat),
        decreases k - i,
    {
        proof {
            lemma_pow2_strictly_increases(i as nat, 62);
            lemma2_to64();
            lemma2_to64_rest();
            lemma_pow2_unfold((i + 1) as nat);
        }
        m = m * 2;
        i = i + 1;
    }
    m
}

/// Approximates `2^(t)` for a Q2.30 exponent `t`; used for the
/// decibel-to-linear-amplitude conversion `10^(g/20) = 2^(g*log2(10)/20)`.
/// The exponent is limited to what a Q2.30 result can usefully express.
pub fn pow2_q30(t: i64) -> (r: i64)
    requires
        -33285996544 <= t <= 33285996544,
    ensures
        r == pow2_spec(t as int),
{
    let one = COEFF_ONE;
    let k128 = div_floor_i128(t as i128, one as i128);
    proof {
        lemma_div_is_ordered(-33285996544, t as int, one as int);
        lemma_div_is_ordered(t as int, 33285996544, one as int);
        assert(floor_div(-33285996544, one as int) == -31);
        assert(floor_div(33285996544int, one as int) == 31);
    }
    let k = k128 as i64;
    proof {
        lemma_fundamental_div_mod(t as int, one as int);
        lemma_mod_bound(t as int, one as int);
    }
    let f = (t as i128 - k128 * (one as i128)) as i64;
    let v = mul_q30(f, LN2_Q30);
    let p12 = add_q30(one, divi_q30(v, 12));
    let p11 = add_q30(one, divi_q30(mul_q30(v, p12), 11));
    let p10 = add_q30(one, divi_q30(mul_q30(v, p11), 10));
    let p9 = add_q30(one, divi_q30(mul_q30(v, p10), 9));
    let p8 = add_q30(one, divi_q30(mul_q30(v, p9), 8));
    let p7 = add_q30(one, divi_q30(mul_q30(v, p8), 7));
    let p6 = add_q30(one, divi_q30(mul_q30(v, p7), 6));
    let p5 = add_q30(one, divi_q30(mul_q30(v, p6), 5));
    let p4 = add_q30(one, divi_q30(mul_q30(v, p5), 4));
    let p3 = add_q30(one, divi_q30(mul_q30(v, p4), 3));
    let p2 = add_q30(one, divi_q30(mul_q30(v, p3), 2));
    let e = add_q30(one, mul_q30(v, p2));
    if k >= 0 {
        let m = pow2_u64(k as u64);
        proof {
            lemma_pow2_strictly_increases(k as nat, 32);
            lemma2_to64();
            lemma_mul_bound(e as int, m as int, 0x8000_0000_0000_0000, 0x1_0000_0000);
        }
        let p = (e as i128) * (m as i128);
        sat_to_i64(p)
    } else {
        let m = pow2_u64((-k) as u64);
        proof {
            lemma_pow2_strictly_increases((-k) as nat, 32);
            lemma2_to64();
        }
        let q = div_floor_i128(e as i128, m as i128);
        sat_to_i64(q)
    }
}

} // verus!
