//! Fixed-point scalar arithmetic.
//!
//! Audio samples and impulse-response taps are Q16.16 numbers stored in
//! `i32` (`SAMPLE_ONE` is the representation of 1.0); filter coefficients
//! and the trigonometric helpers work on Q2.30 numbers stored in `i64`
//! (`COEFF_ONE` is 1.0). Every executable operation here is total: it
//! widens to `i128`, computes exactly, and saturates on narrowing. The
//! specification functions state the result of each operation exactly, so
//! contracts built from them pin every output bit down.

use vstd::prelude::*;
use vstd::arithmetic::div_mod::{
    lemma_fundamental_div_mod, lemma_fundamental_div_mod_converse,
};

verus! {

/// Representation of 1.0 in the Q16.16 sample format.
pub const SAMPLE_ONE: i64 = 65536;

/// Representation of 1.0 in the Q2.30 coefficient format.
pub const COEFF_ONE: i64 = 1073741824;

/// The integer values of a block of samples.
pub open spec fn ints_of(s: Seq<i32>) -> Seq<int> {
    s.map(|i: int, v: i32| v as int)
}

/// `ints_of` distributes over concatenation.
pub proof fn lemma_ints_of_add(a: Seq<i32>, b: Seq<i32>)
    ensures
        ints_of(a + b) == ints_of(a) + ints_of(b),
{
    assert(ints_of(a + b) =~= ints_of(a) + ints_of(b));
}

/// `ints_of` commutes with taking a prefix.
pub proof fn lemma_ints_of_take(s: Seq<i32>, n: int)
    requires
        0 <= n <= s.len(),
    ensures
        ints_of(s.take(n)) == ints_of(s).take(n),
{
    assert(ints_of(s.take(n)) =~= ints_of(s).take(n));
}

/// `ints_of` commutes with dropping a prefix.
pub proof fn lemma_ints_of_skip(s: Seq<i32>, n: int)
    requires
        0 <= n <= s.len(),
    ensures
        ints_of(s.skip(n)) == ints_of(s).skip(n),
{
    assert(ints_of(s.skip(n)) =~= ints_of(s).skip(n));
}

/// Clamp an unbounded integer into the `i64` range.
pub open spec fn sat_i64(v: int) -> int {
    if v < i64::MIN {
        i64::MIN as int
    } else if v > i64::MAX {
        i64::MAX as int
    } else {
        v
    }
}

/// Clamp an unbounded integer into the `i32` range.
pub open spec fn sat_i32(v: int) -> int {
    if v < i32::MIN {
        i32::MIN as int
    } else if v > i32::MAX {
        i32::MAX as int
    } else {
        v
    }
}

/// Mathematical floor division. For a positive divisor this is Euclidean
/// division; a negative divisor is reduced to the positive case by negating
/// both operands, which leaves the exact quotient unchanged.
pub open spec fn floor_div(a: int, b: int) -> int
    recommends
        b != 0,
{
    if b > 0 {
        a / b
    } else {
        (-a) / (-b)
    }
}

/// Magnitude bound for a product, from magnitude bounds on its factors.
#[verifier::nonlinear]
pub proof fn lemma_mul_bound(a: int, b: int, m: int, n: int)
    requires
        -m <= a <= m,
        -n <= b <= n,
        0 <= m,
        0 <= n,
    ensures
        -(m * n) <= a * b <= m * n,
{
}

/// Floor division of an `i128` by a positive divisor.
pub fn div_floor_i128(n: i128, d: i128) -> (q: i128)
    requires
        d > 0,
        i128::MIN < n,
    ensures
        q == floor_div(n as int, d as int),
{
    if n >= 0 {
        let q = ((n as u128) / (d as u128)) as i128;
        proof {
            lemma_fundamental_div_mod(n as int, d as int);
        }
        q
    } else {
        let m = (-n) as u128;
        let du = d as u128;
        let qu = m / du;
        let ru = m % du;
        proof {
            lemma_fundamental_div_mod(m as int, du as int);
        }
        if ru == 0 {
            let q = -(qu as i128);
            proof {
                assert(n as int == q as int * d as int + 0) by (nonlinear_arith)
                    requires
                        m as int == du as int * (qu as int) + ru as int,
                        ru as int == 0,
                        n as int == -(m as int),
                        q as int == -(qu as int),
                        d as int == du as int;
                lemma_fundamental_div_mod_converse(n as int, d as int, q as int, 0);
            }
            q
        } else {
            let q = -(qu as i128) - 1;
            let r = d - (ru as i128);
            proof {
                assert(n as int == q as int * d as int + r as int) by (nonlinear_arith)
                    requires
                        m as int == du as int * (qu as int) + ru as int,
                        n as int == -(m as int),
                        q as int == -(qu as int) - 1,
                        r as int == d as int - ru as int,
                        d as int == du as int;
                lemma_fundamental_div_mod_converse(n as int, d as int, q as int, r as int);
            }
            q
        }
    }
}

/// Saturate an `i128` into the `i64` range.
pub fn sat_to_i64(v: i128) -> (r: i64)
    ensures
        r == sat_i64(v as int),
{
    if v < i64::MIN as i128 {
        i64::MIN
    } else if v > i64::MAX as i128 {
        i64::MAX
    } else {
        v as i64
    }
}

/// Saturate an `i128` into the `i32` range.
pub fn sat_to_i32(v: i128) -> (r: i32)
    ensures
        r == sat_i32(v as int),
{
    if v < i32::MIN as i128 {
        i32::MIN
    } else if v > i32::MAX as i128 {
        i32::MAX
    } else {
        v as i32
    }
}

/// Exact product of two Q2.30 values, rescaled to Q2.30 with floor
/// rounding and saturation.
pub open spec fn q30_mul(a: int, b: int) -> int {
    sat_i64(floor_div(a * b, COEFF_ONE as int))
}

/// Exact quotient of two Q2.30 values, rescaled to Q2.30 with floor
/// rounding and saturation.
pub open spec fn q30_div(a: int, b: int) -> int
    recommends
        b != 0,
{
    sat_i64(floor_div(a * (COEFF_ONE as int), b))
}

/// Exact quotient of a Q2.30 value by a plain positive integer, floor
/// rounding and saturation.
pub open spec fn q30_divi(a: int, d: int) -> int
    recommends
        d > 0,
{
    sat_i64(floor_div(a, d))
}

/// Saturating Q2.30 sum.
pub open spec fn q30_add(a: int, b: int) -> int {
    sat_i64(a + b)
}

/// Saturating Q2.30 difference.
pub open spec fn q30_sub(a: int, b: int) -> int {
    sat_i64(a - b)
}

/// The integer square root, defined by counting up: the largest `r` with
/// `r * r <= n`.
pub open spec fn isqrt_spec(n: int) -> int
    decreases n,
{
    if n <= 0 {
        0
    } else {
        let r = isqrt_spec(n - 1);
        if (r + 1) * (r + 1) <= n {
            r + 1
        } else {
            r
        }
    }
}

/// The defining bracket of the integer square root.
pub proof fn lemma_isqrt_spec_bracket(n: int)
    requires
        n >= 0,
    ensures
        isqrt_spec(n) * isqrt_spec(n) <= n,
        n < (isqrt_spec(n) + 1) * (isqrt_spec(n) + 1),
        isqrt_spec(n) >= 0,
    decreases n,
{
    if n > 0 {
        lemma_isqrt_spec_bracket(n - 1);
        let r = isqrt_spec(n - 1);
        assert((r + 1) * (r + 1) < (r + 2) * (r + 2)) by (nonlinear_arith)
            requires
                r >= 0,
        ;
    }
}

/// Any value with the square-root bracket is the integer square root.
pub proof fn lemma_isqrt_unique(n: int, r: int)
    requires
        n >= 0,
        r >= 0,
        r * r <= n,
        n < (r + 1) * (r + 1),
    ensures
        r == isqrt_spec(n),
{
    lemma_isqrt_spec_bracket(n);
    let s = isqrt_spec(n);
    assert(r < s + 1 && s < r + 1) by (nonlinear_arith)
        requires
            r >= 0,
            s >= 0,
            r * r <= n,
            n < (r + 1) * (r + 1),
            s * s <= n,
            n < (s + 1) * (s + 1),
    ;
}

/// Integer square root by bisection.
pub fn isqrt_u128(n: u128) -> (r: u128)
    requires
        n < 0x4000_0000_0000_0000_0000_0000_0000_0000,
    ensures
        r as int == isqrt_spec(n as int),
{
    let mut lo: u128 = 0;
    let mut hi: u128 = 0x8000_0000_0000_0000;
    proof {
        assert(0x8000_0000_0000_0000i128 as int * 0x8000_0000_0000_0000i128 as int
            == 0x4000_0000_0000_0000_0000_0000_0000_0000int) by (nonlinear_arith);
    }
    while lo + 1 < hi
        invariant
            lo < hi <= 0x8000_0000_0000_0000,
            lo as int * lo as int <= n,
            (n as int) < hi as int * hi as int,
        decreases hi - lo,
    {
        let mid = lo + (hi - lo) / 2;
        proof {
            assert(lo < mid < hi);
        }
        if mid <= 0xFFFF_FFFF_FFFF_FFFF {
            proof {
                assert(mid as int * mid as int <= 0xFFFF_FFFF_FFFF_FFFF * 0xFFFF_FFFF_FFFF_FFFF)
                    by (nonlinear_arith)
                    requires
                        0 <= mid as int <= 0xFFFF_FFFF_FFFF_FFFF,
                ;
            }
            if mid * mid <= n {
                lo = mid;
            } else {
                hi = mid;
            }
        } else {
            proof {
                assert((n as int) < mid as int * mid as int) by (nonlinear_arith)
                    requires
                        mid as int > 0xFFFF_FFFF_FFFF_FFFF,
                        (n as int) < 0x4000_0000_0000_0000_0000_0000_0000_0000,
                ;
            }
            hi = mid;
        }
    }
    proof {
        lemma_isqrt_unique(n as int, lo as int);
    }
    lo
}

/// Multiply two Q2.30 coefficients.
pub fn mul_q30(a: i64, b: i64) -> (r: i64)
    ensures
        r == q30_mul(a as int, b as int),
{
    proof {
        lemma_mul_bound(a as int, b as int, 0x8000_0000_0000_0000, 0x8000_0000_0000_0000);
    }
    let p: i128 = (a as i128) * (b as i128);
    let q = div_floor_i128(p, COEFF_ONE as i128);
    sat_to_i64(q)
}

/// Divide two Q2.30 coefficients (`a / b` as real numbers).
pub fn div_q30(a: i64, b: i64) -> (r: i64)
    requires
        b != 0,
    ensures
        r == q30_div(a as int, b as int),
{
    proof {
        lemma_mul_bound(a as int, COEFF_ONE as int, 0x8000_0000_0000_0000, COEFF_ONE as int);
    }
    if b > 0 {
        let p: i128 = (a as i128) * (COEFF_ONE as i128);
        let q = div_floor_i128(p, b as i128);
        sat_to_i64(q)
    } else {
        let p: i128 = -((a as i128) * (COEFF_ONE as i128));
        let q = div_floor_i128(p, -(b as i128));
        sat_to_i64(q)
    }
}

/// Divide a Q2.30 coefficient by a plain positive integer.
pub fn divi_q30(a: i64, d: i64) -> (r: i64)
    requires
        d > 0,
    ensures
        r == q30_divi(a as int, d as int),
{
    let q = div_floor_i128(a as i128, d as i128);
    sat_to_i64(q)
}

/// Add two Q2.30 coefficients with saturation.
pub fn add_q30(a: i64, b: i64) -> (r: i64)
    ensures
        r == q30_add(a as int, b as int),
{
    sat_to_i64(a as i128 + b as i128)
}

/// Subtract two Q2.30 coefficients with saturation.
pub fn sub_q30(a: i64, b: i64) -> (r: i64)
    ensures
        r == q30_sub(a as int, b as int),
{
    sat_to_i64(a as i128 - b as i128)
}

} // verus!
