//! The rounding-division layer: multiply-then-divide with explicit floor or
//! ceiling rounding, plus the specification-level vocabulary for rounded
//! division that the whole engine states its contracts with.

use vstd::prelude::*;
use vstd::arithmetic::div_mod::{lemma_fundamental_div_mod, lemma_fundamental_div_mod_converse};
use vstd::arithmetic::mul::lemma_mul_upper_bound;

use crate::error::ErrorCode;

verus! {

/// Fee rates are numerators over this fixed parts-per-million denominator.
pub const FEE_RATE_DENOMINATOR_VALUE: u32 = 1_000_000;

/// 2^64, the scale of the Q64.64 fixed-point price format.
pub open spec fn p64() -> int {
    0x1_0000_0000_0000_0000
}

/// 2^128, one more than the largest value a `u128` holds.
pub open spec fn p128() -> int {
    0x1_0000_0000_0000_0000_0000_0000_0000_0000int
}

/// 2^256.
pub open spec fn p256() -> int {
    0x1_0000_0000_0000_0000_0000_0000_0000_0000_0000_0000_0000_0000_0000_0000_0000_0000int
}

/// The quotient `n / d` rounded down, or up when `round_up` is set. Meant for
/// `n >= 0` and `d > 0`, where `/` is the mathematical floor.
pub open spec fn rounded_div(n: int, d: int, round_up: bool) -> int {
    if round_up {
        (n + d - 1) / d
    } else {
        n / d
    }
}

/// The ceiling is the floor, plus one exactly when the division is inexact.
pub proof fn lemma_ceil_split(n: int, d: int)
    requires
        n >= 0,
        d > 0,
    ensures
        rounded_div(n, d, true) == n / d + if n % d == 0 {
            0int
        } else {
            1int
        },
{
    lemma_fundamental_div_mod(n, d);
    let q = n / d;
    let r = n % d;
    if r == 0 {
        assert(n + d - 1 == q * d + (d - 1)) by (nonlinear_arith)
            requires
                n == d * q + r,
                r == 0,
        ;
        lemma_fundamental_div_mod_converse(n + d - 1, d, q, d - 1);
    } else {
        assert(n + d - 1 == (q + 1) * d + (r - 1)) by (nonlinear_arith)
            requires
                n == d * q + r,
        ;
        lemma_fundamental_div_mod_converse(n + d - 1, d, q + 1, r - 1);
    }
}

/// Exact product bounds for the floor and the ceiling of `n / d`: every
/// rounding argument in the engine reduces to one of these four facts.
pub proof fn lemma_div_bounds(n: int, d: int, m: int)
    requires
        n >= 0,
        d > 0,
        m >= 0,
    ensures
        (n / d <= m) <==> (n < d * (m + 1)),
        (n / d >= m) <==> (n >= d * m),
        (rounded_div(n, d, true) <= m) <==> (n <= d * m),
        m >= 1 ==> ((rounded_div(n, d, true) >= m) <==> (n > d * (m - 1))),
        0 <= n / d,
        n / d <= rounded_div(n, d, true),
        rounded_div(n, d, true) <= n / d + 1,
        n == 0 ==> n / d == 0 && rounded_div(n, d, true) == 0,
{
    lemma_fundamental_div_mod(n, d);
    let q = n / d;
    let r = n % d;
    assert(q >= 0 && (n == 0 ==> q == 0 && r == 0)) by (nonlinear_arith)
        requires
            n == d * q + r,
            0 <= r < d,
            n >= 0,
    ;
    assert((q <= m) <==> (n < d * (m + 1))) by (nonlinear_arith)
        requires
            n == d * q + r,
            0 <= r < d,
            m >= 0,
    ;
    assert((q >= m) <==> (n >= d * m)) by (nonlinear_arith)
        requires
            n == d * q + r,
            0 <= r < d,
            m >= 0,
    ;
    lemma_ceil_split(n, d);
    let c = rounded_div(n, d, true);
    assert((c <= m) <==> (n <= d * m)) by (nonlinear_arith)
        requires
            n == d * q + r,
            0 <= r < d,
            m >= 0,
            c == q + if r == 0 {
                0int
            } else {
                1int
            },
    ;
    if m >= 1 {
        assert((c >= m) <==> (n > d * (m - 1))) by (nonlinear_arith)
            requires
                n == d * q + r,
                0 <= r < d,
                m >= 1,
                c == q + if r == 0 {
                    0int
                } else {
                    1int
                },
        ;
    }
}

/// `floor(a * b / denominator)` over 64-bit operands, exact because the
/// product is carried in 128 bits. A zero denominator and a quotient too
/// wide for 64 bits are both surfaced as errors.
pub fn mul_div_floor(a: u64, b: u64, denominator: u64) -> (r: Result<u64, ErrorCode>)
    ensures
        denominator == 0 ==> (r matches Err(e) && e == ErrorCode::DivisionByZero),
        denominator > 0 ==> {
            let q = rounded_div(a * b, denominator as int, false);
            &&& (r is Ok <==> q <= u64::MAX)
            &&& (r matches Ok(v) ==> v == q)
            &&& (r matches Err(e) ==> e == ErrorCode::SqrtPriceLimitOverflow)
        },
{
    if denominator == 0 {
        return Err(ErrorCode::DivisionByZero);
    }
    proof {
        lemma_mul_upper_bound(a as int, u64::MAX as int, b as int, u64::MAX as int);
    }
    let p: u128 = (a as u128) * (b as u128);
    let q: u128 = p / (denominator as u128);
    if q > u64::MAX as u128 {
        Err(ErrorCode::SqrtPriceLimitOverflow)
    } else {
        Ok(q as u64)
    }
}

/// `ceil(a * b / denominator)` over 64-bit operands, with the same failure
/// conditions as `mul_div_floor`.
pub fn mul_div_ceil(a: u64, b: u64, denominator: u64) -> (r: Result<u64, ErrorCode>)
    ensures
        denominator == 0 ==> (r matches Err(e) && e == ErrorCode::DivisionByZero),
        denominator > 0 ==> {
            let q = rounded_div(a * b, denominator as int, true);
            &&& (r is Ok <==> q <= u64::MAX)
            &&& (r matches Ok(v) ==> v == q)
            &&& (r matches Err(e) ==> e == ErrorCode::SqrtPriceLimitOverflow)
        },
{
    if denominator == 0 {
        return Err(ErrorCode::DivisionByZero);
    }
    proof {
        lemma_mul_upper_bound(a as int, u64::MAX as int, b as int, u64::MAX as int);
    }
    let p: u128 = (a as u128) * (b as u128);
    let q: u128 = (p + (denominator - 1) as u128) / (denominator as u128);
    if q > u64::MAX as u128 {
        Err(ErrorCode::SqrtPriceLimitOverflow)
    } else {
        Ok(q as u64)
    }
}

} // verus!
