//! The liquidity-delta layer: the token amounts implied by moving a given
//! liquidity between two square-root prices, with caller-picked rounding and
//! with the 64-bit amount overflow reported as a recoverable error.

use vstd::prelude::*;

use crate::big_num::{mul_shl64_div, mul_shr64, mul_u128};
use crate::error::ErrorCode;
use crate::full_math::{lemma_div_bounds, p64, rounded_div};

verus! {

/// Token0 amount implied by moving `liquidity` between two prices:
/// `liquidity * 2^64 * |b - a| / (min(a, b) * max(a, b))`, rounded as picked.
pub open spec fn spec_delta_amount_0(sqrt_a: int, sqrt_b: int, liquidity: int, round_up: bool) -> int {
    let lo = if sqrt_a <= sqrt_b {
        sqrt_a
    } else {
        sqrt_b
    };
    let hi = if sqrt_a <= sqrt_b {
        sqrt_b
    } else {
        sqrt_a
    };
    rounded_div((liquidity * (hi - lo)) * p64(), lo * hi, round_up)
}

/// Token1 amount implied by moving `liquidity` between two prices:
/// `liquidity * |b - a| / 2^64`, rounded as picked.
pub open spec fn spec_delta_amount_1(sqrt_a: int, sqrt_b: int, liquidity: int, round_up: bool) -> int {
    let lo = if sqrt_a <= sqrt_b {
        sqrt_a
    } else {
        sqrt_b
    };
    let hi = if sqrt_a <= sqrt_b {
        sqrt_b
    } else {
        sqrt_a
    };
    rounded_div(liquidity * (hi - lo), p64(), round_up)
}

/// A move between equal prices implies no token amount at all.
pub proof fn lemma_delta_zero_width(sp: int, liquidity: int, round_up: bool)
    requires
        sp >= 1,
        liquidity >= 0,
    ensures
        spec_delta_amount_0(sp, sp, liquidity, round_up) == 0,
        spec_delta_amount_1(sp, sp, liquidity, round_up) == 0,
{
    assert(liquidity * (sp - sp) == 0) by (nonlinear_arith);
    assert(sp * sp >= 1) by (nonlinear_arith)
        requires
            sp >= 1,
    ;
    lemma_div_bounds(0, sp * sp, 0);
    lemma_div_bounds(0, p64(), 0);
}

/// Zero liquidity implies zero token amounts between any two prices.
pub proof fn lemma_delta_zero_liquidity(sqrt_a: int, sqrt_b: int, round_up: bool)
    requires
        sqrt_a >= 1,
        sqrt_b >= 1,
    ensures
        spec_delta_amount_0(sqrt_a, sqrt_b, 0, round_up) == 0,
        spec_delta_amount_1(sqrt_a, sqrt_b, 0, round_up) == 0,
{
    let lo = if sqrt_a <= sqrt_b {
        sqrt_a
    } else {
        sqrt_b
    };
    let hi = if sqrt_a <= sqrt_b {
        sqrt_b
    } else {
        sqrt_a
    };
    assert(0 * (hi - lo) == 0) by (nonlinear_arith);
    assert(lo * hi >= 1) by (nonlinear_arith)
        requires
            lo >= 1,
            hi >= 1,
    ;
    lemma_div_bounds(0, lo * hi, 0);
    lemma_div_bounds(0, p64(), 0);
}

/// Token0 amount for the move between the two prices, in either order. The
/// 64-bit overflow is the recoverable `MaxTokenOverflow` condition.
pub fn get_delta_amount_0_unsigned(
    sqrt_ratio_a_x64: u128,
    sqrt_ratio_b_x64: u128,
    liquidity: u128,
    round_up: bool,
) -> (r: Result<u64, ErrorCode>)
    requires
        sqrt_ratio_a_x64 > 0,
        sqrt_ratio_b_x64 > 0,
    ensures
        ({
            let v: int = spec_delta_amount_0(
                sqrt_ratio_a_x64 as int,
                sqrt_ratio_b_x64 as int,
                liquidity as int,
                round_up,
            );
            &&& (r is Ok <==> v <= u64::MAX)
            &&& (r matches Ok(q) ==> q == v)
            &&& (r matches Err(e) ==> e == ErrorCode::MaxTokenOverflow)
        }),
{
    let (price_lower, price_upper): (u128, u128) = if sqrt_ratio_a_x64 <= sqrt_ratio_b_x64 {
        (sqrt_ratio_a_x64, sqrt_ratio_b_x64)
    } else {
        (sqrt_ratio_b_x64, sqrt_ratio_a_x64)
    };
    let (dh, dl) = mul_u128(price_lower, price_upper);
    proof {
        assert(price_lower * price_upper >= 1) by (nonlinear_arith)
            requires
                price_lower >= 1,
                price_upper >= 1,
        ;
    }
    match mul_shl64_div(liquidity, price_upper - price_lower, dh, dl, round_up) {
        None => Err(ErrorCode::MaxTokenOverflow),
        Some(q) => {
            if q > (u64::MAX as u128) {
                Err(ErrorCode::MaxTokenOverflow)
            } else {
                Ok(q as u64)
            }
        },
    }
}

/// Token1 amount for the move between the two prices, in either order, with
/// the same overflow policy as the token0 variant.
pub fn get_delta_amount_1_unsigned(
    sqrt_ratio_a_x64: u128,
    sqrt_ratio_b_x64: u128,
    liquidity: u128,
    round_up: bool,
) -> (r: Result<u64, ErrorCode>)
    requires
        sqrt_ratio_a_x64 > 0,
        sqrt_ratio_b_x64 > 0,
    ensures
        ({
            let v: int = spec_delta_amount_1(
                sqrt_ratio_a_x64 as int,
                sqrt_ratio_b_x64 as int,
                liquidity as int,
                round_up,
            );
            &&& (r is Ok <==> v <= u64::MAX)
            &&& (r matches Ok(q) ==> q == v)
            &&& (r matches Err(e) ==> e == ErrorCode::MaxTokenOverflow)
        }),
{
    let (price_lower, price_upper): (u128, u128) = if sqrt_ratio_a_x64 <= sqrt_ratio_b_x64 {
        (sqrt_ratio_a_x64, sqrt_ratio_b_x64)
    } else {
        (sqrt_ratio_b_x64, sqrt_ratio_a_x64)
    };
    match mul_shr64(liquidity, price_upper - price_lower, round_up) {
        None => Err(ErrorCode::MaxTokenOverflow),
        Some(q) => Ok(q),
    }
}

} // verus!
