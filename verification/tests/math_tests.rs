use clmm_swap::big_num::{add2, lt2, mul_u128, sub2};
use clmm_swap::error::ErrorCode;
use clmm_swap::full_math::{mul_div_ceil, mul_div_floor};
use clmm_swap::liquidity_math::{get_delta_amount_0_unsigned, get_delta_amount_1_unsigned};
use clmm_swap::market::{arb_spread, is_arb_opportunity};
use clmm_swap::sqrt_price_math::{get_next_sqrt_price_from_input, get_next_sqrt_price_from_output};

const Q64: u128 = 1u128 << 64;

#[test]
fn mul_u128_splits_wide_products() {
    assert_eq!(mul_u128(1u128 << 127, 2), (1, 0));
    assert_eq!(mul_u128(0, u128::MAX), (0, 0));
    assert_eq!(mul_u128(u128::MAX, u128::MAX), (u128::MAX - 1, 1));
    assert_eq!(mul_u128(Q64, Q64), (1, 0));
    assert_eq!(mul_u128(12345, 67890), (0, 12345 * 67890));
}

#[test]
fn wide_halves_carry_and_borrow() {
    assert_eq!(add2(0, u128::MAX, 0, 1), (1, 0));
    assert_eq!(add2(1, 2, 3, 4), (4, 6));
    assert_eq!(sub2(1, 0, 0, 1), (0, u128::MAX));
    assert_eq!(sub2(5, 7, 2, 3), (3, 4));
    assert!(lt2(0, u128::MAX, 1, 0));
    assert!(!lt2(1, 0, 1, 0));
}

#[test]
fn delta_amount_0_rounds_each_way() {
    // 10 * 2^64 * (3*2^64 - 2^64) / (2^64 * 3*2^64) = 20/3
    let up = get_delta_amount_0_unsigned(Q64, 3 * Q64, 10, true).unwrap();
    let down = get_delta_amount_0_unsigned(3 * Q64, Q64, 10, false).unwrap();
    assert_eq!(up, 7);
    assert_eq!(down, 6);
}

#[test]
fn delta_amount_0_mid_range_overflow() {
    // 2^80 * 2^64 * 2^64 / (2^64 * 2^65) = 2^79: fits the wide quotient but
    // not the 64-bit amount range
    let r = get_delta_amount_0_unsigned(Q64, 2 * Q64, 1u128 << 80, true);
    assert_eq!(r, Err(ErrorCode::MaxTokenOverflow));
}

#[test]
fn mul_div_rounds_each_way() {
    assert_eq!(mul_div_floor(7, 3, 2), Ok(10));
    assert_eq!(mul_div_ceil(7, 3, 2), Ok(11));
    assert_eq!(mul_div_floor(6, 4, 3), Ok(8));
    assert_eq!(mul_div_ceil(6, 4, 3), Ok(8));
}

#[test]
fn mul_div_rejects_zero_denominator() {
    assert_eq!(mul_div_floor(1, 1, 0), Err(ErrorCode::DivisionByZero));
    assert_eq!(mul_div_ceil(1, 1, 0), Err(ErrorCode::DivisionByZero));
}

#[test]
fn mul_div_rejects_wide_quotient() {
    assert_eq!(mul_div_floor(u64::MAX, u64::MAX, 1), Err(ErrorCode::SqrtPriceLimitOverflow));
    assert_eq!(mul_div_ceil(u64::MAX, u64::MAX, 2), Err(ErrorCode::SqrtPriceLimitOverflow));
}

#[test]
fn delta_amount_0_exact_power_of_two() {
    // liquidity * 2^64 * (2^65 - 2^64) / (2^64 * 2^65) with liquidity = 2^64
    // is exactly 2^63, so both roundings agree
    let r = get_delta_amount_0_unsigned(Q64, 2 * Q64, Q64, true).unwrap();
    assert_eq!(r, 1u64 << 63);
    let r = get_delta_amount_0_unsigned(2 * Q64, Q64, Q64, false).unwrap();
    assert_eq!(r, 1u64 << 63);
}

#[test]
fn delta_amount_1_rounding_direction() {
    // 2^63 * 3 / 2^64 = 1.5
    let down = get_delta_amount_1_unsigned(Q64, Q64 + 3, 1u128 << 63, false).unwrap();
    let up = get_delta_amount_1_unsigned(Q64 + 3, Q64, 1u128 << 63, true).unwrap();
    assert_eq!(down, 1);
    assert_eq!(up, 2);
}

#[test]
fn delta_amount_1_exact() {
    let r = get_delta_amount_1_unsigned(Q64, Q64 + (1u128 << 32), 1u128 << 40, true).unwrap();
    assert_eq!(r, 256);
}

#[test]
fn delta_amount_overflow_is_recoverable_error() {
    let r = get_delta_amount_1_unsigned(Q64, 2 * Q64, 1u128 << 127, false);
    assert_eq!(r, Err(ErrorCode::MaxTokenOverflow));
    let r = get_delta_amount_0_unsigned(1, Q64, 1u128 << 127, true);
    assert_eq!(r, Err(ErrorCode::MaxTokenOverflow));
}

#[test]
fn delta_amounts_vanish_between_equal_prices() {
    assert_eq!(get_delta_amount_0_unsigned(Q64, Q64, 10u128.pow(15), true), Ok(0));
    assert_eq!(get_delta_amount_1_unsigned(Q64, Q64, 10u128.pow(15), true), Ok(0));
}

#[test]
fn next_price_from_token1_input_rises() {
    let next = get_next_sqrt_price_from_input(Q64, 10u128.pow(12), 10u64.pow(9), false).unwrap();
    assert_eq!(next, 18465190817783261167);
}

#[test]
fn next_price_from_token0_input_falls() {
    let next = get_next_sqrt_price_from_input(Q64, 10u128.pow(12), 10u64.pow(9), true).unwrap();
    assert_eq!(next, 18428315757951600016);
    assert!(next < Q64);
}

#[test]
fn next_price_zero_amount_stays_put() {
    assert_eq!(get_next_sqrt_price_from_input(Q64, 10u128.pow(12), 0, true), Ok(Q64));
    assert_eq!(get_next_sqrt_price_from_input(Q64, 10u128.pow(12), 0, false), Ok(Q64));
    assert_eq!(get_next_sqrt_price_from_output(Q64, 10u128.pow(12), 0, true), Ok(Q64));
}

#[test]
fn next_price_zero_liquidity_fails() {
    assert_eq!(
        get_next_sqrt_price_from_input(Q64, 0, 1, true),
        Err(ErrorCode::SqrtPriceLimitOverflow)
    );
    assert_eq!(
        get_next_sqrt_price_from_output(Q64, 0, 1, false),
        Err(ErrorCode::SqrtPriceLimitOverflow)
    );
}

#[test]
fn next_price_from_output_can_exhaust_range() {
    // one token1 out of a pool with unit liquidity would need the price to
    // drop by 2^64, below zero
    let r = get_next_sqrt_price_from_output(5, 1, 1, true);
    assert_eq!(r, Err(ErrorCode::SqrtPriceLimitOverflow));
}

#[test]
fn next_price_from_token1_output_falls() {
    let next = get_next_sqrt_price_from_output(Q64, Q64, 1000, true).unwrap();
    assert_eq!(next, Q64 - 1000);
}

#[test]
fn spread_is_exact_difference() {
    assert_eq!(arb_spread(10, 4), 6);
    assert_eq!(arb_spread(4, 10), -6);
    assert!(!is_arb_opportunity(5, 5));
    assert!(is_arb_opportunity(6, 5));
}
