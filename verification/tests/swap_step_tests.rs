use clmm_swap::error::ErrorCode;
use clmm_swap::sqrt_price_math::get_next_sqrt_price_from_input;
use clmm_swap::swap_math::{calculate_amount_in_range, compute_swap_step};

const Q64: u128 = 1u128 << 64;

#[test]
fn exact_input_reaches_probe_target() {
    // price 1.0, moderate depth, fee-free: probe the price an input of 10^9
    // reaches, then swap exactly that much; the whole input is consumed
    let liquidity: u128 = 10u128.pow(12);
    let amount: u64 = 10u64.pow(9);
    let target = get_next_sqrt_price_from_input(Q64, liquidity, amount, true).unwrap();
    let s = compute_swap_step(Q64, target, liquidity, amount, 0, true, true).unwrap();
    assert_eq!(s.sqrt_price_next_x64, target);
    assert!(s.sqrt_price_next_x64 < Q64);
    assert_eq!(s.amount_in, amount);
    assert_eq!(s.amount_out, 999000999);
    assert_eq!(s.fee_amount, 0);
}

#[test]
fn zero_liquidity_nonzero_amount_fails() {
    let r = compute_swap_step(Q64, Q64 / 2, 0, 5, 0, true, true);
    assert_eq!(r.err(), Some(ErrorCode::SqrtPriceLimitOverflow));
    let r = compute_swap_step(Q64, 2 * Q64, 0, 5, 3000, false, false);
    assert_eq!(r.err(), Some(ErrorCode::SqrtPriceLimitOverflow));
}

#[test]
fn zero_liquidity_zero_amount_is_a_null_step() {
    let s = compute_swap_step(Q64, Q64, 0, 0, 0, true, true).unwrap();
    assert_eq!(s.sqrt_price_next_x64, Q64);
    assert_eq!(s.amount_in, 0);
    assert_eq!(s.amount_out, 0);
    assert_eq!(s.fee_amount, 0);
}

#[test]
fn unreachable_target_falls_back_to_price_computation() {
    // reaching the target would take 2^105 token1 out, far over the 64-bit
    // range: the reachability check reports the recoverable overflow and the
    // step still produces a finite, valid result from the amount alone
    let cur: u128 = 1u128 << 70;
    let tgt: u128 = 1u128 << 69;
    let liquidity: u128 = 1u128 << 100;
    let amount: u64 = 10u64.pow(6);
    assert_eq!(calculate_amount_in_range(cur, tgt, liquidity, true, false), Ok(None));
    let s = compute_swap_step(cur, tgt, liquidity, amount, 500, false, true).unwrap();
    assert_eq!(s.sqrt_price_next_x64, cur - 1);
    assert!(tgt <= s.sqrt_price_next_x64 && s.sqrt_price_next_x64 <= cur);
    assert_eq!(s.amount_in, 16777217);
    assert_eq!(s.amount_out, amount);
    assert_eq!(s.fee_amount, 8393);
}

#[test]
fn zero_fee_rate_charges_no_fee_exact_output() {
    let cur = Q64;
    let tgt = Q64 - (1u128 << 44);
    let s = compute_swap_step(cur, tgt, 10u128.pow(12), 10u64.pow(6), 0, false, true).unwrap();
    assert_eq!(s.sqrt_price_next_x64, tgt);
    assert_eq!(s.amount_out, 953674);
    assert_eq!(s.amount_in, 953676);
    assert_eq!(s.fee_amount, 0);
}

#[test]
fn target_equal_to_current_moves_nothing() {
    for &is_base_input in &[true, false] {
        let s = compute_swap_step(Q64, Q64, 10u128.pow(12), 10u64.pow(9), 3000, is_base_input, true)
            .unwrap();
        assert_eq!(s.sqrt_price_next_x64, Q64);
        assert_eq!(s.amount_in, 0);
        assert_eq!(s.amount_out, 0);
        assert_eq!(s.fee_amount, 0);
    }
}

#[test]
fn leftover_input_dust_is_granted_as_fee() {
    // the ceiling rounding keeps the price put, so the input cannot buy
    // anything and is granted whole as fee, even at a zero fee rate
    let s = compute_swap_step(3, 1, 1, 2, 0, true, true).unwrap();
    assert_eq!(s.sqrt_price_next_x64, 3);
    assert_eq!(s.amount_in, 0);
    assert_eq!(s.amount_out, 0);
    assert_eq!(s.fee_amount, 2);
}

#[test]
fn growing_input_never_buys_less() {
    let liquidity: u128 = 10u128.pow(12);
    let tgt: u128 = 1u128 << 63;
    let mut last_in: u64 = 0;
    let mut last_next: u128 = Q64;
    for &amount in &[10u64.pow(6), 10u64.pow(9), 10u64.pow(12), 10u64.pow(15)] {
        let s = compute_swap_step(Q64, tgt, liquidity, amount, 2500, true, true).unwrap();
        assert!(s.amount_in >= last_in);
        assert!(s.sqrt_price_next_x64 <= last_next);
        assert!(tgt <= s.sqrt_price_next_x64 && s.sqrt_price_next_x64 <= Q64);
        assert!(s.amount_in as u128 + s.fee_amount as u128 <= amount as u128);
        last_in = s.amount_in;
        last_next = s.sqrt_price_next_x64;
    }
}

#[test]
fn round_trip_input_reaches_the_output_price() {
    // exact-output step, then feed the charged input back through the input
    // price computation: it moves the price at least as far
    let liquidity: u128 = 10u128.pow(12);
    let s = compute_swap_step(Q64, Q64 / 2, liquidity, 10u64.pow(8), 0, false, true).unwrap();
    let back = get_next_sqrt_price_from_input(Q64, liquidity, s.amount_in, true).unwrap();
    assert!(back <= s.sqrt_price_next_x64);
}

#[test]
fn reachability_amount_matches_probe() {
    let liquidity: u128 = 10u128.pow(12);
    let amount: u64 = 10u64.pow(9);
    let target = get_next_sqrt_price_from_input(Q64, liquidity, amount, true).unwrap();
    let r = calculate_amount_in_range(Q64, target, liquidity, true, true);
    assert_eq!(r, Ok(Some(amount)));
}
