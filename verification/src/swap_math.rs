//! The swap-step orchestrator: clamp the price movement to a target, compute
//! the exact token amounts at the clamped price, and charge the fee.

use vstd::prelude::*;
use vstd::arithmetic::div_mod::lemma_div_is_ordered;

use crate::error::ErrorCode;
use crate::full_math::{
    lemma_div_bounds, mul_div_ceil, mul_div_floor, p64, rounded_div, FEE_RATE_DENOMINATOR_VALUE,
};
use crate::liquidity_math::{
    get_delta_amount_0_unsigned, get_delta_amount_1_unsigned, lemma_delta_zero_liquidity,
    lemma_delta_zero_width, spec_delta_amount_0, spec_delta_amount_1,
};
use crate::sqrt_price_math::{
    get_next_sqrt_price_from_input, get_next_sqrt_price_from_output,
    lemma_input_amount_covers_delta, lemma_input_short_of_target, lemma_output_short_of_target,
    spec_next_sqrt_price_from_input, spec_next_sqrt_price_from_output,
};

verus! {

/// Result of one bounded swap step.
#[derive(Default, Debug)]
pub struct SwapStep {
    /// The price after swapping the amount in/out, never past the target.
    pub sqrt_price_next_x64: u128,
    pub amount_in: u64,
    pub amount_out: u64,
    pub fee_amount: u64,
}

/// The exact-input amount needed to move the price all the way from `cur` to
/// `tgt`, rounded against the trader.
pub open spec fn spec_amount_in_to_target(cur: int, tgt: int, l: int, zero_for_one: bool) -> int {
    if zero_for_one {
        spec_delta_amount_0(tgt, cur, l, true)
    } else {
        spec_delta_amount_1(cur, tgt, l, true)
    }
}

/// The exact-output amount supplied by moving the price all the way from
/// `cur` to `tgt`, rounded against the trader.
pub open spec fn spec_amount_out_to_target(cur: int, tgt: int, l: int, zero_for_one: bool) -> int {
    if zero_for_one {
        spec_delta_amount_1(tgt, cur, l, false)
    } else {
        spec_delta_amount_0(cur, tgt, l, false)
    }
}

/// The input amount charged once the step's end price is fixed.
pub open spec fn spec_amount_in(cur: int, next: int, l: int, zero_for_one: bool) -> int {
    if zero_for_one {
        spec_delta_amount_0(next, cur, l, true)
    } else {
        spec_delta_amount_1(cur, next, l, true)
    }
}

/// The output amount owed once the step's end price is fixed, before the
/// exact-output clamp.
pub open spec fn spec_amount_out(cur: int, next: int, l: int, zero_for_one: bool) -> int {
    if zero_for_one {
        spec_delta_amount_1(next, cur, l, false)
    } else {
        spec_delta_amount_0(cur, next, l, false)
    }
}

/// The input left once the fee portion is carved out up front.
pub open spec fn spec_amount_remaining_less_fee(amount_remaining: int, fee_rate: int) -> int {
    (amount_remaining * (1_000_000 - fee_rate)) / 1_000_000
}

/// Does the step reach the target price exactly, by the amount comparison
/// the orchestrator makes?
pub open spec fn spec_reaches_target(
    cur: int,
    tgt: int,
    l: int,
    amt: int,
    fee_rate: int,
    is_base_input: bool,
    zero_for_one: bool,
) -> bool {
    if is_base_input {
        spec_amount_in_to_target(cur, tgt, l, zero_for_one) <= u64::MAX
            && spec_amount_remaining_less_fee(amt, fee_rate) >= spec_amount_in_to_target(
            cur,
            tgt,
            l,
            zero_for_one,
        )
    } else {
        spec_amount_out_to_target(cur, tgt, l, zero_for_one) <= u64::MAX && amt
            >= spec_amount_out_to_target(cur, tgt, l, zero_for_one)
    }
}

/// The end price of the step: the target when it is reached, otherwise the
/// price the remaining amount pays for.
pub open spec fn spec_sqrt_price_next(
    cur: int,
    tgt: int,
    l: int,
    amt: int,
    fee_rate: int,
    is_base_input: bool,
    zero_for_one: bool,
) -> int {
    if spec_reaches_target(cur, tgt, l, amt, fee_rate, is_base_input, zero_for_one) {
        tgt
    } else if is_base_input {
        spec_next_sqrt_price_from_input(
            cur,
            l,
            spec_amount_remaining_less_fee(amt, fee_rate),
            zero_for_one,
        )
    } else {
        spec_next_sqrt_price_from_output(cur, l, amt, zero_for_one)
    }
}

/// The fee charged for the step: the leftover dust when an exact-input step
/// stops short of the target, otherwise the pip percentage of the input.
pub open spec fn spec_fee_amount(
    amt: int,
    fee_rate: int,
    is_base_input: bool,
    next: int,
    tgt: int,
    amount_in: int,
) -> int {
    if is_base_input && next != tgt {
        amt - amount_in
    } else {
        rounded_div(amount_in * fee_rate, 1_000_000 - fee_rate, true)
    }
}

/// Everything `compute_swap_step` must find in range before it can return a
/// step: liquidity honoring the amount, and the recomputed amounts and the
/// fee each fitting the 64-bit amount range.
pub open spec fn spec_swap_step_ok(
    cur: int,
    tgt: int,
    l: int,
    amt: int,
    fee_rate: int,
    is_base_input: bool,
    zero_for_one: bool,
) -> bool {
    let next = spec_sqrt_price_next(cur, tgt, l, amt, fee_rate, is_base_input, zero_for_one);
    let a_in = spec_amount_in(cur, next, l, zero_for_one);
    let a_out = spec_amount_out(cur, next, l, zero_for_one);
    let fee = spec_fee_amount(amt, fee_rate, is_base_input, next, tgt, a_in);
    &&& !(l == 0 && amt != 0)
    &&& a_in <= u64::MAX
    &&& a_out <= u64::MAX
    &&& fee <= u64::MAX
}

/// Law: a zero fee rate charges a zero pip fee. For the exact-input case
/// this holds whenever the step reaches the target price; a step that stops
/// short grants the leftover input dust as fee even at a zero rate.
pub proof fn lemma_zero_fee_rate(
    cur: int,
    tgt: int,
    l: int,
    amt: int,
    is_base_input: bool,
    zero_for_one: bool,
)
    requires
        is_base_input ==> spec_sqrt_price_next(cur, tgt, l, amt, 0, true, zero_for_one) == tgt,
    ensures
        ({
            let next = spec_sqrt_price_next(cur, tgt, l, amt, 0, is_base_input, zero_for_one);
            let a_in = spec_amount_in(cur, next, l, zero_for_one);
            spec_fee_amount(amt, 0, is_base_input, next, tgt, a_in) == 0
        }),
{
    let next = spec_sqrt_price_next(cur, tgt, l, amt, 0, is_base_input, zero_for_one);
    let a_in = spec_amount_in(cur, next, l, zero_for_one);
    if !(is_base_input && next != tgt) {
        assert(a_in * 0 == 0) by (nonlinear_arith);
        lemma_div_bounds(0, 1_000_000, 0);
    }
}

/// Law: when the target price equals the current price, the step moves
/// nothing at all, whatever amount remains: the end price stays put and
/// both token amounts and the fee are zero.
pub proof fn lemma_target_equals_current(
    cur: int,
    l: int,
    amt: int,
    fee_rate: int,
    is_base_input: bool,
    zero_for_one: bool,
)
    requires
        1 <= cur,
        0 <= l,
        0 <= amt,
        0 <= fee_rate < 1_000_000,
    ensures
        ({
            let next = spec_sqrt_price_next(cur, cur, l, amt, fee_rate, is_base_input, zero_for_one);
            &&& next == cur
            &&& spec_amount_in(cur, next, l, zero_for_one) == 0
            &&& spec_amount_out(cur, next, l, zero_for_one) == 0
            &&& spec_fee_amount(amt, fee_rate, is_base_input, next, cur, 0) == 0
        }),
{
    lemma_delta_zero_width(cur, l, true);
    lemma_delta_zero_width(cur, l, false);
    assert(amt * (1_000_000 - fee_rate) >= 0) by (nonlinear_arith)
        requires
            amt >= 0,
            fee_rate < 1_000_000,
    ;
    lemma_div_bounds(amt * (1_000_000 - fee_rate), 1_000_000, 0);
    assert(0 * fee_rate == 0) by (nonlinear_arith);
    lemma_div_bounds(0, 1_000_000 - fee_rate, 0);
}

/// The end price of an exact-input step stays within the 128-bit price
/// range on the side the direction dictates.
proof fn lemma_next_from_input_bounds(cur: int, l: int, lf: int, zero_for_one: bool)
    requires
        1 <= cur,
        1 <= l,
        0 <= lf,
    ensures
        ({
            let n = spec_next_sqrt_price_from_input(cur, l, lf, zero_for_one);
            &&& (zero_for_one ==> 1 <= n <= cur)
            &&& (!zero_for_one ==> cur <= n)
        }),
{
    let k: int = p64();
    if zero_for_one {
        let num = (l * cur) * k;
        let den = l * k + lf * cur;
        assert(num >= 1 && den >= 1 && num <= den * cur && den * 0 == 0) by (nonlinear_arith)
            requires
                num == (l * cur) * k,
                den == l * k + lf * cur,
                l >= 1,
                cur >= 1,
                lf >= 0,
                k == 0x1_0000_0000_0000_0000,
        ;
        lemma_div_bounds(num, den, cur);
        lemma_div_bounds(num, den, 1);
    } else {
        assert(lf * k >= 0) by (nonlinear_arith)
            requires
                lf >= 0,
                k >= 1,
        ;
        lemma_div_bounds(lf * k, l, 0);
    }
}

/// More input never moves the end price of an exact-input step less far.
proof fn lemma_next_from_input_monotone(cur: int, l: int, lf_a: int, lf_b: int, zero_for_one: bool)
    requires
        1 <= cur,
        1 <= l,
        0 <= lf_a <= lf_b,
    ensures
        ({
            let na = spec_next_sqrt_price_from_input(cur, l, lf_a, zero_for_one);
            let nb = spec_next_sqrt_price_from_input(cur, l, lf_b, zero_for_one);
            &&& (zero_for_one ==> nb <= na)
            &&& (!zero_for_one ==> na <= nb)
        }),
{
    let k: int = p64();
    if zero_for_one {
        let num = (l * cur) * k;
        let da = l * k + lf_a * cur;
        let db = l * k + lf_b * cur;
        assert(1 <= da <= db && num >= 0) by (nonlinear_arith)
            requires
                num == (l * cur) * k,
                da == l * k + lf_a * cur,
                db == l * k + lf_b * cur,
                l >= 1,
                cur >= 1,
                0 <= lf_a <= lf_b,
                k == 0x1_0000_0000_0000_0000,
        ;
        let m = rounded_div(num, da, true);
        lemma_div_bounds(num, da, m);
        lemma_div_bounds(num, da, 0);
        assert(da * m <= db * m) by (nonlinear_arith)
            requires
                da <= db,
                m >= 0,
        ;
        lemma_div_bounds(num, db, m);
    } else {
        assert(0 <= lf_a * k <= lf_b * k) by (nonlinear_arith)
            requires
                0 <= lf_a <= lf_b,
                k >= 1,
        ;
        lemma_div_is_ordered(lf_a * k, lf_b * k, l);
    }
}

/// The closer the end price stands to the target side, the more input it
/// takes to get there: the charged input is antitone in the end price.
proof fn lemma_amount_in_price_antitone(cur: int, t_a: int, t_b: int, l: int, zero_for_one: bool)
    requires
        1 <= cur,
        1 <= l,
        zero_for_one ==> 1 <= t_b <= t_a <= cur,
        !zero_for_one ==> cur <= t_a <= t_b,
    ensures
        spec_amount_in(cur, t_a, l, zero_for_one) <= spec_amount_in(cur, t_b, l, zero_for_one),
{
    let k: int = p64();
    if zero_for_one {
        let aa = (l * (cur - t_a)) * k;
        let ba = t_a * cur;
        let ab = (l * (cur - t_b)) * k;
        let bb = t_b * cur;
        assert(ba >= 1 && bb >= 1 && aa >= 0 && ab >= 0 && aa * bb <= ab * ba) by (nonlinear_arith)
            requires
                aa == (l * (cur - t_a)) * k,
                ba == t_a * cur,
                ab == (l * (cur - t_b)) * k,
                bb == t_b * cur,
                1 <= t_b <= t_a <= cur,
                l >= 1,
                k >= 1,
        ;
        let m = rounded_div(ab, bb, true);
        lemma_div_bounds(ab, bb, m);
        lemma_div_bounds(ab, bb, 0);
        assert(aa <= ba * m) by (nonlinear_arith)
            requires
                aa * bb <= ab * ba,
                ab <= bb * m,
                bb >= 1,
                m >= 0,
                ba >= 0,
                aa >= 0,
        ;
        lemma_div_bounds(aa, ba, m);
    } else {
        assert(0 <= l * (t_a - cur) <= l * (t_b - cur)) by (nonlinear_arith)
            requires
                cur <= t_a <= t_b,
                l >= 1,
        ;
        let m = rounded_div(l * (t_b - cur), k, true);
        lemma_div_bounds(l * (t_b - cur), k, m);
        lemma_div_bounds(l * (t_b - cur), k, 0);
        lemma_div_bounds(l * (t_a - cur), k, m);
    }
}

/// Law: in the exact-input mode, a larger remaining amount never decreases
/// the input the step charges, and never moves the end price past the point
/// the smaller amount reached, which itself never crosses the target.
pub proof fn lemma_exact_input_monotone(
    cur: int,
    tgt: int,
    l: int,
    amt_a: int,
    amt_b: int,
    fee_rate: int,
    zero_for_one: bool,
)
    requires
        1 <= l,
        0 <= fee_rate < 1_000_000,
        zero_for_one ==> 1 <= tgt <= cur,
        !zero_for_one ==> 1 <= cur <= tgt,
        0 <= amt_a <= amt_b <= u64::MAX,
    ensures
        ({
            let next_a = spec_sqrt_price_next(cur, tgt, l, amt_a, fee_rate, true, zero_for_one);
            let next_b = spec_sqrt_price_next(cur, tgt, l, amt_b, fee_rate, true, zero_for_one);
            &&& spec_amount_in(cur, next_a, l, zero_for_one) <= spec_amount_in(
                cur,
                next_b,
                l,
                zero_for_one,
            )
            &&& (zero_for_one ==> tgt <= next_b <= next_a <= cur)
            &&& (!zero_for_one ==> cur <= next_a <= next_b <= tgt)
        }),
{
    let fr = fee_rate;
    let na = amt_a * (1_000_000 - fr);
    let nb = amt_b * (1_000_000 - fr);
    assert(0 <= na <= nb && nb < 1_000_000 * (amt_b + 1)) by (nonlinear_arith)
        requires
            na == amt_a * (1_000_000 - fr),
            nb == amt_b * (1_000_000 - fr),
            0 <= amt_a <= amt_b,
            0 <= fr < 1_000_000,
    ;
    lemma_div_is_ordered(na, nb, 1_000_000);
    lemma_div_bounds(na, 1_000_000, 0);
    lemma_div_bounds(nb, 1_000_000, amt_b);
    let lf_a = spec_amount_remaining_less_fee(amt_a, fr);
    let lf_b = spec_amount_remaining_less_fee(amt_b, fr);
    let ra = spec_reaches_target(cur, tgt, l, amt_a, fr, true, zero_for_one);
    let rb = spec_reaches_target(cur, tgt, l, amt_b, fr, true, zero_for_one);
    if ra && !rb {
        assert(false);
    }
    if ra && rb {
        // both reach the target: the steps agree entirely
    } else if rb {
        lemma_input_short_of_target(cur, tgt, l, lf_a, zero_for_one);
        lemma_next_from_input_bounds(cur, l, lf_a, zero_for_one);
        let next_a = spec_next_sqrt_price_from_input(cur, l, lf_a, zero_for_one);
        lemma_amount_in_price_antitone(cur, next_a, tgt, l, zero_for_one);
    } else {
        lemma_input_short_of_target(cur, tgt, l, lf_a, zero_for_one);
        lemma_input_short_of_target(cur, tgt, l, lf_b, zero_for_one);
        lemma_next_from_input_bounds(cur, l, lf_a, zero_for_one);
        lemma_next_from_input_bounds(cur, l, lf_b, zero_for_one);
        lemma_next_from_input_monotone(cur, l, lf_a, lf_b, zero_for_one);
        let next_a = spec_next_sqrt_price_from_input(cur, l, lf_a, zero_for_one);
        let next_b = spec_next_sqrt_price_from_input(cur, l, lf_b, zero_for_one);
        lemma_amount_in_price_antitone(cur, next_a, next_b, l, zero_for_one);
    }
}

/// The amount of the fixed side needed to move all the way to the target
/// price: `Some` when it fits the 64-bit amount range, `None` for the
/// recoverable overflow that reads as "target not reachable".
pub fn calculate_amount_in_range(
    sqrt_price_current_x64: u128,
    sqrt_price_target_x64: u128,
    liquidity: u128,
    zero_for_one: bool,
    is_base_input: bool,
) -> (r: Result<Option<u64>, ErrorCode>)
    requires
        sqrt_price_current_x64 > 0,
        sqrt_price_target_x64 > 0,
    ensures
        ({
            let v: int = if is_base_input {
                spec_amount_in_to_target(
                    sqrt_price_current_x64 as int,
                    sqrt_price_target_x64 as int,
                    liquidity as int,
                    zero_for_one,
                )
            } else {
                spec_amount_out_to_target(
                    sqrt_price_current_x64 as int,
                    sqrt_price_target_x64 as int,
                    liquidity as int,
                    zero_for_one,
                )
            };
            &&& r is Ok
            &&& (r matches Ok(o) ==> match o {
                Some(q) => v <= u64::MAX && q == v,
                None => v > u64::MAX,
            })
        }),
{
    let result: Result<u64, ErrorCode> = if is_base_input {
        if zero_for_one {
            get_delta_amount_0_unsigned(
                sqrt_price_target_x64,
                sqrt_price_current_x64,
                liquidity,
                true,
            )
        } else {
            get_delta_amount_1_unsigned(
                sqrt_price_current_x64,
                sqrt_price_target_x64,
                liquidity,
                true,
            )
        }
    } else {
        if zero_for_one {
            get_delta_amount_1_unsigned(
                sqrt_price_target_x64,
                sqrt_price_current_x64,
                liquidity,
                false,
            )
        } else {
            get_delta_amount_0_unsigned(
                sqrt_price_current_x64,
                sqrt_price_target_x64,
                liquidity,
                false,
            )
        }
    };
    match result {
        Ok(v) => Ok(Some(v)),
        Err(e) => match e {
            ErrorCode::MaxTokenOverflow => Ok(None),
            _ => Err(ErrorCode::SqrtPriceLimitOverflow),
        },
    }
}

/// Computes the result of swapping some amount in, or amount out, given the
/// parameters of the swap: the reached price, both token amounts and the
/// fee, every one of them pinned by the specification functions above.
#[verifier::rlimit(100)]
pub fn compute_swap_step(
    sqrt_price_current_x64: u128,
    sqrt_price_target_x64: u128,
    liquidity: u128,
    amount_remaining: u64,
    fee_rate: u32,
    is_base_input: bool,
    zero_for_one: bool,
) -> (r: Result<SwapStep, ErrorCode>)
    requires
        sqrt_price_current_x64 > 0,
        sqrt_price_target_x64 > 0,
        fee_rate < 1_000_000,
        zero_for_one ==> sqrt_price_target_x64 <= sqrt_price_current_x64,
        !zero_for_one ==> sqrt_price_current_x64 <= sqrt_price_target_x64,
    ensures
        ({
            let cur = sqrt_price_current_x64 as int;
            let tgt = sqrt_price_target_x64 as int;
            let l = liquidity as int;
            let amt = amount_remaining as int;
            let fr = fee_rate as int;
            let next = spec_sqrt_price_next(cur, tgt, l, amt, fr, is_base_input, zero_for_one);
            let a_in = spec_amount_in(cur, next, l, zero_for_one);
            let a_out_raw = spec_amount_out(cur, next, l, zero_for_one);
            let fee = spec_fee_amount(amt, fr, is_base_input, next, tgt, a_in);
            &&& (r is Ok <==> spec_swap_step_ok(cur, tgt, l, amt, fr, is_base_input, zero_for_one))
            &&& (r matches Ok(s) ==> {
                &&& s.sqrt_price_next_x64 == next
                &&& s.amount_in == a_in
                &&& s.amount_out == if !is_base_input && a_out_raw > amt {
                    amt
                } else {
                    a_out_raw
                }
                &&& s.fee_amount == fee
                &&& (zero_for_one ==> tgt <= next <= cur)
                &&& (!zero_for_one ==> cur <= next <= tgt)
                &&& (is_base_input ==> a_in + fee <= amt)
                &&& (!is_base_input ==> s.amount_out <= amt)
            })
            &&& (r matches Err(e) ==> e == ErrorCode::SqrtPriceLimitOverflow || e
                == ErrorCode::MaxTokenOverflow)
        }),
{
    let ghost cur: int = sqrt_price_current_x64 as int;
    let ghost tgt: int = sqrt_price_target_x64 as int;
    let ghost l: int = liquidity as int;
    let ghost amt: int = amount_remaining as int;
    let ghost fr: int = fee_rate as int;
    if liquidity == 0 && amount_remaining != 0 {
        // zero liquidity cannot honor any nonzero amount
        return Err(ErrorCode::SqrtPriceLimitOverflow);
    }
    proof {
        assert(amt * (1_000_000 - fr) >= 0 && amt * (1_000_000 - fr) < 1_000_000 * (amt + 1))
            by (nonlinear_arith)
            requires
                amt >= 0,
                0 <= fr < 1_000_000,
        ;
        lemma_div_bounds(amt * (1_000_000 - fr), 1_000_000, amt);
    }
    let amount_remaining_less_fee: u64 = match mul_div_floor(
        amount_remaining,
        (FEE_RATE_DENOMINATOR_VALUE as u64) - (fee_rate as u64),
        FEE_RATE_DENOMINATOR_VALUE as u64,
    ) {
        Ok(v) => v,
        Err(e) => {
            proof {
                assert(false);
            }
            return Err(e);
        },
    };
    let ghost lf: int = spec_amount_remaining_less_fee(amt, fr);
    proof {
        assert(amount_remaining_less_fee as int == lf);
        assert(0 <= lf <= amt);
    }
    let ghost in_full: int = spec_amount_in_to_target(cur, tgt, l, zero_for_one);
    let ghost out_full: int = spec_amount_out_to_target(cur, tgt, l, zero_for_one);
    let ghost reaches: bool = spec_reaches_target(cur, tgt, l, amt, fr, is_base_input, zero_for_one);
    let ghost next_spec: int = spec_sqrt_price_next(cur, tgt, l, amt, fr, is_base_input, zero_for_one);

    let mut amount_in: u64 = 0;
    let mut amount_out: u64 = 0;
    let mut reached: bool = false;
    let sqrt_price_next_x64: u128;
    if is_base_input {
        let amount_in_range: Option<u64> = match calculate_amount_in_range(
            sqrt_price_current_x64,
            sqrt_price_target_x64,
            liquidity,
            zero_for_one,
            true,
        ) {
            Ok(v) => v,
            Err(e) => {
                proof {
                    assert(false);
                }
                return Err(e);
            },
        };
        let mut known: bool = false;
        match amount_in_range {
            Some(v) => {
                amount_in = v;
                known = true;
            },
            None => {},
        }
        if known && amount_remaining_less_fee >= amount_in {
            reached = true;
            sqrt_price_next_x64 = sqrt_price_target_x64;
        } else {
            proof {
                if l == 0 {
                    lemma_delta_zero_liquidity(tgt, cur, true);
                    lemma_delta_zero_liquidity(cur, tgt, true);
                    assert(false);
                }
                assert(!reaches);
                lemma_input_short_of_target(cur, tgt, l, lf, zero_for_one);
                lemma_input_amount_covers_delta(cur, l, lf, zero_for_one);
            }
            sqrt_price_next_x64 = match get_next_sqrt_price_from_input(
                sqrt_price_current_x64,
                liquidity,
                amount_remaining_less_fee,
                zero_for_one,
            ) {
                Ok(v) => v,
                Err(e) => {
                    proof {
                        assert(false);
                    }
                    return Err(e);
                },
            };
            proof {
                // the step stopped short of the target price: the amount the
                // computed price charges stays under the budget, which the
                // full move to the target strictly exceeds
                assert(spec_amount_in(cur, sqrt_price_next_x64 as int, l, zero_for_one) <= lf);
                assert(in_full > lf);
                assert(sqrt_price_next_x64 as int != tgt);
            }
        }
    } else {
        let amount_out_range: Option<u64> = match calculate_amount_in_range(
            sqrt_price_current_x64,
            sqrt_price_target_x64,
            liquidity,
            zero_for_one,
            false,
        ) {
            Ok(v) => v,
            Err(e) => {
                proof {
                    assert(false);
                }
                return Err(e);
            },
        };
        let mut known: bool = false;
        match amount_out_range {
            Some(v) => {
                amount_out = v;
                known = true;
            },
            None => {},
        }
        if known && amount_remaining >= amount_out {
            reached = true;
            sqrt_price_next_x64 = sqrt_price_target_x64;
        } else {
            proof {
                if l == 0 {
                    lemma_delta_zero_liquidity(tgt, cur, false);
                    lemma_delta_zero_liquidity(cur, tgt, false);
                    assert(false);
                }
                assert(!reaches);
                lemma_output_short_of_target(cur, tgt, l, amt, zero_for_one);
            }
            sqrt_price_next_x64 = match get_next_sqrt_price_from_output(
                sqrt_price_current_x64,
                liquidity,
                amount_remaining,
                zero_for_one,
            ) {
                Ok(v) => v,
                Err(e) => {
                    proof {
                        assert(false);
                    }
                    return Err(e);
                },
            };
        }
    }
    proof {
        assert(reached == reaches);
        assert(sqrt_price_next_x64 as int == next_spec);
        assert(zero_for_one ==> tgt <= next_spec <= cur);
        assert(!zero_for_one ==> cur <= next_spec <= tgt);
        assert(is_base_input && !reached ==> next_spec != tgt && spec_amount_in(
            cur,
            next_spec,
            l,
            zero_for_one,
        ) <= lf);
        assert(is_base_input && reached ==> amount_in as int == spec_amount_in(
            cur,
            next_spec,
            l,
            zero_for_one,
        ) && amount_in <= amount_remaining_less_fee);
    }
    let ghost a_in_spec: int = spec_amount_in(cur, next_spec, l, zero_for_one);
    let ghost a_out_spec: int = spec_amount_out(cur, next_spec, l, zero_for_one);

    if zero_for_one {
        if !(reached && is_base_input) {
            amount_in = match get_delta_amount_0_unsigned(
                sqrt_price_next_x64,
                sqrt_price_current_x64,
                liquidity,
                true,
            ) {
                Ok(v) => v,
                Err(e) => {
                    proof {
                        assert(!is_base_input);
                        assert(a_in_spec > u64::MAX);
                    }
                    return Err(e);
                },
            };
        }
        if !(reached && !is_base_input) {
            amount_out = match get_delta_amount_1_unsigned(
                sqrt_price_next_x64,
                sqrt_price_current_x64,
                liquidity,
                false,
            ) {
                Ok(v) => v,
                Err(e) => {
                    proof {
                        assert(a_out_spec > u64::MAX);
                    }
                    return Err(e);
                },
            };
        }
    } else {
        if !(reached && is_base_input) {
            amount_in = match get_delta_amount_1_unsigned(
                sqrt_price_current_x64,
                sqrt_price_next_x64,
                liquidity,
                true,
            ) {
                Ok(v) => v,
                Err(e) => {
                    proof {
                        assert(!is_base_input);
                        assert(a_in_spec > u64::MAX);
                    }
                    return Err(e);
                },
            };
        }
        if !(reached && !is_base_input) {
            amount_out = match get_delta_amount_0_unsigned(
                sqrt_price_current_x64,
                sqrt_price_next_x64,
                liquidity,
                false,
            ) {
                Ok(v) => v,
                Err(e) => {
                    proof {
                        assert(a_out_spec > u64::MAX);
                    }
                    return Err(e);
                },
            };
        }
    }
    proof {
        assert(amount_in as int == a_in_spec);
        assert(amount_out as int == a_out_spec);
    }

    if !is_base_input && amount_out > amount_remaining {
        amount_out = amount_remaining;
    }

    let fee_amount: u64;
    if is_base_input && sqrt_price_next_x64 != sqrt_price_target_x64 {
        // the target was not reached: the leftover input is granted as fee
        fee_amount = amount_remaining - amount_in;
    } else {
        proof {
            if is_base_input {
                // the exact-input step reached the target, so the input stays
                // within the fee-reduced budget and the pip fee fits on top
                assert(reached);
                lemma_div_bounds(amt * (1_000_000 - fr), 1_000_000, a_in_spec);
                assert(a_in_spec <= amt && a_in_spec * fr >= 0 && a_in_spec * fr <= (1_000_000
                    - fr) * (amt - a_in_spec)) by (nonlinear_arith)
                    requires
                        1_000_000 * a_in_spec <= amt * (1_000_000 - fr),
                        0 <= fr < 1_000_000,
                        0 <= a_in_spec,
                        0 <= amt,
                ;
                lemma_div_bounds(a_in_spec * fr, 1_000_000 - fr, amt - a_in_spec);
            }
        }
        fee_amount = match mul_div_ceil(
            amount_in,
            fee_rate as u64,
            (FEE_RATE_DENOMINATOR_VALUE as u64) - (fee_rate as u64),
        ) {
            Ok(v) => v,
            Err(e) => {
                proof {
                    assert(!is_base_input);
                }
                return Err(e);
            },
        };
    }
    proof {
        assert(fee_amount as int == spec_fee_amount(amt, fr, is_base_input, next_spec, tgt, a_in_spec));
        assert(is_base_input ==> a_in_spec + fee_amount <= amt);
        assert(spec_swap_step_ok(cur, tgt, l, amt, fr, is_base_input, zero_for_one));
    }
    Ok(
        SwapStep {
            sqrt_price_next_x64,
            amount_in,
            amount_out,
            fee_amount,
        },
    )
}

} // verus!
