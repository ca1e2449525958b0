//! The square-root-price layer: given a price, liquidity and an amount,
//! where does the price land after consuming that amount, in either trade
//! direction and for either the exact-input or the exact-output case.
//!
//! Rounding always favors the protocol: a falling price is rounded up and a
//! rising price is pushed at least as far as the true requirement, so the
//! reported price never overstates the liquidity available.

use vstd::prelude::*;
use vstd::arithmetic::div_mod::lemma_fundamental_div_mod;
use vstd::arithmetic::mul::lemma_mul_upper_bound;

use crate::big_num::{add2, lemma_shl64_small, lemma_val2_shl64, lt2, mul_shl64_div, mul_u128, sub2, val2};
use crate::error::ErrorCode;
use crate::full_math::{lemma_ceil_split, lemma_div_bounds, p128, p64, rounded_div};
use crate::liquidity_math::{lemma_delta_zero_width, spec_delta_amount_0, spec_delta_amount_1};

verus! {

/// Price after adding `amount` of token0 (price falls) or removing it
/// (price rises): `ceil(l * sp * 2^64 / (l * 2^64 +- amount * sp))`, the
/// ceiling favoring the protocol.
pub open spec fn spec_next_sqrt_price_amount_0(sp: int, l: int, amount: int, add: bool) -> int {
    let den = if add {
        l * p64() + amount * sp
    } else {
        l * p64() - amount * sp
    };
    rounded_div((l * sp) * p64(), den, true)
}

/// Price after adding `amount` of token1 (price rises) or removing it
/// (price falls): `sp +- amount * 2^64 / l`, floored when adding and
/// ceiled when removing, both favoring the protocol.
pub open spec fn spec_next_sqrt_price_amount_1(sp: int, l: int, amount: int, add: bool) -> int {
    if add {
        sp + (amount * p64()) / l
    } else {
        sp - rounded_div(amount * p64(), l, true)
    }
}

/// Price reached after consuming `amount_in` of the sold token.
pub open spec fn spec_next_sqrt_price_from_input(
    sp: int,
    l: int,
    amount_in: int,
    zero_for_one: bool,
) -> int {
    if zero_for_one {
        spec_next_sqrt_price_amount_0(sp, l, amount_in, true)
    } else {
        spec_next_sqrt_price_amount_1(sp, l, amount_in, true)
    }
}

/// Price reached after producing `amount_out` of the bought token.
pub open spec fn spec_next_sqrt_price_from_output(
    sp: int,
    l: int,
    amount_out: int,
    zero_for_one: bool,
) -> int {
    if zero_for_one {
        spec_next_sqrt_price_amount_1(sp, l, amount_out, false)
    } else {
        spec_next_sqrt_price_amount_0(sp, l, amount_out, false)
    }
}

fn get_next_sqrt_price_from_amount_0_rounding_up(
    sqrt_price_x64: u128,
    liquidity: u128,
    amount: u64,
    add: bool,
) -> (r: Result<u128, ErrorCode>)
    requires
        sqrt_price_x64 > 0,
        liquidity > 0,
    ensures
        ({
            let spi = sqrt_price_x64 as int;
            let li = liquidity as int;
            let ai = amount as int;
            let v: int = spec_next_sqrt_price_amount_0(spi, li, ai, add);
            &&& (add ==> r is Ok)
            &&& (!add ==> (r is Ok <==> (ai * spi < li * p64() && v < p128())))
            &&& (r matches Ok(next) ==> next == v && 0 < v && (add ==> v <= spi) && (!add ==> spi
                <= v))
            &&& (r matches Err(e) ==> e == ErrorCode::SqrtPriceLimitOverflow)
        }),
{
    let ghost spi: int = sqrt_price_x64 as int;
    let ghost li: int = liquidity as int;
    let ghost ai: int = amount as int;
    let ghost k: int = p64();
    let (ph, pl) = mul_u128(amount as u128, sqrt_price_x64);
    let lh: u128 = liquidity >> 64;
    let ll: u128 = liquidity << 64;
    proof {
        lemma_val2_shl64(liquidity);
        lemma_mul_upper_bound(
            (amount as u128) as int,
            u64::MAX as int,
            sqrt_price_x64 as int,
            u128::MAX as int,
        );
        assert((amount as u128) as int == ai);
        assert(val2(ph, pl) == ai * spi);
        assert(val2(lh, ll) == li * k);
        assert((li * spi) * k >= k && ai * spi >= 0) by (nonlinear_arith)
            requires
                li >= 1,
                spi >= 1,
                ai >= 0,
                k == 0x1_0000_0000_0000_0000,
        ;
    }
    if add {
        let (d1, d0) = add2(lh, ll, ph, pl);
        let ghost den: int = li * k + ai * spi;
        proof {
            assert(val2(d1, d0) == den);
            assert((li * spi) * k <= den * spi && den * (spi - 1) == den * spi - den)
                by (nonlinear_arith)
                requires
                    den == li * k + ai * spi,
                    li >= 0,
                    ai >= 0,
                    spi >= 0,
                    k >= 0,
            ;
            lemma_div_bounds((li * spi) * k, den, spi);
            lemma_div_bounds((li * spi) * k, den, 1);
        }
        match mul_shl64_div(liquidity, sqrt_price_x64, d1, d0, true) {
            None => {
                proof {
                    assert(false);
                }
                Err(ErrorCode::SqrtPriceLimitOverflow)
            },
            Some(q) => Ok(q),
        }
    } else {
        if !lt2(ph, pl, lh, ll) {
            return Err(ErrorCode::SqrtPriceLimitOverflow);
        }
        let (d1, d0) = sub2(lh, ll, ph, pl);
        let ghost den: int = li * k - ai * spi;
        proof {
            assert(val2(d1, d0) == den);
            assert(den * spi <= (li * spi) * k && den * (spi - 1) == den * spi - den)
                by (nonlinear_arith)
                requires
                    den == li * k - ai * spi,
                    li >= 0,
                    ai >= 0,
                    spi >= 0,
                    k >= 0,
            ;
            lemma_div_bounds((li * spi) * k, den, spi);
        }
        match mul_shl64_div(liquidity, sqrt_price_x64, d1, d0, true) {
            None => Err(ErrorCode::SqrtPriceLimitOverflow),
            Some(q) => Ok(q),
        }
    }
}

fn get_next_sqrt_price_from_amount_1_rounding_down(
    sqrt_price_x64: u128,
    liquidity: u128,
    amount: u64,
    add: bool,
) -> (r: Result<u128, ErrorCode>)
    requires
        sqrt_price_x64 > 0,
        liquidity > 0,
    ensures
        ({
            let spi = sqrt_price_x64 as int;
            let li = liquidity as int;
            let ai = amount as int;
            let v: int = spec_next_sqrt_price_amount_1(spi, li, ai, add);
            &&& (add ==> (r is Ok <==> v <= u128::MAX))
            &&& (!add ==> (r is Ok <==> 0 < v))
            &&& (r matches Ok(next) ==> next == v && 0 < v && (add ==> spi <= v) && (!add ==> v
                <= spi))
            &&& (r matches Err(e) ==> e == ErrorCode::SqrtPriceLimitOverflow)
        }),
{
    let ghost spi: int = sqrt_price_x64 as int;
    let ghost li: int = liquidity as int;
    let ghost ai: int = amount as int;
    let shifted: u128 = (amount as u128) << 64;
    proof {
        lemma_shl64_small(amount as u128);
        assert((amount as u128) as int == ai);
        assert(shifted as int == ai * p64());
    }
    if add {
        let quotient: u128 = shifted / liquidity;
        proof {
            lemma_div_bounds(shifted as int, li, 0);
        }
        if sqrt_price_x64 <= u128::MAX - quotient {
            Ok(sqrt_price_x64 + quotient)
        } else {
            Err(ErrorCode::SqrtPriceLimitOverflow)
        }
    } else {
        let q: u128 = shifted / liquidity;
        let rem: u128 = shifted % liquidity;
        proof {
            lemma_ceil_split(shifted as int, li);
            lemma_div_bounds(shifted as int, li, 0);
            assert(li * (shifted as int + 1) > shifted as int) by (nonlinear_arith)
                requires
                    li >= 1,
                    shifted as int >= 0,
            ;
            lemma_div_bounds(shifted as int, li, shifted as int);
        }
        let quotient: u128 = if rem == 0 {
            q
        } else {
            q + 1
        };
        if quotient < sqrt_price_x64 {
            Ok(sqrt_price_x64 - quotient)
        } else {
            Err(ErrorCode::SqrtPriceLimitOverflow)
        }
    }
}

/// Price reached after consuming `amount_in` of the sold token. Fails when
/// liquidity is zero and, for a rising price, when the result would leave the
/// 128-bit price range.
pub fn get_next_sqrt_price_from_input(
    sqrt_price_x64: u128,
    liquidity: u128,
    amount_in: u64,
    zero_for_one: bool,
) -> (r: Result<u128, ErrorCode>)
    requires
        sqrt_price_x64 > 0,
    ensures
        ({
            let v: int = spec_next_sqrt_price_from_input(
                sqrt_price_x64 as int,
                liquidity as int,
                amount_in as int,
                zero_for_one,
            );
            &&& (liquidity == 0 ==> r is Err)
            &&& (liquidity > 0 && zero_for_one ==> r is Ok)
            &&& (liquidity > 0 && !zero_for_one ==> (r is Ok <==> v <= u128::MAX))
            &&& (r matches Ok(next) ==> next == v && 0 < v && (zero_for_one ==> v
                <= sqrt_price_x64) && (!zero_for_one ==> sqrt_price_x64 <= v))
            &&& (r matches Err(e) ==> e == ErrorCode::SqrtPriceLimitOverflow)
        }),
{
    if liquidity == 0 {
        return Err(ErrorCode::SqrtPriceLimitOverflow);
    }
    if zero_for_one {
        get_next_sqrt_price_from_amount_0_rounding_up(sqrt_price_x64, liquidity, amount_in, true)
    } else {
        get_next_sqrt_price_from_amount_1_rounding_down(sqrt_price_x64, liquidity, amount_in, true)
    }
}

/// Price reached after producing `amount_out` of the bought token. Fails when
/// liquidity is zero, when the demanded output exhausts the range (the price
/// would become non-positive or leave its 128-bit range), or when the output
/// exceeds what the whole price range holds.
pub fn get_next_sqrt_price_from_output(
    sqrt_price_x64: u128,
    liquidity: u128,
    amount_out: u64,
    zero_for_one: bool,
) -> (r: Result<u128, ErrorCode>)
    requires
        sqrt_price_x64 > 0,
    ensures
        ({
            let v: int = spec_next_sqrt_price_from_output(
                sqrt_price_x64 as int,
                liquidity as int,
                amount_out as int,
                zero_for_one,
            );
            &&& (liquidity == 0 ==> r is Err)
            &&& (liquidity > 0 && zero_for_one ==> (r is Ok <==> 0 < v))
            &&& (liquidity > 0 && !zero_for_one ==> (r is Ok <==> ((amount_out as int)
                * (sqrt_price_x64 as int) < (liquidity as int) * p64() && v < p128())))
            &&& (r matches Ok(next) ==> next == v && 0 < v && (zero_for_one ==> v
                <= sqrt_price_x64) && (!zero_for_one ==> sqrt_price_x64 <= v))
            &&& (r matches Err(e) ==> e == ErrorCode::SqrtPriceLimitOverflow)
        }),
{
    if liquidity == 0 {
        return Err(ErrorCode::SqrtPriceLimitOverflow);
    }
    if zero_for_one {
        get_next_sqrt_price_from_amount_1_rounding_down(sqrt_price_x64, liquidity, amount_out, false)
    } else {
        get_next_sqrt_price_from_amount_0_rounding_up(sqrt_price_x64, liquidity, amount_out, false)
    }
}

/// Law: the rounding of `get_next_sqrt_price_from_input` favors the protocol.
/// The delta amount charged between the old and the new price, rounded up,
/// never exceeds the amount that was paid in.
pub proof fn lemma_input_amount_covers_delta(sp: int, l: int, amount_in: int, zero_for_one: bool)
    requires
        1 <= sp,
        1 <= l,
        0 <= amount_in,
    ensures
        ({
            let next = spec_next_sqrt_price_from_input(sp, l, amount_in, zero_for_one);
            if zero_for_one {
                spec_delta_amount_0(next, sp, l, true) <= amount_in
            } else {
                spec_delta_amount_1(sp, next, l, true) <= amount_in
            }
        }),
{
    let k: int = p64();
    if zero_for_one {
        let den = l * k + amount_in * sp;
        let num = (l * sp) * k;
        assert(den >= k && num >= k && (l * sp) * k <= den * sp && den * (sp - 1) == den * sp - den)
            by (nonlinear_arith)
            requires
                den == l * k + amount_in * sp,
                num == (l * sp) * k,
                l >= 1,
                sp >= 1,
                amount_in >= 0,
                k == 0x1_0000_0000_0000_0000,
        ;
        lemma_div_bounds(num, den, sp);
        lemma_div_bounds(num, den, 1);
        let next = rounded_div(num, den, true);
        lemma_div_bounds(num, den, next);
        // next * den covers the numerator, which is exactly what bounds the
        // recomputed delta
        assert((l * (sp - next)) * k <= (next * sp) * amount_in && next * sp >= 1 && (l * (sp
            - next)) * k >= 0) by (nonlinear_arith)
            requires
                den == l * k + amount_in * sp,
                num == (l * sp) * k,
                num <= den * next,
                1 <= next <= sp,
                l >= 1,
                sp >= 1,
                amount_in >= 0,
                k == 0x1_0000_0000_0000_0000,
        ;
        lemma_div_bounds((l * (sp - next)) * k, next * sp, amount_in);
    } else {
        let num = amount_in * k;
        lemma_fundamental_div_mod(num, l);
        lemma_div_bounds(num, l, 0);
        let u = num / l;
        assert(l * u <= num && l * u >= 0) by (nonlinear_arith)
            requires
                num == l * u + num % l,
                0 <= num % l,
                l >= 1,
                u >= 0,
        ;
        assert(k * amount_in == amount_in * k) by (nonlinear_arith);
        lemma_div_bounds(l * u, k, amount_in);
        assert(l * ((sp + u) - sp) == l * u) by (nonlinear_arith);
    }
}

/// When the given input cannot pay for the full move to the target price, the
/// computed next price stops strictly short of crossing the target.
pub proof fn lemma_input_short_of_target(sp: int, tgt: int, l: int, amt: int, zero_for_one: bool)
    requires
        1 <= l,
        0 <= amt,
        zero_for_one ==> 1 <= tgt <= sp,
        !zero_for_one ==> 1 <= sp <= tgt,
        zero_for_one ==> amt < spec_delta_amount_0(tgt, sp, l, true),
        !zero_for_one ==> amt < spec_delta_amount_1(sp, tgt, l, true),
    ensures
        ({
            let next = spec_next_sqrt_price_from_input(sp, l, amt, zero_for_one);
            &&& (zero_for_one ==> next >= tgt)
            &&& (!zero_for_one ==> next <= tgt)
        }),
{
    let k: int = p64();
    if zero_for_one {
        if tgt == sp {
            lemma_delta_zero_width(sp, l, true);
        } else {
            let a = (l * (sp - tgt)) * k;
            let b = tgt * sp;
            assert(b >= 1 && a >= 0) by (nonlinear_arith)
                requires
                    a == (l * (sp - tgt)) * k,
                    b == tgt * sp,
                    1 <= tgt < sp,
                    l >= 1,
                    k >= 1,
            ;
            lemma_div_bounds(a, b, amt);
            // amt < ceil(a / b) forces a > b * amt
            let den = l * k + amt * sp;
            let num = (l * sp) * k;
            assert(num >= den * tgt && den >= 1 && num >= 0) by (nonlinear_arith)
                requires
                    a == (l * (sp - tgt)) * k,
                    b == tgt * sp,
                    a > b * amt,
                    den == l * k + amt * sp,
                    num == (l * sp) * k,
                    1 <= tgt < sp,
                    l >= 1,
                    amt >= 0,
                    k >= 1,
            ;
            lemma_div_bounds(num, den, tgt);
        }
    } else {
        if tgt == sp {
            lemma_delta_zero_width(sp, l, true);
        } else {
            let a = l * (tgt - sp);
            assert(a >= 0) by (nonlinear_arith)
                requires
                    a == l * (tgt - sp),
                    l >= 1,
                    tgt > sp,
            ;
            lemma_div_bounds(a, k, amt);
            // amt < ceil(a / 2^64) forces a > 2^64 * amt
            let num = amt * k;
            assert(num < l * ((tgt - sp - 1) + 1) && num >= 0) by (nonlinear_arith)
                requires
                    a == l * (tgt - sp),
                    a > k * amt,
                    num == amt * k,
                    l >= 1,
                    tgt > sp,
                    amt >= 0,
                    k >= 1,
            ;
            lemma_div_bounds(num, l, tgt - sp - 1);
        }
    }
}

/// When the demanded output exceeds what the move to the target supplies, the
/// computed next price stops short of crossing the target, and the price
/// computation itself stays well defined.
pub proof fn lemma_output_short_of_target(sp: int, tgt: int, l: int, amt: int, zero_for_one: bool)
    requires
        1 <= l,
        0 <= amt,
        zero_for_one ==> 1 <= tgt <= sp,
        !zero_for_one ==> 1 <= sp <= tgt,
        zero_for_one ==> amt < spec_delta_amount_1(tgt, sp, l, false),
        !zero_for_one ==> amt < spec_delta_amount_0(sp, tgt, l, false),
    ensures
        ({
            let next = spec_next_sqrt_price_from_output(sp, l, amt, zero_for_one);
            &&& (zero_for_one ==> tgt <= next)
            &&& (!zero_for_one ==> next <= tgt && amt * sp < l * p64())
        }),
{
    let k: int = p64();
    if zero_for_one {
        if tgt == sp {
            lemma_delta_zero_width(sp, l, false);
        } else {
            let a = l * (sp - tgt);
            assert(a >= 0) by (nonlinear_arith)
                requires
                    a == l * (sp - tgt),
                    l >= 1,
                    sp > tgt,
            ;
            lemma_div_bounds(a, k, amt + 1);
            // amt + 1 <= floor(a / 2^64), so a >= 2^64 * (amt + 1)
            let num = amt * k;
            assert(num <= l * (sp - tgt) && num >= 0) by (nonlinear_arith)
                requires
                    a == l * (sp - tgt),
                    a >= k * (amt + 1),
                    num == amt * k,
                    l >= 1,
                    sp > tgt,
                    amt >= 0,
                    k >= 1,
            ;
            lemma_div_bounds(num, l, sp - tgt);
        }
    } else {
        if tgt == sp {
            lemma_delta_zero_width(sp, l, false);
        } else {
            let a = (l * (tgt - sp)) * k;
            let b = sp * tgt;
            assert(b >= 1 && a >= 0) by (nonlinear_arith)
                requires
                    a == (l * (tgt - sp)) * k,
                    b == sp * tgt,
                    1 <= sp < tgt,
                    l >= 1,
                    k >= 1,
            ;
            lemma_div_bounds(a, b, amt + 1);
            // amt + 1 <= floor(a / b), so a >= b * (amt + 1)
            let den = l * k - amt * sp;
            let num = (l * sp) * k;
            assert(amt * sp < l * k && num <= den * tgt && den >= 1 && num >= 0)
                by (nonlinear_arith)
                requires
                    a == (l * (tgt - sp)) * k,
                    b == sp * tgt,
                    a >= b * (amt + 1),
                    den == l * k - amt * sp,
                    num == (l * sp) * k,
                    1 <= sp < tgt,
                    l >= 1,
                    amt >= 0,
                    k >= 1,
            ;
            lemma_div_bounds(num, den, tgt);
        }
    }
}

/// Law: feeding the amount charged for a price move back into the input
/// price computation moves the price at least as far as the move it paid
/// for; the protocol never under-collects on the round trip.
pub proof fn lemma_round_trip_amount_in(sp: int, t: int, l: int, zero_for_one: bool)
    requires
        1 <= l,
        zero_for_one ==> 1 <= t <= sp,
        !zero_for_one ==> 1 <= sp <= t,
    ensures
        ({
            let a_in = if zero_for_one {
                spec_delta_amount_0(t, sp, l, true)
            } else {
                spec_delta_amount_1(sp, t, l, true)
            };
            let back = spec_next_sqrt_price_from_input(sp, l, a_in, zero_for_one);
            &&& (zero_for_one ==> back <= t)
            &&& (!zero_for_one ==> back >= t)
        }),
{
    let k: int = p64();
    if zero_for_one {
        let a = (l * (sp - t)) * k;
        let b = t * sp;
        assert(b >= 1 && a >= 0) by (nonlinear_arith)
            requires
                a == (l * (sp - t)) * k,
                b == t * sp,
                1 <= t <= sp,
                l >= 1,
                k >= 1,
        ;
        let a_in = rounded_div(a, b, true);
        lemma_div_bounds(a, b, a_in);
        lemma_div_bounds(a, b, 0);
        // a_in * b >= a
        let den = l * k + a_in * sp;
        let num = (l * sp) * k;
        assert(num <= den * t && den >= 1 && num >= 0) by (nonlinear_arith)
            requires
                a == (l * (sp - t)) * k,
                b == t * sp,
                a <= b * a_in,
                den == l * k + a_in * sp,
                num == (l * sp) * k,
                1 <= t <= sp,
                l >= 1,
                a_in >= 0,
                k >= 1,
        ;
        lemma_div_bounds(num, den, t);
    } else {
        let a = l * (t - sp);
        assert(a >= 0) by (nonlinear_arith)
            requires
                a == l * (t - sp),
                l >= 1,
                t >= sp,
        ;
        let a_in = rounded_div(a, k, true);
        lemma_div_bounds(a, k, a_in);
        lemma_div_bounds(a, k, 0);
        // a_in * 2^64 >= a
        let num = a_in * k;
        assert(num >= l * (t - sp) && num >= 0) by (nonlinear_arith)
            requires
                a == l * (t - sp),
                a <= k * a_in,
                num == a_in * k,
                l >= 1,
                t >= sp,
                a_in >= 0,
                k >= 1,
        ;
        lemma_div_bounds(num, l, t - sp);
    }
}

} // verus!
