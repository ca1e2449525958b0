//! The wide-integer layer: 128x128-bit multiplication carried exactly in two
//! 128-bit halves, 256-bit addition, subtraction and comparison over such
//! halves, and division of a 384-bit scratch value by a 256-bit divisor.
//!
//! These integers exist only as scratch space for multiply-then-divide: a
//! product of two 128-bit operands must not lose bits before the division
//! that follows it.

use vstd::prelude::*;
use vstd::arithmetic::div_mod::lemma_fundamental_div_mod_converse;
use vstd::arithmetic::mul::lemma_mul_upper_bound;

use crate::full_math::{lemma_ceil_split, lemma_div_bounds, p128, p64, rounded_div};

verus! {

/// Mathematical value of a 256-bit quantity given as high and low 128-bit
/// halves.
pub open spec fn val2(hi: u128, lo: u128) -> int {
    hi * 0x1_0000_0000_0000_0000_0000_0000_0000_0000int + lo
}

/// Mathematical value of a 384-bit quantity given as three 128-bit chunks,
/// most significant first.
pub open spec fn val3(w2: u128, w1: u128, w0: u128) -> int {
    w2 * 0x1_0000_0000_0000_0000_0000_0000_0000_0000_0000_0000_0000_0000_0000_0000_0000_0000int
        + w1 * 0x1_0000_0000_0000_0000_0000_0000_0000_0000int + w0
}

/// Splitting a 128-bit value at bit 64.
proof fn lemma_split64(x: u128)
    ensures
        x == (x >> 64) * 0x1_0000_0000_0000_0000 + (x & 0xFFFF_FFFF_FFFF_FFFF),
        (x >> 64) < 0x1_0000_0000_0000_0000,
        (x & 0xFFFF_FFFF_FFFF_FFFF) < 0x1_0000_0000_0000_0000,
{
    assert(x == (x >> 64) * 0x1_0000_0000_0000_0000 + (x & 0xFFFF_FFFF_FFFF_FFFF) && (x >> 64)
        < 0x1_0000_0000_0000_0000 && (x & 0xFFFF_FFFF_FFFF_FFFF) < 0x1_0000_0000_0000_0000)
        by (bit_vector);
}

/// Shifting left by 64 keeps exactly the low half, scaled.
proof fn lemma_shl64(x: u128)
    ensures
        (x << 64) == (x & 0xFFFF_FFFF_FFFF_FFFF) * 0x1_0000_0000_0000_0000,
        (x << 64) <= 0xFFFF_FFFF_FFFF_FFFF_0000_0000_0000_0000u128,
{
    assert((x << 64) == (x & 0xFFFF_FFFF_FFFF_FFFF) * 0x1_0000_0000_0000_0000 && (x << 64)
        <= 0xFFFF_FFFF_FFFF_FFFF_0000_0000_0000_0000u128) by (bit_vector);
}

/// A 128-bit value scaled by 2^64, read as a 256-bit pair of its shifts.
pub proof fn lemma_val2_shl64(x: u128)
    ensures
        val2(x >> 64, x << 64) == x * 0x1_0000_0000_0000_0000,
{
    lemma_split64(x);
    lemma_shl64(x);
}

/// Shifting a value under 2^64 left by 64 loses nothing.
pub proof fn lemma_shl64_small(x: u128)
    requires
        x < 0x1_0000_0000_0000_0000,
    ensures
        (x << 64) == x * 0x1_0000_0000_0000_0000,
{
    lemma_split64(x);
    lemma_shl64(x);
}

/// Full 128x128 -> 256 bit multiplication; no bits are lost.
pub fn mul_u128(x: u128, y: u128) -> (r: (u128, u128))
    ensures
        val2(r.0, r.1) == x * y,
{
    let x1: u128 = x >> 64;
    let x0: u128 = x & 0xFFFF_FFFF_FFFF_FFFF;
    let y1: u128 = y >> 64;
    let y0: u128 = y & 0xFFFF_FFFF_FFFF_FFFF;
    proof {
        lemma_split64(x);
        lemma_split64(y);
        lemma_mul_upper_bound(x0 as int, 0xFFFF_FFFF_FFFF_FFFF, y0 as int, 0xFFFF_FFFF_FFFF_FFFF);
        lemma_mul_upper_bound(x0 as int, 0xFFFF_FFFF_FFFF_FFFF, y1 as int, 0xFFFF_FFFF_FFFF_FFFF);
        lemma_mul_upper_bound(x1 as int, 0xFFFF_FFFF_FFFF_FFFF, y0 as int, 0xFFFF_FFFF_FFFF_FFFF);
        lemma_mul_upper_bound(x1 as int, 0xFFFF_FFFF_FFFF_FFFF, y1 as int, 0xFFFF_FFFF_FFFF_FFFF);
    }
    let p00: u128 = x0 * y0;
    let p01: u128 = x0 * y1;
    let p10: u128 = x1 * y0;
    let p11: u128 = x1 * y1;
    proof {
        lemma_split64(p00);
    }
    let mid: u128 = p10 + (p00 >> 64);
    proof {
        lemma_split64(mid);
    }
    let mid2: u128 = p01 + (mid & 0xFFFF_FFFF_FFFF_FFFF);
    proof {
        lemma_split64(mid2);
        lemma_shl64(mid2);
    }
    let lo: u128 = (mid2 << 64) + (p00 & 0xFFFF_FFFF_FFFF_FFFF);
    let hi: u128 = p11 + (mid >> 64) + (mid2 >> 64);
    proof {
        assert(x * y == (x1 * y1) * 0x1_0000_0000_0000_0000_0000_0000_0000_0000int + (x0 * y1) * 0x1_0000_0000_0000_0000
            + (x1 * y0) * 0x1_0000_0000_0000_0000 + x0 * y0) by (nonlinear_arith)
            requires
                x == x1 * 0x1_0000_0000_0000_0000 + x0,
                y == y1 * 0x1_0000_0000_0000_0000 + y0,
        ;
    }
    (hi, lo)
}

/// Lexicographic order of three-chunk values agrees with their mathematical
/// values.
proof fn lemma_val3_cmp(a2: u128, a1: u128, a0: u128, b2: u128, b1: u128, b0: u128)
    ensures
        (val3(a2, a1, a0) <= val3(b2, b1, b0)) <==> (a2 < b2 || (a2 == b2 && a1 < b1) || (a2 == b2
            && a1 == b1 && a0 <= b0)),
        (val3(a2, a1, a0) == val3(b2, b1, b0)) <==> (a2 == b2 && a1 == b1 && a0 == b0),
{
}

/// `<=` over three-chunk 384-bit values.
fn le3(a2: u128, a1: u128, a0: u128, b2: u128, b1: u128, b0: u128) -> (r: bool)
    ensures
        r <==> val3(a2, a1, a0) <= val3(b2, b1, b0),
{
    proof {
        lemma_val3_cmp(a2, a1, a0, b2, b1, b0);
    }
    if a2 != b2 {
        a2 < b2
    } else if a1 != b1 {
        a1 < b1
    } else {
        a0 <= b0
    }
}

/// `<` over two-half 256-bit values.
pub fn lt2(a1: u128, a0: u128, b1: u128, b0: u128) -> (r: bool)
    ensures
        r <==> val2(a1, a0) < val2(b1, b0),
{
    if a1 != b1 {
        a1 < b1
    } else {
        a0 < b0
    }
}

/// 256-bit addition over halves; the sum must fit.
pub fn add2(a1: u128, a0: u128, b1: u128, b0: u128) -> (r: (u128, u128))
    requires
        val2(a1, a0) + val2(b1, b0) < p128() * 0x1_0000_0000_0000_0000_0000_0000_0000_0000int,
    ensures
        val2(r.0, r.1) == val2(a1, a0) + val2(b1, b0),
{
    if a0 <= u128::MAX - b0 {
        (a1 + b1, a0 + b0)
    } else {
        (a1 + b1 + 1, a0 - (u128::MAX - b0) - 1)
    }
}

/// 256-bit subtraction over halves; the minuend must dominate.
pub fn sub2(a1: u128, a0: u128, b1: u128, b0: u128) -> (r: (u128, u128))
    requires
        val2(b1, b0) <= val2(a1, a0),
    ensures
        val2(r.0, r.1) == val2(a1, a0) - val2(b1, b0),
{
    if a0 >= b0 {
        (a1 - b1, a0 - b0)
    } else {
        (a1 - b1 - 1, (u128::MAX - b0) + a0 + 1)
    }
}

/// Multiplies a 256-bit value by a 128-bit value; the 384-bit product always
/// fits in three chunks.
fn mul2_by_1(d1: u128, d0: u128, m: u128) -> (r: (u128, u128, u128))
    ensures
        val3(r.0, r.1, r.2) == val2(d1, d0) * m,
{
    let (ah, al) = mul_u128(d1, m);
    let (bh, bl) = mul_u128(d0, m);
    proof {
        lemma_mul_upper_bound(d1 as int, u128::MAX as int, m as int, u128::MAX as int);
        assert((d1 * 0x1_0000_0000_0000_0000_0000_0000_0000_0000int + d0) * m == (d1 * m)
            * 0x1_0000_0000_0000_0000_0000_0000_0000_0000int + d0 * m) by (nonlinear_arith);
    }
    let (w1, carry): (u128, u128) = if al <= u128::MAX - bh {
        (al + bh, 0u128)
    } else {
        (al - (u128::MAX - bh) - 1, 1u128)
    };
    let w2: u128 = ah + carry;
    (w2, w1, bl)
}

/// Floor-divides a three-chunk 384-bit value by a nonzero 256-bit value and
/// reports whether the division was exact. `None` when the quotient does not
/// fit in 128 bits.
fn div3_by_2(n2: u128, n1: u128, n0: u128, d1: u128, d0: u128) -> (r: Option<(u128, bool)>)
    requires
        val2(d1, d0) > 0,
    ensures
        match r {
            Some(p) => p.0 == val3(n2, n1, n0) / val2(d1, d0) && (p.1 <==> val3(n2, n1, n0) % val2(
                d1,
                d0,
            ) != 0) && val3(n2, n1, n0) / val2(d1, d0) < p128(),
            None => val3(n2, n1, n0) / val2(d1, d0) >= p128(),
        },
{
    let ghost n: int = val3(n2, n1, n0);
    let ghost d: int = val2(d1, d0);
    if le3(d1, d0, 0, n2, n1, n0) {
        // the divisor scaled by 2^128 already fits under the dividend, so the
        // quotient needs more than 128 bits
        proof {
            assert(val3(d1, d0, 0) == d * 0x1_0000_0000_0000_0000_0000_0000_0000_0000int)
                by (nonlinear_arith)
                requires
                    d == val2(d1, d0),
            ;
            lemma_div_bounds(n, d, 0x1_0000_0000_0000_0000_0000_0000_0000_0000int);
        }
        return None;
    }
    let mut lo: u128 = 0;
    let mut hi: u128 = u128::MAX;
    proof {
        assert(u128::MAX as int + 1 == 0x1_0000_0000_0000_0000_0000_0000_0000_0000int);
        assert(d * (u128::MAX as int + 1) == val3(d1, d0, 0)) by (nonlinear_arith)
            requires
                d == val2(d1, d0),
        ;
        assert(d * (lo as int) == 0) by (nonlinear_arith)
            requires
                lo == 0u128,
        ;
    }
    while lo < hi
        invariant
            lo <= hi,
            d == val2(d1, d0),
            n == val3(n2, n1, n0),
            d > 0,
            d * (lo as int) <= n,
            n < d * (hi as int + 1),
        decreases hi as int - lo as int,
    {
        let mid: u128 = hi - (hi - lo) / 2;
        let (t2, t1, t0) = mul2_by_1(d1, d0, mid);
        if le3(t2, t1, t0, n2, n1, n0) {
            lo = mid;
        } else {
            hi = mid - 1;
            proof {
                assert(d * (mid - 1 as int + 1) == d * (mid as int)) by (nonlinear_arith);
            }
        }
    }
    proof {
        assert(d * (lo as int + 1) == d * (lo as int) + d) by (nonlinear_arith);
        assert(n == (lo as int) * d + (n - d * (lo as int))) by (nonlinear_arith);
        lemma_fundamental_div_mod_converse(n, d, lo as int, n - d * (lo as int));
    }
    let (t2, t1, t0) = mul2_by_1(d1, d0, lo);
    let exact: bool = t2 == n2 && t1 == n1 && t0 == n0;
    proof {
        lemma_val3_cmp(t2, t1, t0, n2, n1, n0);
    }
    Some((lo, !exact))
}

/// Floor or ceiling of `(a * b * 2^64) / d` for a 256-bit divisor `d` given
/// in halves; the product is carried exactly in 384 bits. `None` when the
/// rounded quotient does not fit in 128 bits.
pub fn mul_shl64_div(a: u128, b: u128, d1: u128, d0: u128, round_up: bool) -> (r: Option<u128>)
    requires
        val2(d1, d0) > 0,
    ensures
        ({
            let q: int = rounded_div((a * b) * p64(), val2(d1, d0), round_up);
            match r {
                Some(v) => v == q && q < p128(),
                None => q >= p128(),
            }
        }),
{
    let (ph, pl) = mul_u128(a, b);
    proof {
        lemma_split64(ph);
        lemma_split64(pl);
        lemma_shl64(ph);
        lemma_shl64(pl);
    }
    let n2: u128 = ph >> 64;
    let n1: u128 = (ph << 64) + (pl >> 64);
    let n0: u128 = pl << 64;
    let ghost n: int = val3(n2, n1, n0);
    let ghost d: int = val2(d1, d0);
    proof {
        assert(n == (a * b) * p64()) by (nonlinear_arith)
            requires
                n == val3(n2, n1, n0),
                n2 == ph >> 64,
                val2(ph, pl) == a * b,
                ph == (ph >> 64) * 0x1_0000_0000_0000_0000 + (ph & 0xFFFF_FFFF_FFFF_FFFF),
                pl == (pl >> 64) * 0x1_0000_0000_0000_0000 + (pl & 0xFFFF_FFFF_FFFF_FFFF),
                n1 == (ph << 64) + (pl >> 64),
                (ph << 64) == (ph & 0xFFFF_FFFF_FFFF_FFFF) * 0x1_0000_0000_0000_0000,
                n0 == pl << 64,
                (pl << 64) == (pl & 0xFFFF_FFFF_FFFF_FFFF) * 0x1_0000_0000_0000_0000,
        ;
        lemma_ceil_split(n, d);
    }
    match div3_by_2(n2, n1, n0, d1, d0) {
        None => None,
        Some((q, rem)) => {
            if round_up && rem {
                if q == u128::MAX {
                    None
                } else {
                    Some(q + 1)
                }
            } else {
                Some(q)
            }
        },
    }
}

/// Floor or ceiling of `(a * b) / 2^64`, exact over the 256-bit product.
/// `None` when the rounded quotient does not fit in 64 bits.
pub fn mul_shr64(a: u128, b: u128, round_up: bool) -> (r: Option<u64>)
    ensures
        ({
            let q: int = rounded_div(a * b, p64(), round_up);
            match r {
                Some(v) => v == q,
                None => q > u64::MAX,
            }
        }),
{
    let (ph, pl) = mul_u128(a, b);
    proof {
        lemma_split64(pl);
        assert(a * b == (ph * 0x1_0000_0000_0000_0000 + (pl >> 64)) * 0x1_0000_0000_0000_0000 + (pl
            & 0xFFFF_FFFF_FFFF_FFFF)) by (nonlinear_arith)
            requires
                val2(ph, pl) == a * b,
                pl == (pl >> 64) * 0x1_0000_0000_0000_0000 + (pl & 0xFFFF_FFFF_FFFF_FFFF),
        ;
        lemma_fundamental_div_mod_converse(
            a * b,
            0x1_0000_0000_0000_0000,
            ph * 0x1_0000_0000_0000_0000 + (pl >> 64),
            (pl & 0xFFFF_FFFF_FFFF_FFFF) as int,
        );
        lemma_ceil_split(a * b, p64());
    }
    if ph == 0 {
        let q: u128 = pl >> 64;
        if round_up && (pl & 0xFFFF_FFFF_FFFF_FFFF) != 0 {
            if q == 0xFFFF_FFFF_FFFF_FFFF {
                None
            } else {
                Some((q + 1) as u64)
            }
        } else {
            Some(q as u64)
        }
    } else {
        None
    }
}

} // verus!
