//! Floating-point fields, as the bits of their IEEE 754 encoding. No
//! floating-point arithmetic is done: a single-precision number is widened
//! to double precision by moving its bits.
use super::bits::{lemma_pow2_add, lemma_pow2_values, pow2};
use vstd::prelude::*;

verus! {

/// The place of the highest bit that is set in `m`, a number above zero:
/// 0 for the lowest bit.
pub open spec fn top_bit(m: int) -> int
    decreases m,
{
    if m <= 1 {
        0
    } else {
        1 + top_bit(m / 2)
    }
}

/// The highest set bit of a number bounds it from below, and the next bit
/// from above.
pub proof fn lemma_top_bit(m: int)
    requires
        m > 0,
    ensures
        0 <= top_bit(m),
        pow2(top_bit(m)) <= m < pow2(top_bit(m) + 1),
    decreases m,
{
    if m > 1 {
        lemma_top_bit(m / 2);
    }
}

/// The bits are those of a single-precision number that is finite.
pub open spec fn is_finite32(bits: int) -> bool {
    (bits / 0x80_0000) % 256 != 255
}

/// The bits are those of a double-precision number that is finite.
pub open spec fn is_finite64(bits: int) -> bool {
    (bits / 0x10_0000_0000_0000) % 2048 != 2047
}

/// The sign of a single-precision number: 1 where it is negative.
pub open spec fn sign32(bits: int) -> int {
    bits / 0x8000_0000
}

/// The exponent field of a single-precision number.
pub open spec fn exponent32(bits: int) -> int {
    (bits / 0x80_0000) % 256
}

/// The fraction field of a single-precision number.
pub open spec fn fraction32(bits: int) -> int {
    bits % 0x80_0000
}

/// The bits of the double-precision number that has the value of a finite
/// single-precision number.
pub open spec fn widened(bits: int) -> int {
    let s = sign32(bits);
    let e = exponent32(bits);
    let m = fraction32(bits);
    s * 0x8000_0000_0000_0000 + (if e == 0 && m == 0 {
        0
    } else if e == 0 {
        let k = top_bit(m);
        (k + 874) * 0x10_0000_0000_0000 + (m - pow2(k)) * pow2(52 - k)
    } else {
        (e + 896) * 0x10_0000_0000_0000 + m * 0x2000_0000
    })
}

/// The whole-number part `M` of the value `M * 2^E` of a finite
/// single-precision number.
pub open spec fn significand32(bits: int) -> int {
    if exponent32(bits) == 0 {
        fraction32(bits)
    } else {
        0x80_0000 + fraction32(bits)
    }
}

/// The power `E` of the value `M * 2^E` of a finite single-precision number.
pub open spec fn scale32(bits: int) -> int {
    if exponent32(bits) == 0 {
        -149
    } else {
        exponent32(bits) - 150
    }
}

/// The whole-number part `M` of the value `M * 2^E` of a finite
/// double-precision number.
pub open spec fn significand64(bits: int) -> int {
    if (bits / 0x10_0000_0000_0000) % 2048 == 0 {
        bits % 0x10_0000_0000_0000
    } else {
        0x10_0000_0000_0000 + bits % 0x10_0000_0000_0000
    }
}

/// The power `E` of the value `M * 2^E` of a finite double-precision number.
pub open spec fn scale64(bits: int) -> int {
    if (bits / 0x10_0000_0000_0000) % 2048 == 0 {
        -1074
    } else {
        (bits / 0x10_0000_0000_0000) % 2048 - 1075
    }
}

/// Some more powers of two.
proof fn lemma_pow2_more()
    ensures
        pow2(20) == 0x10_0000,
        pow2(23) == 0x80_0000,
        pow2(29) == 0x2000_0000,
        pow2(52) == 0x10_0000_0000_0000,
{
    lemma_pow2_values();
    lemma_pow2_add(16, 4);
    lemma_pow2_add(16, 7);
    lemma_pow2_add(16, 13);
    lemma_pow2_add(8, 5);
    lemma_pow2_add(32, 20);
}

/// A power of two is at least one, and the next power is twice as much.
proof fn lemma_pow2_step(k: int)
    requires
        0 <= k,
    ensures
        pow2(k) >= 1,
        pow2(k + 1) == 2 * pow2(k),
{
    lemma_pow2_add(k, 0);
}

/// Two to the power `k`, for a power that a double's fraction can hold.
fn pow2_u64(k: u32) -> (r: u64)
    requires
        k <= 52,
    ensures
        r == pow2(k as int),
        1 <= r <= 0x10_0000_0000_0000,
        r * pow2(52 - k) == 0x10_0000_0000_0000,
{
    let mut r: u64 = 1;
    let mut i: u32 = 0;
    proof {
        lemma_pow2_more();
        lemma_pow2_values();
    }
    while i < k
        invariant
            i <= k <= 52,
            r == pow2(i as int),
            r >= 1,
            r * pow2(52 - i) == 0x10_0000_0000_0000,
        decreases k - i,
    {
        proof {
            lemma_pow2_step(52 - i - 1);
            lemma_pow2_step(i as int);
            assert(r * (2 * pow2(52 - i - 1)) == (2 * r) * pow2(52 - i - 1)) by (nonlinear_arith);
            assert((2 * r) * pow2(52 - i - 1) >= 2 * r) by (nonlinear_arith)
                requires
                    pow2(52 - i - 1) >= 1,
                    r >= 0,
            ;
        }
        r = r * 2;
        i = i + 1;
    }
    proof {
        lemma_pow2_step(52 - k);
        assert(r * pow2(52 - k) >= r) by (nonlinear_arith)
            requires
                pow2(52 - k) >= 1,
                r >= 0,
        ;
    }
    r
}

/// The bits of the double-precision number that has the value of a finite
/// single-precision number.
pub fn widen(bits: u32) -> (r: u64)
    requires
        is_finite32(bits as int),
    ensures
        r == widened(bits as int),
{
    let s: u64 = (bits / 0x8000_0000) as u64;
    let e: u64 = ((bits / 0x80_0000) % 256) as u64;
    let m: u64 = (bits % 0x80_0000) as u64;
    let body: u64 = if e == 0 && m == 0 {
        0
    } else if e == 0 {
        // Find the highest bit that is set.
        let mut k: u32 = 0;
        let mut rest: u64 = m;
        proof {
            lemma_pow2_more();
        }
        while rest > 1
            invariant
                0 < rest <= m,
                m < 0x80_0000,
                k <= 22,
                rest < pow2(23 - k),
                top_bit(m as int) == k + top_bit(rest as int),
            decreases rest,
        {
            proof {
                lemma_pow2_step(22 - k);
                lemma_pow2_values();
            }
            rest = rest / 2;
            k = k + 1;
        }
        let high: u64 = pow2_u64(k);
        let low: u64 = pow2_u64(52 - k);
        proof {
            lemma_top_bit(m as int);
            lemma_pow2_step(k as int);
            assert((m - high) * low < high * low) by (nonlinear_arith)
                requires
                    m < 2 * high,
                    0 <= m - high,
                    low > 0,
            ;
            assert((m - high) * low >= 0) by (nonlinear_arith)
                requires
                    0 <= m - high,
                    low > 0,
            ;
        }
        (k as u64 + 874) * 0x10_0000_0000_0000 + (m - high) * low
    } else {
        (e + 896) * 0x10_0000_0000_0000 + m * 0x2000_0000
    };
    s * 0x8000_0000_0000_0000 + body
}

/// `w` is `q * 2^52 + frac` with a fraction below 2^52: its exponent field
/// and its fraction field are what they look like.
proof fn lemma_fields64(w: int, s: int, e: int, frac: int)
    requires
        s == 0 || s == 1,
        0 <= e < 2047,
        0 <= frac < 0x10_0000_0000_0000,
        w == s * 0x8000_0000_0000_0000 + e * 0x10_0000_0000_0000 + frac,
    ensures
        0 <= w < 0x1_0000_0000_0000_0000,
        (w / 0x10_0000_0000_0000) % 2048 == e,
        w % 0x10_0000_0000_0000 == frac,
        w / 0x8000_0000_0000_0000 == s,
{
    vstd::arithmetic::div_mod::lemma_fundamental_div_mod_converse(
        w,
        0x10_0000_0000_0000,
        s * 2048 + e,
        frac,
    );
    vstd::arithmetic::div_mod::lemma_fundamental_div_mod_converse(
        w,
        0x8000_0000_0000_0000,
        s,
        e * 0x10_0000_0000_0000 + frac,
    );
}

/// The fields of the bits of a single-precision number.
proof fn lemma_fields32(bits: int)
    requires
        0 <= bits < 0x1_0000_0000,
    ensures
        sign32(bits) == 0 || sign32(bits) == 1,
        0 <= exponent32(bits) < 256,
        0 <= fraction32(bits) < 0x80_0000,
{
}

/// Widening keeps the sign and the value: the double-precision number is
/// `M * 2^E` for the same number `M * 2^E` that the single-precision number
/// is, with `M` scaled by the power of two by which `E` is smaller.
pub proof fn lemma_widened_exact(bits: int)
    requires
        0 <= bits < 0x1_0000_0000,
        is_finite32(bits),
    ensures
        0 <= widened(bits) < 0x1_0000_0000_0000_0000,
        is_finite64(widened(bits)),
        widened(bits) / 0x8000_0000_0000_0000 == sign32(bits),
        scale64(widened(bits)) <= scale32(bits),
        significand64(widened(bits)) == significand32(bits) * pow2(
            scale32(bits) - scale64(widened(bits)),
        ),
{
    let s = sign32(bits);
    let e = exponent32(bits);
    let m = fraction32(bits);
    lemma_fields32(bits);
    lemma_pow2_more();
    lemma_pow2_values();
    if e == 0 && m == 0 {
        lemma_fields64(widened(bits), s, 0, 0);
        assert(0 * pow2(925) == 0);
    } else if e == 0 {
        let k = top_bit(m);
        lemma_top_bit(m);
        lemma_pow2_step(k);
        if k >= 23 {
            lemma_pow2_add(23, k - 23);
            lemma_pow2_step(k - 23);
            assert(pow2(k) >= pow2(23)) by (nonlinear_arith)
                requires
                    pow2(k) == pow2(23) * pow2(k - 23),
                    pow2(k - 23) >= 1,
                    pow2(23) > 0,
            ;
        }
        lemma_pow2_add(k, 52 - k);
        lemma_pow2_step(52 - k);
        let frac = (m - pow2(k)) * pow2(52 - k);
        assert(0 <= frac < 0x10_0000_0000_0000 && 0x10_0000_0000_0000 + frac == m * pow2(52 - k))
            by (nonlinear_arith)
            requires
                frac == (m - pow2(k)) * pow2(52 - k),
                pow2(k) <= m < 2 * pow2(k),
                pow2(k) * pow2(52 - k) == 0x10_0000_0000_0000,
                pow2(52 - k) >= 1,
        ;
        lemma_fields64(widened(bits), s, k + 874, frac);
    } else {
        let frac = m * 0x2000_0000;
        lemma_fields64(widened(bits), s, e + 896, frac);
    }
}

} // verus!
