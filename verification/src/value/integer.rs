//! Integers beyond the small ones: two's complement, least significant byte
//! first.
use crate::bitstring::bits::{lemma_pow2_values, pow2};
use crate::value::Term;
use vstd::prelude::*;

verus! {

/// 256 to the power `k`.
pub open spec fn pow256(k: int) -> int
    decreases k,
{
    if k <= 0 {
        1
    } else {
        256 * pow256(k - 1)
    }
}

/// The unsigned number that the digits spell, least significant first.
pub open spec fn le_value(d: Seq<u8>) -> int
    decreases d.len(),
{
    if d.len() == 0 {
        0
    } else {
        d[0] + 256 * le_value(d.drop_first())
    }
}

/// The signed number that the digits spell in two's complement, least
/// significant first. No digits spell zero.
pub open spec fn twos_value(d: Seq<u8>) -> int {
    if d.len() > 0 && d.last() >= 128 {
        le_value(d) - pow256(d.len() as int)
    } else {
        le_value(d)
    }
}

/// No shorter sequence of digits spells the same signed number.
pub open spec fn minimal(d: Seq<u8>) -> bool {
    d.len() >= 2 ==> {
        let top = d[d.len() - 1];
        let next = d[d.len() - 2];
        !(top == 0 && next < 128) && !(top == 255 && next >= 128)
    }
}

/// An integer too large for a small one.
#[derive(Debug, PartialEq, Eq)]
pub struct Bignum {
    /// Two's complement, least significant byte first.
    pub digits: Vec<u8>,
}

impl Bignum {
    /// The number that the bignum stands for.
    pub open spec fn value(&self) -> int {
        twos_value(self.digits@)
    }
}

/// The digits split into the top digit and those below it.
pub proof fn lemma_le_top(d: Seq<u8>)
    requires
        d.len() > 0,
    ensures
        le_value(d) == le_value(d.drop_last()) + d.last() * pow256(d.len() - 1),
        0 <= le_value(d.drop_last()) < pow256(d.len() - 1),
        pow256(d.len() - 1) > 0,
    decreases d.len(),
{
    if d.len() == 1 {
        assert(d.drop_last() =~= Seq::<u8>::empty());
        assert(d.drop_first() =~= Seq::<u8>::empty());
        reveal_with_fuel(le_value, 2);
    } else {
        let t = d.drop_first();
        lemma_le_top(t);
        assert(t.drop_last() =~= d.drop_last().drop_first());
        assert(t.last() == d.last());
        assert(d.drop_last()[0] == d[0]);
        let p = pow256(t.len() - 1);
        assert(d.last() * (256 * p) == 256 * (d.last() * p)) by (nonlinear_arith);
    }
}

/// Pushing a digit adds it at the next power of 256.
pub proof fn lemma_le_push(d: Seq<u8>, x: u8)
    ensures
        le_value(d.push(x)) == le_value(d) + x * pow256(d.len() as int),
        0 <= le_value(d) < pow256(d.len() as int),
{
    let e = d.push(x);
    lemma_le_top(e);
    assert(e.drop_last() =~= d);
}

/// The signed number of the digits `d` with one more digit of sign on top:
/// the same number.
pub proof fn lemma_sign_digit(d: Seq<u8>)
    requires
        d.len() > 0,
    ensures
        d.last() < 128 ==> twos_value(d.push(0u8)) == twos_value(d),
        d.last() >= 128 ==> twos_value(d.push(255u8)) == twos_value(d),
        d.last() >= 128 ==> twos_value(d.push(0u8)) == le_value(d),
{
    lemma_le_push(d, 0u8);
    lemma_le_push(d, 255u8);
    let p = pow256(d.len() as int);
    assert(pow256(d.len() as int + 1) == 256 * p);
    assert(255 * p - 256 * p == -p);
}

/// The bounds of the signed number that `d` spells.
pub proof fn lemma_twos_bounds(d: Seq<u8>)
    requires
        d.len() > 0,
    ensures
        -pow256(d.len() as int) <= 2 * twos_value(d) < pow256(d.len() as int),
        d.last() >= 128 <==> twos_value(d) < 0,
{
    lemma_le_top(d);
    let p = pow256(d.len() - 1);
    let low = le_value(d.drop_last());
    let top = d.last() as int;
    assert(pow256(d.len() as int) == 256 * p);
    assert(top >= 128 ==> top * p >= 128 * p) by (nonlinear_arith)
        requires
            p > 0,
    ;
    assert(top < 128 ==> top * p <= 127 * p) by (nonlinear_arith)
        requires
            p > 0,
            top >= 0,
    ;
    assert(top * p <= 255 * p) by (nonlinear_arith)
        requires
            p > 0,
            top <= 255,
    ;
    assert(top * p >= 0) by (nonlinear_arith)
        requires
            p > 0,
            top >= 0,
    ;
}

/// The first powers of 256.
pub proof fn lemma_pow256_values()
    ensures
        pow256(0) == 1,
        pow256(1) == 0x100,
        pow256(2) == 0x1_0000,
        pow256(3) == 0x100_0000,
        pow256(4) == 0x1_0000_0000,
        pow256(8) == 0x1_0000_0000_0000_0000,
{
    reveal_with_fuel(pow256, 9);
}

/// Strips the digits of sign that the number does not need.
pub fn normalize(digits: &mut Vec<u8>)
    ensures
        twos_value(final(digits)@) == twos_value(old(digits)@),
        minimal(final(digits)@),
        final(digits).len() <= old(digits).len(),
        old(digits).len() > 0 ==> final(digits).len() > 0,
{
    while digits.len() >= 2
        invariant
            twos_value(digits@) == twos_value(old(digits)@),
            digits.len() <= old(digits).len(),
            old(digits).len() > 0 ==> digits.len() > 0,
        ensures
            minimal(digits@),
        decreases digits.len(),
    {
        let top: u8 = digits[digits.len() - 1];
        let next: u8 = digits[digits.len() - 2];
        if (top == 0 && next < 128) || (top == 255 && next >= 128) {
            let ghost before = digits@;
            digits.pop();
            proof {
                lemma_sign_digit(digits@);
                assert(before =~= digits@.push(top));
            }
        } else {
            break ;
        }
    }
}

/// Powers of 256 are the powers of two whose exponent is a multiple of 8.
pub proof fn lemma_pow_split(k: int, w: int)
    requires
        0 <= k,
        0 <= w,
    ensures
        pow2(8 * k + w) == pow2(w) * pow256(k),
        pow256(k) > 0,
        pow2(w) > 0,
    decreases k, w,
{
    if w > 0 {
        lemma_pow_split(k, w - 1);
        assert((2 * pow2(w - 1)) * pow256(k) == 2 * (pow2(w - 1) * pow256(k)))
            by (nonlinear_arith);
    } else if k > 0 {
        lemma_pow_split(k - 1, 8);
        lemma_pow2_values();
        assert(pow2(8 * k) == pow2(8 * (k - 1) + 8));
        assert(256 * pow256(k - 1) == pow256(k));
        assert(pow2(0) * pow256(k) == pow256(k));
    }
}

/// Powers of 256 grow with the exponent.
pub proof fn lemma_pow256_grows(a: int, b: int)
    requires
        0 <= a <= b,
    ensures
        0 < pow256(a) <= pow256(b),
    decreases b,
{
    if a < b {
        lemma_pow256_grows(a, b - 1);
    } else if a > 0 {
        lemma_pow256_grows(a - 1, b - 1);
    }
}

/// A number that needs five digits or more is no small integer.
pub proof fn lemma_minimal_large(d: Seq<u8>)
    requires
        d.len() >= 5,
        minimal(d),
    ensures
        twos_value(d) >= 0x8000_0000 || twos_value(d) < -0x8000_0000,
{
    let lower = d.drop_last();
    lemma_le_top(d);
    lemma_le_top(lower);
    let p = pow256(d.len() - 1);
    let q = pow256(d.len() - 2);
    assert(p == 256 * q);
    assert(pow256(d.len() as int) == 256 * p);
    lemma_pow256_grows(3, d.len() - 2);
    lemma_pow256_values();
    let top = d.last() as int;
    let next = lower.last() as int;
    assert(next == d[d.len() - 2]);
    let low = le_value(lower.drop_last());
    assert(le_value(d) == low + next * q + top * p);
    if top == 0 {
        assert(next * q >= 128 * q) by (nonlinear_arith)
            requires
                next >= 128,
                q > 0,
        ;
    } else if top < 128 {
        assert(top * p >= p) by (nonlinear_arith)
            requires
                top >= 1,
                p > 0,
        ;
        assert(next * q >= 0) by (nonlinear_arith)
            requires
                next >= 0,
                q > 0,
        ;
    } else if top < 255 {
        assert(top * p <= 254 * p) by (nonlinear_arith)
            requires
                top <= 254,
                p > 0,
        ;
        assert(next * q <= 255 * q) by (nonlinear_arith)
            requires
                next <= 255,
                q > 0,
        ;
    } else {
        assert(next * q <= 127 * q) by (nonlinear_arith)
            requires
                next <= 127,
                q > 0,
        ;
    }
}

/// The integer that a term stands for.
pub open spec fn int_of(t: Term) -> Option<int> {
    match t {
        Term::Int(i) => Some(i as int),
        Term::BigInt(b) => Some(b.value()),
        _ => None,
    }
}

/// The term is the integer `v` in its one canonical form: a small integer
/// where `v` fits in 32 bits, else a bignum of as few digits as possible.
pub open spec fn is_integer(t: Term, v: int) -> bool {
    match t {
        Term::Int(i) => i == v,
        Term::BigInt(b) => b.value() == v && minimal(b.digits@) && b.digits.len() >= 5 && !(
        -0x8000_0000 <= v < 0x8000_0000),
        _ => false,
    }
}

/// The integer term for a number given in two's complement, least
/// significant byte first.
pub fn integer_term(digits: Vec<u8>) -> (t: Term)
    ensures
        is_integer(t, twos_value(digits@)),
{
    let mut digits = digits;
    let ghost v = twos_value(digits@);
    normalize(&mut digits);
    let len = digits.len();
    if len > 4 {
        proof {
            lemma_minimal_large(digits@);
        }
        return Term::BigInt(Bignum { digits });
    }
    let mut acc: i64 = 0;
    let mut scale: i64 = 1;
    let mut i: usize = 0;
    while i < len
        invariant
            i <= len <= 4,
            len == digits.len(),
            scale == pow256(i as int),
            acc == le_value(digits@.subrange(0, i as int)),
            0 <= acc < scale,
        decreases len - i,
    {
        proof {
            lemma_pow256_values();
            let prefix = digits@.subrange(0, i as int);
            lemma_le_push(prefix, digits@[i as int]);
            assert(prefix.push(digits@[i as int]) =~= digits@.subrange(0, i + 1));
            assert(digits@[i as int] * scale <= 255 * scale) by (nonlinear_arith)
                requires
                    digits@[i as int] <= 255,
                    scale > 0,
            ;
            assert(digits@[i as int] * scale >= 0) by (nonlinear_arith)
                requires
                    digits@[i as int] >= 0,
                    scale > 0,
            ;
        }
        acc = acc + (digits[i] as i64) * scale;
        scale = scale * 256;
        i = i + 1;
    }
    proof {
        assert(digits@.subrange(0, len as int) =~= digits@);
        lemma_pow256_values();
        if len > 0 {
            lemma_twos_bounds(digits@);
            lemma_pow256_grows(len as int, 4);
        }
    }
    if len > 0 && digits[len - 1] >= 128 {
        acc = acc - scale;
    }
    Term::Int(acc as i32)
}

/// Two to the power `k`, for a power that fits in a byte's width.
pub fn pow2_small(k: usize) -> (r: u16)
    requires
        k <= 8,
    ensures
        r == pow2(k as int),
        1 <= r <= 256,
{
    let mut r: u16 = 1;
    let mut i: usize = 0;
    while i < k
        invariant
            i <= k <= 8,
            r == pow2(i as int),
            1 <= r,
            i < 8 ==> r <= 128,
            r <= 256,
        decreases k - i,
    {
        proof {
            lemma_pow2_values();
        }
        r = r * 2;
        i = i + 1;
    }
    r
}

/// Powers of 256 multiply by adding exponents.
pub proof fn lemma_pow256_add(a: int, b: int)
    requires
        0 <= a,
        0 <= b,
    ensures
        pow256(a + b) == pow256(a) * pow256(b),
        pow256(a) > 0,
    decreases a,
{
    if a > 0 {
        lemma_pow256_add(a - 1, b);
        assert((256 * pow256(a - 1)) * pow256(b) == 256 * (pow256(a - 1) * pow256(b)))
            by (nonlinear_arith);
    }
}

/// The low `len` bytes of the number that `digits` spell in two's
/// complement, least significant first, and the multiple of 256 to the
/// `len` by which they fall short of the number.
pub fn resized(digits: &Vec<u8>, len: usize) -> (r: (Vec<u8>, Ghost<int>))
    ensures
        r.0.len() == len,
        twos_value(digits@) == le_value(r.0@) + r.1@ * pow256(len as int),
{
    let count: usize = digits.len();
    let negative: bool = count > 0 && digits[count - 1] >= 128;
    let fill: u8 = if negative {
        255
    } else {
        0
    };
    let ghost neg: int = if negative {
        1
    } else {
        0
    };
    let ghost all = digits@;
    let mut d: Vec<u8> = Vec::new();
    let mut j: usize = 0;
    proof {
        lemma_pow256_values();
        assert(all.subrange(0, count as int) =~= all);
    }
    while j < len
        invariant
            j <= len,
            d.len() == j,
            count == digits.len(),
            all == digits@,
            negative ==> fill == 255 && neg == 1,
            !negative ==> fill == 0 && neg == 0,
            j <= count ==> le_value(all) == le_value(d@) + pow256(j as int) * le_value(
                all.subrange(j as int, count as int),
            ),
            j >= count ==> le_value(d@) == le_value(all) + neg * (pow256(j as int) - pow256(
                count as int,
            )),
        decreases len - j,
    {
        let ghost p = pow256(j as int);
        let ghost before = d@;
        let digit: u8 = if j < count {
            digits[j]
        } else {
            fill
        };
        d.push(digit);
        proof {
            lemma_le_push(before, digit);
            lemma_pow256_add(j as int, 1);
            assert(pow256(j + 1) == 256 * p);
            if j < count {
                let rest = all.subrange(j as int, count as int);
                let next = all.subrange(j + 1, count as int);
                assert(rest.drop_first() =~= next);
                assert(le_value(rest) == digit + 256 * le_value(next));
                assert(p * (digit + 256 * le_value(next)) == digit * p + (256 * p) * le_value(next))
                    by (nonlinear_arith);
                if j + 1 == count {
                    assert(next =~= Seq::<u8>::empty());
                    assert((256 * p) * le_value(next) == 0) by (nonlinear_arith)
                        requires
                            le_value(next) == 0,
                    ;
                }
            } else {
                assert(neg * (256 * p - pow256(count as int)) == neg * (p - pow256(count as int))
                    + neg * 255 * p) by (nonlinear_arith);
                assert(digit * p == neg * 255 * p) by (nonlinear_arith)
                    requires
                        digit == 255 * neg,
                ;
            }
        }
        j = j + 1;
    }
    let ghost q: int = if len >= count {
        -neg
    } else {
        le_value(all.subrange(len as int, count as int)) - neg * pow256(count - len)
    };
    proof {
        let p = pow256(len as int);
        if len >= count {
            assert(-neg * p == neg * -p) by (nonlinear_arith);
            if count == 0 {
                assert(all =~= Seq::<u8>::empty());
            }
        } else {
            lemma_pow256_add(len as int, count - len);
            let rest = le_value(all.subrange(len as int, count as int));
            let high = pow256(count - len);
            assert((rest - neg * high) * p == p * rest - neg * (p * high)) by (nonlinear_arith);
        }
    }
    (d, Ghost(q))
}

/// The low `len` bytes of `val` in two's complement, least significant
/// first, and the multiple of 256 to the `len` by which they fall short of
/// `val`.
pub fn twos_digits(val: i32, len: usize) -> (r: (Vec<u8>, Ghost<int>))
    ensures
        r.0.len() == len,
        val == le_value(r.0@) + r.1@ * pow256(len as int),
{
    let mut rem: u64 = if val >= 0 {
        val as u64
    } else {
        (val as i64 + 0x1_0000_0000) as u64
    };
    let fill: u8 = if val < 0 {
        255
    } else {
        0
    };
    let ghost u0: int = rem as int;
    let ghost neg: int = if val < 0 {
        1
    } else {
        0
    };
    let mut d: Vec<u8> = Vec::new();
    let mut j: usize = 0;
    proof {
        lemma_pow256_values();
    }
    while j < len
        invariant
            j <= len,
            d.len() == j,
            0 <= u0 < 0x1_0000_0000,
            u0 == val + neg * 0x1_0000_0000,
            neg == 0 || neg == 1,
            neg == 1 ==> fill == 255,
            neg == 0 ==> fill == 0,
            j <= 4 ==> le_value(d@) + rem * pow256(j as int) == u0,
            j >= 4 ==> rem == 0 && le_value(d@) == u0 + neg * (pow256(j as int) - pow256(4)),
        decreases len - j,
    {
        let ghost p = pow256(j as int);
        let ghost old_rem = rem;
        let ghost old_d = d@;
        let digit: u8 = if j < 4 {
            let x: u8 = (rem % 256) as u8;
            rem = rem / 256;
            x
        } else {
            fill
        };
        d.push(digit);
        proof {
            lemma_le_push(old_d, digit);
            lemma_pow256_values();
            lemma_pow256_add(j as int, 1);
            assert(pow256(j + 1) == 256 * p);
            if j < 4 {
                assert(digit * p + rem * (256 * p) == old_rem * p) by (nonlinear_arith)
                    requires
                        old_rem == 256 * rem + digit,
                ;
                if j == 3 {
                    assert(rem == 0) by (nonlinear_arith)
                        requires
                            le_value(d@) + rem * 0x1_0000_0000 == u0,
                            0 <= le_value(d@),
                            u0 < 0x1_0000_0000,
                            rem >= 0,
                    ;
                }
            } else {
                assert(digit * p == neg * 255 * p) by (nonlinear_arith)
                    requires
                        digit == neg * 255,
                ;
                assert(neg * (256 * p - pow256(4)) == neg * (p - pow256(4)) + neg * 255 * p)
                    by (nonlinear_arith);
            }
        }
        j = j + 1;
    }
    let ghost q: int = if len <= 4 {
        rem - neg * pow256(4 - len)
    } else {
        -neg
    };
    proof {
        lemma_pow256_values();
        if len <= 4 {
            lemma_pow256_add(len as int, 4 - len);
            let pl = pow256(len as int);
            let ph = pow256(4 - len);
            assert((rem - neg * ph) * pl == rem * pl - neg * (pl * ph)) by (nonlinear_arith);
        } else {
            let pl = pow256(len as int);
            assert(neg * (pl - pow256(4)) + (-neg) * pl == -(neg * pow256(4)))
                by (nonlinear_arith);
        }
    }
    (d, Ghost(q))
}

/// The digits of an unsigned number, with a digit of sign on top.
pub fn digits_of_u64(value: u64) -> (d: Vec<u8>)
    ensures
        twos_value(d@) == value,
        d.len() == 9,
{
    let mut rem: u64 = value;
    let mut d: Vec<u8> = Vec::new();
    let mut j: usize = 0;
    proof {
        lemma_pow256_values();
    }
    while j < 8
        invariant
            j <= 8,
            d.len() == j,
            le_value(d@) + rem * pow256(j as int) == value,
        decreases 8 - j,
    {
        let ghost p = pow256(j as int);
        let ghost old_rem = rem;
        let ghost old_d = d@;
        let digit: u8 = (rem % 256) as u8;
        rem = rem / 256;
        d.push(digit);
        proof {
            lemma_le_push(old_d, digit);
            lemma_pow256_add(j as int, 1);
            lemma_pow256_values();
            assert(digit * p + rem * (256 * p) == old_rem * p) by (nonlinear_arith)
                requires
                    old_rem == 256 * rem + digit,
            ;
        }
        j = j + 1;
    }
    proof {
        lemma_le_push(d@, 0u8);
        lemma_pow256_values();
        assert(rem == 0) by (nonlinear_arith)
            requires
                le_value(d@) + rem * 0x1_0000_0000_0000_0000 == value,
                0 <= le_value(d@),
                value < 0x1_0000_0000_0000_0000,
                rem >= 0,
        ;
    }
    d.push(0u8);
    d
}

/// The unsigned number that at most eight digits spell.
pub fn le_to_u64(digits: &Vec<u8>) -> (r: u64)
    requires
        digits.len() <= 8,
    ensures
        r == le_value(digits@),
{
    let len: usize = digits.len();
    let mut acc: u64 = 0;
    let mut i: usize = len;
    assert(digits@.subrange(len as int, len as int) =~= Seq::<u8>::empty());
    while i > 0
        invariant
            i <= len <= 8,
            len == digits.len(),
            acc == le_value(digits@.subrange(i as int, len as int)),
            acc < pow256(len - i),
        decreases i,
    {
        i = i - 1;
        proof {
            let longer = digits@.subrange(i as int, len as int);
            assert(longer.drop_first() =~= digits@.subrange(i + 1, len as int));
            lemma_pow256_values();
            lemma_pow256_grows(len - i - 1, 7);
            lemma_pow256_add(1, len - i - 1);
            reveal_with_fuel(pow256, 8);
        }
        acc = acc * 256 + digits[i] as u64;
    }
    assert(digits@.subrange(0, len as int) =~= digits@);
    acc
}

} // verus!
