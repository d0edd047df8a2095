//! Integer fields of a bitstring: what number a field spells, and the digits
//! that go between a field and an integer term.
use super::bits::{
    bits_value, lemma_pow2_values, lemma_value_concat, pow2, spec_nbytes, take_bits, take_byte,
};
use crate::value::integer::{
    le_value, lemma_le_top, lemma_pow_split, lemma_sign_digit, pow256, pow2_small, twos_value,
};
use vstd::prelude::*;

verus! {

/// The unsigned number of a little-endian field of `n` bits at bit `lo`: its
/// first eight bits are the least significant byte, and the bits that are
/// left over at the end are the most significant ones.
pub open spec fn le_field(data: Seq<u8>, lo: int, n: int) -> int
    decreases n,
{
    if n <= 8 {
        bits_value(data, lo, n)
    } else {
        bits_value(data, lo, 8) + 256 * le_field(data, lo + 8, n - 8)
    }
}

/// The unsigned number of a field of `n` bits at bit `lo`.
pub open spec fn field_unsigned(data: Seq<u8>, lo: int, n: int, little: bool) -> int {
    if little {
        le_field(data, lo, n)
    } else {
        bits_value(data, lo, n)
    }
}

/// The number of a field of `n` bits at bit `lo`; a signed field is read as
/// two's complement.
pub open spec fn field_value(data: Seq<u8>, lo: int, n: int, little: bool, signed: bool) -> int {
    let u = field_unsigned(data, lo, n, little);
    if signed && n > 0 && u >= pow2(n - 1) {
        u - pow2(n)
    } else {
        u
    }
}

/// The digits are the bytes of the big-endian field, last byte first, with
/// the bits that are left over at the start as the top digit.
pub open spec fn be_digits(data: Seq<u8>, lo: int, n: int, d: Seq<u8>) -> bool {
    &&& d.len() == spec_nbytes(n)
    &&& forall|j: int| 0 <= j < n / 8 ==> #[trigger] d[j] == bits_value(data, lo + n - 8 * (j + 1), 8)
    &&& n % 8 > 0 ==> d[n / 8] == bits_value(data, lo, n % 8)
}

/// The digits are the bytes of the little-endian field in their order, with
/// the bits that are left over at the end as the top digit.
pub open spec fn le_digits(data: Seq<u8>, lo: int, n: int, d: Seq<u8>) -> bool {
    &&& d.len() == spec_nbytes(n)
    &&& forall|j: int| 0 <= j < n / 8 ==> #[trigger] d[j] == bits_value(data, lo + 8 * j, 8)
    &&& n % 8 > 0 ==> d[n / 8] == bits_value(data, lo + 8 * (n / 8), n % 8)
}

pub proof fn lemma_be_digits(data: Seq<u8>, lo: int, n: int, d: Seq<u8>)
    requires
        0 <= n,
        be_digits(data, lo, n, d),
    ensures
        le_value(d) == bits_value(data, lo, n),
    decreases n,
{
    if n == 0 {
    } else if n < 8 {
        assert(d.drop_first() =~= Seq::<u8>::empty());
        reveal_with_fuel(le_value, 2);
    } else {
        let t = d.drop_first();
        assert(be_digits(data, lo, n - 8, t)) by {
            assert forall|j: int| 0 <= j < (n - 8) / 8 implies #[trigger] t[j] == bits_value(
                data,
                lo + (n - 8) - 8 * (j + 1),
                8,
            ) by {
                assert(t[j] == d[j + 1]);
            }
            if n % 8 > 0 {
                assert(t[(n - 8) / 8] == d[n / 8]);
            }
        }
        lemma_be_digits(data, lo, n - 8, t);
        lemma_value_concat(data, lo, n - 8, 8);
        lemma_pow2_values();
        assert(d[0] == bits_value(data, lo + n - 8 * (0 + 1), 8));
    }
}

pub proof fn lemma_le_digits(data: Seq<u8>, lo: int, n: int, d: Seq<u8>)
    requires
        0 <= n,
        le_digits(data, lo, n, d),
    ensures
        le_value(d) == le_field(data, lo, n),
    decreases n,
{
    if n == 0 {
    } else if n <= 8 {
        assert(d.drop_first() =~= Seq::<u8>::empty());
        reveal_with_fuel(le_value, 2);
        if n == 8 {
            assert(d[0] == bits_value(data, lo + 8 * 0, 8));
        }
    } else {
        let t = d.drop_first();
        assert(le_digits(data, lo + 8, n - 8, t)) by {
            assert forall|j: int| 0 <= j < (n - 8) / 8 implies #[trigger] t[j] == bits_value(
                data,
                lo + 8 + 8 * j,
                8,
            ) by {
                assert(t[j] == d[j + 1]);
            }
            if n % 8 > 0 {
                assert(t[(n - 8) / 8] == d[n / 8]);
            }
        }
        lemma_le_digits(data, lo + 8, n - 8, t);
        assert(d[0] == bits_value(data, lo + 8 * 0, 8));
    }
}

/// The unsigned number of a field, least significant byte first.
pub fn field_digits(data: &[u8], lo: usize, n: usize, little: bool) -> (d: Vec<u8>)
    requires
        0 < n,
        lo + n <= 8 * data.len(),
        lo + n <= usize::MAX,
    ensures
        d.len() == spec_nbytes(n as int),
        le_value(d@) == field_unsigned(data@, lo as int, n as int, little),
        d@.last() == (if little {
            bits_value(data@, lo + 8 * ((n - 1) / 8), (n - 1) % 8 + 1)
        } else {
            bits_value(data@, lo as int, (n - 1) % 8 + 1)
        }),
{
    let full: usize = n / 8;
    let rest: usize = n % 8;
    let mut d: Vec<u8> = Vec::new();
    let mut j: usize = 0;
    while j < full
        invariant
            j <= full,
            full == n / 8,
            d.len() == j,
            lo + n <= 8 * data.len(),
            lo + n <= usize::MAX,
            forall|i: int|
                0 <= i < j ==> #[trigger] d@[i] == (if little {
                    bits_value(data@, lo + 8 * i, 8)
                } else {
                    bits_value(data@, lo + n - 8 * (i + 1), 8)
                }),
        decreases full - j,
    {
        let pos: usize = if little {
            lo + 8 * j
        } else {
            lo + n - 8 * (j + 1)
        };
        let b: u8 = take_byte(data, pos);
        d.push(b);
        j = j + 1;
    }
    if rest > 0 {
        let pos: usize = if little {
            lo + 8 * full
        } else {
            lo
        };
        let b: u8 = take_bits(data, pos, rest);
        d.push(b);
    }
    proof {
        if little {
            assert(le_digits(data@, lo as int, n as int, d@));
            lemma_le_digits(data@, lo as int, n as int, d@);
        } else {
            assert(be_digits(data@, lo as int, n as int, d@));
            lemma_be_digits(data@, lo as int, n as int, d@);
        }
        if rest == 0 {
            assert((n - 1) / 8 == full - 1 && (n - 1) % 8 + 1 == 8);
            assert(lo + n - 8 * ((full - 1) + 1) == lo);
        } else {
            assert((n - 1) / 8 == full && (n - 1) % 8 + 1 == rest);
        }
    }
    d
}

/// The field's number in two's complement, from its unsigned digits.
pub fn signed_digits(d: Vec<u8>, Ghost(n): Ghost<int>, width: usize, signed: bool) -> (r: Vec<u8>)
    requires
        d.len() > 0,
        1 <= width <= 8,
        n == 8 * (d.len() - 1) + width,
        d@.last() < pow2(width as int),
    ensures
        twos_value(r@) == (if signed && le_value(d@) >= pow2(n - 1) {
            le_value(d@) - pow2(n)
        } else {
            le_value(d@)
        }),
{
    let mut d = d;
    let len: usize = d.len();
    let top: u8 = d[len - 1];
    let half: u16 = pow2_small(width - 1);
    let ghost u = le_value(d@);
    let ghost p = pow256(len - 1);
    let ghost low = le_value(d@.drop_last());
    proof {
        lemma_le_top(d@);
        lemma_pow_split(len - 1, width as int);
        lemma_pow_split(len - 1, width - 1);
        lemma_pow2_values();
        assert(pow2(width as int) == 2 * pow2(width - 1));
        assert(pow2(n) == pow2(width as int) * p);
        assert(pow2(n - 1) == pow2(width - 1) * p);
        assert((top >= half) <==> (u >= pow2(n - 1))) by (nonlinear_arith)
            requires
                u == low + top * p,
                0 <= low < p,
                pow2(n - 1) == half * p,
        ;
    }
    if signed && top as u16 >= half {
        // Extend the sign over the rest of the top digit.
        let fill: u16 = 256 - 2 * half;
        let new_top: u8 = (top as u16 + fill) as u8;
        let ghost before = d@;
        d.set(len - 1, new_top);
        proof {
            lemma_le_top(d@);
            assert(d@.drop_last() =~= before.drop_last());
            assert(pow256(len as int) == 256 * p);
            assert(new_top * p == top * p + 256 * p - pow2(width as int) * p)
                by (nonlinear_arith)
                requires
                    new_top == top + 256 - pow2(width as int),
            ;
        }
        d
    } else {
        if top >= 128 {
            proof {
                lemma_sign_digit(d@);
            }
            d.push(0u8);
        }
        d
    }
}

} // verus!
