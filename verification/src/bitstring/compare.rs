//! Comparison of bit ranges that need not be byte aligned.
use super::bits::{
    bit_at, bit_of, bits_order, lemma_order_equal, lemma_order_skip, lemma_order_symmetry,
    same_bit, same_bits, take_bit, take_byte,
};
use core::cmp::Ordering;
use vstd::prelude::*;

verus! {

/// The order that a comparison result of -1, 0 or 1 stands for.
pub open spec fn order_of(sign: int) -> Ordering {
    if sign < 0 {
        Ordering::Less
    } else if sign > 0 {
        Ordering::Greater
    } else {
        Ordering::Equal
    }
}

/// Compares `size` bits of `a` from bit offset `a_offs` on with `size` bits of
/// `b` from bit offset `b_offs` on. The first bit in which the two differ
/// decides. Much slower than a comparison of bytes, so only used when
/// necessary.
pub fn cmp_bits(a: &[u8], a_offs: usize, b: &[u8], b_offs: usize, size: usize) -> (r: Ordering)
    requires
        a_offs < 8,
        b_offs < 8,
        size > 0 ==> a_offs + size <= 8 * a.len(),
        size > 0 ==> b_offs + size <= 8 * b.len(),
        a_offs + size <= usize::MAX,
        b_offs + size <= usize::MAX,
    ensures
        r == order_of(bits_order(a@, a_offs + 0, b@, b_offs + 0, size + 0)),
{
    if size == 0 {
        return Ordering::Equal;
    }
    let mut k: usize = 0;
    while k < size
        invariant
            k <= size,
            a_offs + size <= 8 * a.len(),
            b_offs + size <= 8 * b.len(),
            a_offs + size <= usize::MAX,
            b_offs + size <= usize::MAX,
            bits_order(a@, a_offs + 0, b@, b_offs + 0, size + 0) == bits_order(
                a@,
                a_offs + k,
                b@,
                b_offs + k,
                size - k,
            ),
        decreases size - k,
    {
        let ap: usize = a_offs + k;
        let bp: usize = b_offs + k;
        let mut whole: bool = false;
        if ap % 8 == 0 && size - k >= 8 {
            // Compare byte by byte as long as at least 8 bits remain.
            let a_byte: u8 = take_byte(a, ap);
            let b_byte: u8 = take_byte(b, bp);
            if a_byte == b_byte {
                proof {
                    assert forall|j: int| 0 <= j < 8 implies #[trigger] same_bit(
                        a@,
                        a_offs + k,
                        b@,
                        b_offs + k,
                        j,
                    ) by {
                        assert(bit_of(a_byte, j) == bit_at(a@, ap + j));
                        assert(bit_of(b_byte, j) == bit_at(b@, bp + j));
                    }
                    lemma_order_skip(a@, a_offs + k, b@, b_offs + k, size - k, 8);
                }
                whole = true;
            }
        }
        if whole {
            k = k + 8;
        } else {
            // Compare bit by bit.
            let a_bit: u8 = take_bit(a, ap);
            let b_bit: u8 = take_bit(b, bp);
            if a_bit < b_bit {
                return Ordering::Less;
            }
            if a_bit > b_bit {
                return Ordering::Greater;
            }
            k = k + 1;
        }
    }
    Ordering::Equal
}

/// The order with less and greater exchanged.
pub open spec fn reversed(order: Ordering) -> Ordering {
    match order {
        Ordering::Less => Ordering::Greater,
        Ordering::Equal => Ordering::Equal,
        Ordering::Greater => Ordering::Less,
    }
}

/// Comparing two bit ranges the other way round gives the reversed order,
/// and two bit ranges compare equal exactly when they agree bit for bit.
pub proof fn lemma_cmp_bits_symmetry(a: Seq<u8>, a_offs: int, b: Seq<u8>, b_offs: int, size: int)
    requires
        0 <= size,
    ensures
        order_of(bits_order(a, a_offs, b, b_offs, size)) == reversed(
            order_of(bits_order(b, b_offs, a, a_offs, size)),
        ),
        order_of(bits_order(a, a_offs, b, b_offs, size)) == Ordering::Equal <==> same_bits(
            a,
            a_offs,
            b,
            b_offs,
            size,
        ),
{
    lemma_order_symmetry(a, a_offs, b, b_offs, size);
    lemma_order_equal(a, a_offs, b, b_offs, size);
}

} // verus!
