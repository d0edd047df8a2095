//! The bit model that every bitstring contract is stated over, and the
//! byte-level facts that connect shifts and masks to it.
use vstd::prelude::*;

verus! {

/// Bit `i` of a byte (0 is the most significant bit), as a number: 0 or 1.
pub open spec fn bit_of(b: u8, i: int) -> u8 {
    (b >> ((7 - i) as u8)) & 1u8
}

/// Bit `i` of a byte sequence read most significant bit first.
pub open spec fn bit_at(data: Seq<u8>, i: int) -> u8 {
    bit_of(data[i / 8], i % 8)
}

/// The `n` bits of `data` that start at bit `lo`.
pub open spec fn bits(data: Seq<u8>, lo: int, n: int) -> Seq<u8> {
    Seq::new(n as nat, |k: int| bit_at(data, lo + k))
}

/// The unsigned number that the bits `lo .. lo + n` of `data` spell, most
/// significant bit first.
pub open spec fn bits_value(data: Seq<u8>, lo: int, n: int) -> int
    decreases n,
{
    if n <= 0 {
        0
    } else {
        2 * bits_value(data, lo, n - 1) + bit_at(data, lo + n - 1)
    }
}

/// The byte index of the `k`-th byte of a stream that runs over a buffer of
/// `len` bytes: forward streams start at the first byte, backward streams at
/// the last.
pub open spec fn stream_index(len: int, dir: int, k: int) -> int {
    if dir > 0 {
        k
    } else {
        len - 1 - k
    }
}

/// Bit `pos` of the stream that runs over `data` in direction `dir`. Inside a
/// byte the most significant bit always comes first.
pub open spec fn stream_bit(data: Seq<u8>, dir: int, pos: int) -> u8 {
    bit_of(data[stream_index(data.len() as int, dir, pos / 8)], pos % 8)
}

/// The number of bytes needed to store `x` bits.
pub open spec fn spec_nbytes(x: int) -> int {
    (x + 7) / 8
}

/// The number of bytes needed to store `x` bits.
pub fn nbytes(x: usize) -> (r: usize)
    ensures
        r == spec_nbytes(x as int),
{
    x / 8 + (if x % 8 > 0 { 1usize } else { 0usize })
}

/// Offset 0 picks the most significant bit of a byte.
#[inline(always)]
pub fn get_bit(b: u8, offs: usize) -> (r: u8)
    requires
        offs < 8,
    ensures
        r == bit_of(b, offs as int),
        r <= 1,
{
    let sh: u8 = 7 - offs as u8;
    assert((b >> sh) & 1u8 <= 1u8) by (bit_vector);
    (b >> sh) & 1
}

proof fn bv_bit_facts(a: u8, b: u8, m: u8, sh: u8)
    by (bit_vector)
    requires
        sh < 8,
    ensures
        (a >> sh) & 1u8 <= 1u8,
        (0u8 >> sh) & 1u8 == 0u8,
        (0xffu8 >> sh) & 1u8 == 1u8,
        ((a | b) >> sh) & 1u8 == (if (a >> sh) & 1u8 == 1u8 || (b >> sh) & 1u8 == 1u8 {
            1u8
        } else {
            0u8
        }),
        ((a & b) >> sh) & 1u8 == (if (a >> sh) & 1u8 == 1u8 && (b >> sh) & 1u8 == 1u8 {
            1u8
        } else {
            0u8
        }),
        (((a & m) | (b & !m)) >> sh) & 1u8 == (if (m >> sh) & 1u8 == 1u8 {
            (a >> sh) & 1u8
        } else {
            (b >> sh) & 1u8
        }),
{
}

proof fn bv_shift_facts(a: u8, l: u8, sh: u8)
    by (bit_vector)
    requires
        l < 8,
        sh < 8,
    ensures
        ((a << l) >> sh) & 1u8 == (if sh >= l {
            (a >> ((sh - l) as u8)) & 1u8
        } else {
            0u8
        }),
        ((a >> l) >> sh) & 1u8 == (if sh + l < 8 {
            (a >> ((sh + l) as u8)) & 1u8
        } else {
            0u8
        }),
{
}

proof fn bv_mask_facts(n: u16, sh: u8)
    by (bit_vector)
    requires
        n <= 8,
        sh < 8,
    ensures
        (1u16 << n) >= 1u16,
        (((((1u16 << n) - 1) as u16) as u8) >> sh) & 1u8 == (if sh < n {
            1u8
        } else {
            0u8
        }),
{
}

/// Every bit is 0 or 1; the zero byte has no bit set, the byte 0xff all.
pub proof fn lemma_bit_range(a: u8)
    ensures
        forall|i: int| 0 <= i < 8 ==> #[trigger] bit_of(a, i) <= 1,
        forall|i: int| 0 <= i < 8 ==> #[trigger] bit_of(0u8, i) == 0,
        forall|i: int| 0 <= i < 8 ==> #[trigger] bit_of(0xffu8, i) == 1,
{
    assert forall|i: int| 0 <= i < 8 implies #[trigger] bit_of(a, i) <= 1 by {
        bv_bit_facts(a, a, a, (7 - i) as u8);
    }
    assert forall|i: int| 0 <= i < 8 implies #[trigger] bit_of(0u8, i) == 0 by {
        bv_bit_facts(a, a, a, (7 - i) as u8);
    }
    assert forall|i: int| 0 <= i < 8 implies #[trigger] bit_of(0xffu8, i) == 1 by {
        bv_bit_facts(a, a, a, (7 - i) as u8);
    }
}

/// The bits of `a | b` and of `a & b`.
pub proof fn lemma_bits_or_and(a: u8, b: u8)
    ensures
        forall|i: int|
            0 <= i < 8 ==> #[trigger] bit_of(a | b, i) == (if bit_of(a, i) == 1 || bit_of(b, i)
                == 1 {
                1u8
            } else {
                0u8
            }),
        forall|i: int|
            0 <= i < 8 ==> #[trigger] bit_of(a & b, i) == (if bit_of(a, i) == 1 && bit_of(b, i)
                == 1 {
                1u8
            } else {
                0u8
            }),
{
    assert forall|i: int| 0 <= i < 8 implies #[trigger] bit_of(a | b, i) == (if bit_of(a, i) == 1
        || bit_of(b, i) == 1 {
        1u8
    } else {
        0u8
    }) by {
        bv_bit_facts(a, b, a, (7 - i) as u8);
    }
    assert forall|i: int| 0 <= i < 8 implies #[trigger] bit_of(a & b, i) == (if bit_of(a, i) == 1
        && bit_of(b, i) == 1 {
        1u8
    } else {
        0u8
    }) by {
        bv_bit_facts(a, b, a, (7 - i) as u8);
    }
}

/// Where the mask has a bit set the merged byte takes the bit of `s`,
/// elsewhere it keeps the bit of `d`.
pub proof fn lemma_bits_merge(s: u8, d: u8, m: u8)
    ensures
        forall|i: int|
            0 <= i < 8 ==> #[trigger] bit_of((s & m) | (d & !m), i) == (if bit_of(m, i) == 1 {
                bit_of(s, i)
            } else {
                bit_of(d, i)
            }),
{
    assert forall|i: int| 0 <= i < 8 implies #[trigger] bit_of((s & m) | (d & !m), i) == (if bit_of(
        m,
        i,
    ) == 1 {
        bit_of(s, i)
    } else {
        bit_of(d, i)
    }) by {
        bv_bit_facts(s, d, m, (7 - i) as u8);
    }
}

/// A left shift by `l` moves bit `i + l` to place `i` and fills with zeros.
pub proof fn lemma_bits_shl(a: u8, l: u8)
    requires
        l < 8,
    ensures
        forall|i: int|
            0 <= i < 8 ==> #[trigger] bit_of(a << l, i) == (if i + l < 8 {
                bit_of(a, i + l)
            } else {
                0u8
            }),
{
    assert forall|i: int| 0 <= i < 8 implies #[trigger] bit_of(a << l, i) == (if i + l < 8 {
        bit_of(a, i + l)
    } else {
        0u8
    }) by {
        let sh: u8 = (7 - i) as u8;
        bv_shift_facts(a, l, sh);
        if i + l < 8 {
            assert((7 - (i + l)) as u8 == (sh - l) as u8);
        }
    }
}

/// A right shift by `r` moves bit `i - r` to place `i` and fills with zeros.
pub proof fn lemma_bits_shr(a: u8, r: u8)
    requires
        r < 8,
    ensures
        forall|i: int|
            0 <= i < 8 ==> #[trigger] bit_of(a >> r, i) == (if i >= r {
                bit_of(a, i - r)
            } else {
                0u8
            }),
{
    assert forall|i: int| 0 <= i < 8 implies #[trigger] bit_of(a >> r, i) == (if i >= r {
        bit_of(a, i - r)
    } else {
        0u8
    }) by {
        let sh: u8 = (7 - i) as u8;
        bv_shift_facts(a, r, sh);
        if i >= r {
            assert((7 - (i - r)) as u8 == (sh + r) as u8);
        }
    }
}

/// The byte that takes its first `8 - l` bits from the end of `a` and the
/// rest from the start of `b`.
pub proof fn lemma_bits_splice(a: u8, b: u8, l: u8)
    requires
        0 < l < 8,
    ensures
        forall|i: int|
            0 <= i < 8 ==> #[trigger] bit_of((a << l) | (b >> ((8 - l) as u8)), i) == (if i + l
                < 8 {
                bit_of(a, i + l)
            } else {
                bit_of(b, i + l - 8)
            }),
{
    let r: u8 = (8 - l) as u8;
    lemma_bits_shl(a, l);
    lemma_bits_shr(b, r);
    lemma_bits_or_and(a << l, b >> r);
    lemma_bit_range(a);
    lemma_bit_range(b);
}

/// A mask with the low `n` bits set.
pub open spec fn low_mask(n: int) -> u8 {
    (((1u16 << (n as u16)) - 1) as u16) as u8
}

/// A mask with the low `n` bits set: `make_mask(3)` is the binary number
/// 00000111.
pub fn make_mask(n: usize) -> (r: u8)
    requires
        n <= 8,
    ensures
        r == low_mask(n as int),
        forall|i: int|
            0 <= i < 8 ==> #[trigger] bit_of(r, i) == (if i >= 8 - n {
                1u8
            } else {
                0u8
            }),
{
    let n16: u16 = n as u16;
    proof {
        bv_mask_facts(n16, 0);
    }
    let r: u8 = ((1u16 << n16) - 1) as u8;
    assert forall|i: int| 0 <= i < 8 implies #[trigger] bit_of(r, i) == (if i >= 8 - n {
        1u8
    } else {
        0u8
    }) by {
        bv_mask_facts(n16, (7 - i) as u8);
    }
    r
}

/// Assigns `src` to `dst` under the mask: the bits of `dst` outside the
/// mask are kept.
pub fn mask_bits(src: u8, dst: u8, mask: u8) -> (r: u8)
    ensures
        r == (src & mask) | (dst & !mask),
        forall|i: int|
            0 <= i < 8 ==> #[trigger] bit_of(r, i) == (if bit_of(mask, i) == 1 {
                bit_of(src, i)
            } else {
                bit_of(dst, i)
            }),
{
    proof {
        lemma_bits_merge(src, dst, mask);
    }
    (src & mask) | (dst & !mask)
}

/// Bit `j` of byte `m` is bit `8 * m + j` of the sequence.
pub proof fn lemma_bit_at(data: Seq<u8>, m: int, j: int)
    requires
        0 <= j < 8,
    ensures
        bit_at(data, 8 * m + j) == bit_of(data[m], j),
{
    assert((8 * m + j) / 8 == m);
    assert((8 * m + j) % 8 == j);
}

/// The byte made of the eight bits of `data` that start at bit `pos`.
pub fn take_byte(data: &[u8], pos: usize) -> (r: u8)
    requires
        pos + 8 <= 8 * data.len(),
    ensures
        forall|i: int| 0 <= i < 8 ==> #[trigger] bit_of(r, i) == bit_at(data@, pos + i),
        r == bits_value(data@, pos as int, 8),
{
    let m: usize = pos / 8;
    let l: usize = pos % 8;
    if l == 0 {
        let r: u8 = data[m];
        assert forall|i: int| 0 <= i < 8 implies #[trigger] bit_of(r, i) == bit_at(
            data@,
            pos + i,
        ) by {
            lemma_bit_at(data@, m as int, i);
        }
        proof {
            lemma_prefix_value(data@, pos as int, r, 8);
            assert((r as u16) >> 0u16 == r as u16) by (bit_vector);
        }
        r
    } else {
        let prev: u8 = data[m];
        let next: u8 = data[m + 1];
        let r: u8 = (prev << (l as u8)) | (next >> ((8 - l) as u8));
        proof {
            lemma_bits_splice(prev, next, l as u8);
        }
        assert forall|i: int| 0 <= i < 8 implies #[trigger] bit_of(r, i) == bit_at(
            data@,
            pos + i,
        ) by {
            if i + l < 8 {
                lemma_bit_at(data@, m as int, i + l);
                assert(pos + i == 8 * m + (i + l));
            } else {
                lemma_bit_at(data@, m + 1, i + l - 8);
                assert(pos + i == 8 * (m + 1) + (i + l - 8));
            }
        }
        proof {
            lemma_prefix_value(data@, pos as int, r, 8);
            assert((r as u16) >> 0u16 == r as u16) by (bit_vector);
        }
        r
    }
}

/// The number that the `n` bits of `data` from bit `pos` on spell, for at
/// most eight bits.
pub fn take_bits(data: &[u8], pos: usize, n: usize) -> (r: u8)
    requires
        0 < n <= 8,
        pos + n <= 8 * data.len(),
    ensures
        r == bits_value(data@, pos as int, n as int),
{
    let off: usize = pos % 8;
    let y: u8 = if off + n <= 8 {
        // All bits are in one byte.
        let x: u8 = data[pos / 8];
        proof {
            lemma_bits_shl(x, off as u8);
        }
        assert forall|i: int| 0 <= i < n implies #[trigger] bit_of(x << (off as u8), i) == bit_at(
            data@,
            pos + i,
        ) by {
            lemma_bit_at(data@, (pos / 8) as int, i + off);
            assert(pos + i == 8 * (pos / 8) + (i + off));
        }
        x << (off as u8)
    } else {
        // The bits are in two different bytes.
        take_byte(data, pos)
    };
    proof {
        lemma_prefix_value(data@, pos as int, y, n as int);
        let s: u16 = (8 - n) as u16;
        assert(((y as u16) >> s) == (y >> (s as u8)) as u16) by (bit_vector)
            requires
                s < 8,
        ;
    }
    y >> ((8 - n) as u8)
}

proof fn bv_prefix_step(y: u8, s: u16)
    by (bit_vector)
    requires
        s < 8,
    ensures
        (y as u16) >> s == 2 * ((y as u16) >> ((s + 1) as u16)) + (((y >> (s as u8)) & 1u8) as u16),
        (y as u16) >> 8u16 == 0u16,
        (y as u16) >> s <= 255u16,
{
}

/// The first `n` bits of a byte spell the byte shifted right by `8 - n`.
pub proof fn lemma_prefix_value(data: Seq<u8>, pos: int, y: u8, n: int)
    requires
        0 <= n <= 8,
        forall|i: int| 0 <= i < n ==> #[trigger] bit_of(y, i) == bit_at(data, pos + i),
    ensures
        bits_value(data, pos, n) == ((y as u16) >> ((8 - n) as u16)),
    decreases n,
{
    if n == 0 {
        bv_prefix_step(y, 0);
    } else {
        lemma_prefix_value(data, pos, y, n - 1);
        bv_prefix_step(y, (8 - n) as u16);
        assert(bit_of(y, n - 1) == bit_at(data, pos + (n - 1)));
        assert((7 - (n - 1)) as u8 == ((8 - n) as u16) as u8);
    }
}

/// Two to the power `n`.
pub open spec fn pow2(n: int) -> int
    decreases n,
{
    if n <= 0 {
        1
    } else {
        2 * pow2(n - 1)
    }
}

/// The number spelled by `n + m` bits is the number of the first `n`, shifted
/// left by `m`, plus the number of the last `m`.
pub proof fn lemma_value_concat(data: Seq<u8>, lo: int, n: int, m: int)
    requires
        0 <= n,
        0 <= m,
    ensures
        bits_value(data, lo, n + m) == bits_value(data, lo, n) * pow2(m) + bits_value(
            data,
            lo + n,
            m,
        ),
    decreases m,
{
    if m > 0 {
        lemma_value_concat(data, lo, n, m - 1);
        assert(bits_value(data, lo, n) * (2 * pow2(m - 1)) == 2 * (bits_value(data, lo, n)
            * pow2(m - 1))) by (nonlinear_arith);
    }
}

/// The number spelled by `n` bits is below two to the `n`.
pub proof fn lemma_value_bound(data: Seq<u8>, lo: int, n: int)
    requires
        0 <= n,
    ensures
        0 <= bits_value(data, lo, n) < pow2(n),
    decreases n,
{
    if n > 0 {
        lemma_value_bound(data, lo, n - 1);
        lemma_bit_range(data[(lo + n - 1) / 8]);
    }
}

/// Bit ranges that agree bit for bit spell the same number.
pub proof fn lemma_value_same(a: Seq<u8>, ao: int, b: Seq<u8>, bo: int, n: int)
    requires
        0 <= n,
        same_bits(a, ao, b, bo, n),
    ensures
        bits_value(a, ao, n) == bits_value(b, bo, n),
    decreases n,
{
    if n > 0 {
        assert(same_bit(a, ao, b, bo, n - 1));
        assert forall|j: int| 0 <= j < n - 1 implies #[trigger] same_bit(a, ao, b, bo, j) by {}
        lemma_value_same(a, ao, b, bo, n - 1);
    }
}

/// The first powers of two.
pub proof fn lemma_pow2_values()
    ensures
        pow2(0) == 1,
        pow2(1) == 2,
        pow2(2) == 4,
        pow2(3) == 8,
        pow2(4) == 16,
        pow2(5) == 32,
        pow2(6) == 64,
        pow2(7) == 128,
        pow2(8) == 256,
        pow2(16) == 0x10000,
        pow2(31) == 0x8000_0000,
        pow2(32) == 0x1_0000_0000,
{
    reveal_with_fuel(pow2, 33);
}

/// Powers of two multiply by adding exponents.
pub proof fn lemma_pow2_add(a: int, b: int)
    requires
        0 <= a,
        0 <= b,
    ensures
        pow2(a + b) == pow2(a) * pow2(b),
        pow2(a) > 0,
    decreases a,
{
    if a > 0 {
        lemma_pow2_add(a - 1, b);
        assert((2 * pow2(a - 1)) * pow2(b) == 2 * (pow2(a - 1) * pow2(b))) by (nonlinear_arith);
    }
}


/// The bit of `data` at bit position `pos`.
pub fn take_bit(data: &[u8], pos: usize) -> (r: u8)
    requires
        pos < 8 * data.len(),
    ensures
        r == bit_at(data@, pos as int),
        r <= 1,
{
    get_bit(data[pos / 8], pos % 8)
}

/// The two bit ranges hold the same bit at place `j`.
pub open spec fn same_bit(a: Seq<u8>, ao: int, b: Seq<u8>, bo: int, j: int) -> bool {
    bit_at(a, ao + j) == bit_at(b, bo + j)
}

/// The two bit ranges agree on their first `n` bits.
pub open spec fn same_bits(a: Seq<u8>, ao: int, b: Seq<u8>, bo: int, n: int) -> bool {
    forall|j: int| 0 <= j < n ==> #[trigger] same_bit(a, ao, b, bo, j)
}

/// The order of two bit ranges of `size` bits, decided by the first bit in
/// which they differ: -1 where the first is less, 0 where they are equal, 1
/// where the first is greater.
pub open spec fn bits_order(a: Seq<u8>, ao: int, b: Seq<u8>, bo: int, size: int) -> int
    decreases size,
{
    if size <= 0 {
        0
    } else if bit_at(a, ao) < bit_at(b, bo) {
        -1
    } else if bit_at(a, ao) > bit_at(b, bo) {
        1
    } else {
        bits_order(a, ao + 1, b, bo + 1, size - 1)
    }
}

/// Bits that agree do not decide the order: it is that of what follows them.
pub proof fn lemma_order_skip(a: Seq<u8>, ao: int, b: Seq<u8>, bo: int, size: int, k: int)
    requires
        0 <= k <= size,
        same_bits(a, ao, b, bo, k),
    ensures
        bits_order(a, ao, b, bo, size) == bits_order(a, ao + k, b, bo + k, size - k),
    decreases k,
{
    if k > 0 {
        assert(same_bit(a, ao, b, bo, 0));
        assert forall|j: int| 0 <= j < k - 1 implies #[trigger] same_bit(
            a,
            ao + 1,
            b,
            bo + 1,
            j,
        ) by {
            assert(same_bit(a, ao, b, bo, j + 1));
        }
        lemma_order_skip(a, ao + 1, b, bo + 1, size - 1, k - 1);
    }
}

/// Comparing the other way round gives the opposite order.
pub proof fn lemma_order_symmetry(a: Seq<u8>, ao: int, b: Seq<u8>, bo: int, size: int)
    ensures
        bits_order(a, ao, b, bo, size) == -bits_order(b, bo, a, ao, size),
    decreases size,
{
    if size > 0 {
        lemma_order_symmetry(a, ao + 1, b, bo + 1, size - 1);
    }
}

/// Two bit ranges compare equal exactly when they agree bit for bit.
pub proof fn lemma_order_equal(a: Seq<u8>, ao: int, b: Seq<u8>, bo: int, size: int)
    requires
        0 <= size,
    ensures
        bits_order(a, ao, b, bo, size) == 0 <==> same_bits(a, ao, b, bo, size),
        -1 <= bits_order(a, ao, b, bo, size) <= 1,
    decreases size,
{
    if size > 0 {
        lemma_order_equal(a, ao + 1, b, bo + 1, size - 1);
        if bits_order(a, ao, b, bo, size) == 0 {
            assert forall|j: int| 0 <= j < size implies #[trigger] same_bit(a, ao, b, bo, j) by {
                if j > 0 {
                    assert(same_bit(a, ao + 1, b, bo + 1, j - 1));
                }
            }
        }
        if same_bits(a, ao, b, bo, size) {
            assert(same_bit(a, ao, b, bo, 0));
            assert forall|j: int| 0 <= j < size - 1 implies #[trigger] same_bit(
                a,
                ao + 1,
                b,
                bo + 1,
                j,
            ) by {
                assert(same_bit(a, ao, b, bo, j + 1));
            }
        }
    }
}

/// A byte is the number that its eight bits spell.
pub proof fn lemma_byte_value(data: Seq<u8>, j: int)
    ensures
        bits_value(data, 8 * j, 8) == data[j],
{
    let y = data[j];
    assert forall|i: int| 0 <= i < 8 implies #[trigger] bit_of(y, i) == bit_at(data, 8 * j + i) by {
        lemma_bit_at(data, j, i);
    }
    lemma_prefix_value(data, 8 * j, y, 8);
    assert((y as u16) >> 0u16 == y as u16) by (bit_vector);
}

/// The number spelled by the first `r` bits of a range of `r + m` bits is
/// the range's number divided by two to the `m`.
pub proof fn lemma_value_split(data: Seq<u8>, lo: int, r: int, m: int)
    requires
        0 <= r,
        0 <= m,
    ensures
        bits_value(data, lo, r) == bits_value(data, lo, r + m) / pow2(m),
        bits_value(data, lo + r, m) == bits_value(data, lo, r + m) % pow2(m),
{
    lemma_value_concat(data, lo, r, m);
    lemma_value_bound(data, lo + r, m);
    vstd::arithmetic::div_mod::lemma_fundamental_div_mod_converse(
        bits_value(data, lo, r + m),
        pow2(m),
        bits_value(data, lo, r),
        bits_value(data, lo + r, m),
    );
}

} // verus!
