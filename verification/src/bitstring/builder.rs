//! The builder: the write side of the bitstring engine.
use super::bits::{
    bit_at, bits_value, lemma_byte_value, lemma_pow2_add, lemma_pow2_values,
    lemma_value_bound, lemma_value_split, nbytes, pow2, same_bit, same_bits, spec_nbytes,
};
use super::copy::{copy_bits, lemma_copied_forward, lemma_copied_value};
use super::field::{be_digits, field_unsigned, le_digits, lemma_be_digits, lemma_le_digits};
use super::{host_is_little_endian, BinaryTable, Flag, RcBinary, SubBinary, BSF_LITTLE};
use crate::value::Term;
use crate::value::integer::{
    int_of, le_value, lemma_le_push, lemma_le_top, lemma_pow256_add, lemma_pow256_values,
    lemma_pow_split, pow256, pow2_small, resized, twos_digits, Bignum,
};
use vstd::arithmetic::div_mod::{lemma_fundamental_div_mod, lemma_fundamental_div_mod_converse};
use vstd::prelude::*;

verus! {

/// The digits spell a number below 256 to their count.
pub proof fn lemma_le_bound(d: Seq<u8>)
    ensures
        0 <= le_value(d) < pow256(d.len() as int),
{
    if d.len() > 0 {
        lemma_le_push(d.drop_last(), d.last());
        assert(d.drop_last().push(d.last()) =~= d);
        let p = pow256(d.len() - 1);
        assert(d.last() * p <= 255 * p) by (nonlinear_arith)
            requires
                d.last() <= 255,
                p > 0,
        ;
        assert(d.last() * p >= 0) by (nonlinear_arith)
            requires
                d.last() >= 0,
                p > 0,
        ;
    }
}

/// `f` is `val` modulo `m`, given how both differ from `x`.
proof fn lemma_mod_from_parts(val: int, x: int, f: int, m: int, a: int, b: int, c: int)
    requires
        m > 0,
        0 <= f < m,
        val == x + a * (b * m),
        x == f + c * m,
    ensures
        f == val % m,
{
    assert(val == (a * b + c) * m + f) by (nonlinear_arith)
        requires
            val == x + a * (b * m),
            x == f + c * m,
    ;
    lemma_fundamental_div_mod_converse(val, m, a * b + c, f);
}

/// Writes the low `bit_size` bits of `val`, a number in two's complement, to
/// the field that starts at bit `offset` of `buf`: most significant bit
/// first, or, for a little-endian field, least significant byte first with
/// the bits that are left over last.
pub fn fmt_int(buf: &mut Vec<u8>, offset: usize, val: i32, bit_size: usize, flags: Flag)
    requires
        0 < bit_size,
        offset + bit_size <= 8 * old(buf).len(),
    ensures
        final(buf).len() == old(buf).len(),
        forall|p: int|
            0 <= p < 8 * old(buf).len() && !(offset <= p < offset + bit_size) ==> #[trigger] bit_at(
                final(buf)@,
                p,
            ) == bit_at(old(buf)@, p),
        field_unsigned(final(buf)@, offset as int, bit_size as int, flags.little()) == (val as int)
            % pow2(bit_size as int),
{
    let (d, Ghost(q)) = twos_digits(val, nbytes(bit_size));
    fmt_digits(buf, offset, d, Ghost(val as int), Ghost(q), bit_size, flags);
}

/// Writes the low `bit_size` bits of a bignum, as `fmt_int` writes those of
/// a small integer.
pub fn fmt_big(buf: &mut Vec<u8>, offset: usize, val: &Bignum, bit_size: usize, flags: Flag)
    requires
        0 < bit_size,
        offset + bit_size <= 8 * old(buf).len(),
    ensures
        final(buf).len() == old(buf).len(),
        forall|p: int|
            0 <= p < 8 * old(buf).len() && !(offset <= p < offset + bit_size) ==> #[trigger] bit_at(
                final(buf)@,
                p,
            ) == bit_at(old(buf)@, p),
        field_unsigned(final(buf)@, offset as int, bit_size as int, flags.little()) == val.value()
            % pow2(bit_size as int),
{
    let (d, Ghost(q)) = resized(&val.digits, nbytes(bit_size));
    fmt_digits(buf, offset, d, Ghost(val.value()), Ghost(q), bit_size, flags);
}

/// Writes the low `bit_size` bits of the number `val`, of which `d` are the
/// low bytes, least significant first.
#[verifier::rlimit(60)]
fn fmt_digits(
    buf: &mut Vec<u8>,
    offset: usize,
    d: Vec<u8>,
    Ghost(val): Ghost<int>,
    Ghost(q): Ghost<int>,
    bit_size: usize,
    flags: Flag,
)
    requires
        0 < bit_size,
        offset + bit_size <= 8 * old(buf).len(),
        d.len() == spec_nbytes(bit_size as int),
        val == le_value(d@) + q * pow256(d.len() as int),
    ensures
        final(buf).len() == old(buf).len(),
        forall|p: int|
            0 <= p < 8 * old(buf).len() && !(offset <= p < offset + bit_size) ==> #[trigger] bit_at(
                final(buf)@,
                p,
            ) == bit_at(old(buf)@, p),
        field_unsigned(final(buf)@, offset as int, bit_size as int, flags.little()) == val % pow2(
            bit_size as int,
        ),
{
    let n: usize = bit_size;
    let len: usize = nbytes(n);
    let full: usize = n / 8;
    let r: usize = n % 8;
    let ghost before = buf@;
    let ghost x = le_value(d@);
    proof {
        lemma_pow2_values();
        lemma_le_bound(d@);
        lemma_pow_split(len as int, 0);
        lemma_pow_split(full as int, r as int);
        lemma_pow2_add(8 - r, n as int);
        lemma_pow2_add(r as int, 8 - r);
    }
    if flags.contains(BSF_LITTLE) {
        let mut scratch: Vec<u8> = d;
        let ghost digits = scratch@;
        let mut low: u16 = 0;
        let mut m: u16 = 1;
        if r > 0 {
            m = pow2_small(r);
            let top: u8 = scratch[len - 1];
            low = (top as u16) % m;
            let step: u16 = 256 / m;
            assert(step == pow2(8 - r) && low * step < 256) by (nonlinear_arith)
                requires
                    m * pow2(8 - r) == 256,
                    step == 256int / (m as int),
                    0 <= low < m,
                    m > 0,
            ;
            let aligned: u8 = (low * step) as u8;
            scratch.set(len - 1, aligned);
            proof {
                lemma_byte_value(scratch@, full as int);
                lemma_value_split(scratch@, 8 * full, r as int, 8 - r);
                lemma_fundamental_div_mod_converse(aligned as int, step as int, low as int, 0);
            }
        }
        copy_bits(scratch.as_slice(), 0, 1, buf, offset, 1, n);
        proof {
            lemma_copied_forward(scratch@, 0, before, buf@, offset as int, n as int);
            let e = Seq::new(
                len as nat,
                |j: int|
                    if j < full {
                        digits[j]
                    } else {
                        low as u8
                    },
            );
            assert forall|j: int| 0 <= j < full implies #[trigger] e[j] == bits_value(
                buf@,
                offset + 8 * j,
                8,
            ) by {
                lemma_copied_value(scratch@, 0, buf@, offset as int, n as int, 8 * j, 8);
                lemma_byte_value(scratch@, j);
            }
            if r > 0 {
                lemma_copied_value(scratch@, 0, buf@, offset as int, n as int, 8 * full, r as int);
            }
            assert(le_digits(buf@, offset as int, n as int, e));
            lemma_le_digits(buf@, offset as int, n as int, e);
            let f = le_value(e);
            if r == 0 {
                assert(e =~= digits);
                lemma_mod_from_parts(val, x, f, pow2(n as int), q, 1, 0);
            } else {
                lemma_le_top(digits);
                lemma_le_top(e);
                assert(e.drop_last() =~= digits.drop_last());
                let top = digits.last() as int;
                let p = pow256(full as int);
                let lo = le_value(digits.drop_last());
                lemma_fundamental_div_mod(top, m as int);
                assert(pow2(n as int) == m * p);
                assert(x == f + (top / (m as int)) * (m * p)) by (nonlinear_arith)
                    requires
                        x == lo + top * p,
                        f == lo + low * p,
                        top == m * (top / (m as int)) + low,
                ;
                assert(0 <= f < m * p) by (nonlinear_arith)
                    requires
                        f == lo + low * p,
                        0 <= lo < p,
                        0 <= low < m,
                ;
                assert(pow256(len as int) == pow2(8 - r) * pow2(n as int));
                lemma_mod_from_parts(
                    val,
                    x,
                    f,
                    pow2(n as int),
                    q,
                    pow2(8 - r),
                    top / (m as int),
                );
            }
        }
    } else {
        let mut scratch: Vec<u8> = Vec::new();
        let mut j: usize = 0;
        while j < len
            invariant
                j <= len,
                len == d.len(),
                scratch.len() == j,
                forall|i: int| 0 <= i < j ==> #[trigger] scratch@[i] == d@[len - 1 - i],
            decreases len - j,
        {
            scratch.push(d[len - 1 - j]);
            j = j + 1;
        }
        let soffs: usize = if r > 0 {
            8 - r
        } else {
            0
        };
        copy_bits(scratch.as_slice(), soffs, 1, buf, offset, 1, n);
        proof {
            lemma_copied_forward(scratch@, soffs as int, before, buf@, offset as int, n as int);
            lemma_copied_value(scratch@, soffs as int, buf@, offset as int, n as int, 0, n as int);
            assert forall|i: int| 0 <= i < (8 * len) / 8 implies #[trigger] d@[i] == bits_value(
                scratch@,
                0 + 8 * len - 8 * (i + 1),
                8,
            ) by {
                lemma_byte_value(scratch@, len - 1 - i);
            }
            assert(be_digits(scratch@, 0, 8 * len, d@));
            lemma_be_digits(scratch@, 0, 8 * len, d@);
            lemma_value_split(scratch@, 0, soffs as int, n as int);
            lemma_value_bound(scratch@, soffs as int, n as int);
            let f = bits_value(scratch@, soffs as int, n as int);
            lemma_fundamental_div_mod(x, pow2(n as int));
            assert(x == f + (x / pow2(n as int)) * pow2(n as int)) by (nonlinear_arith)
                requires
                    x == pow2(n as int) * (x / pow2(n as int)) + f,
            ;
            assert(pow256(len as int) == pow2(soffs as int) * pow2(n as int));
            lemma_mod_from_parts(
                val,
                x,
                f,
                pow2(n as int),
                q,
                pow2(soffs as int),
                x / pow2(n as int),
            );
        }
    }
}

/// The write cursor over a binary.
#[derive(Clone, Copy, Debug, PartialEq, Eq, Structural)]
pub struct Builder {
    /// The binary that is written to.
    pub binary: RcBinary,
    /// Offset in bits
    pub offset: usize,
}

/// The new table is the old one but for the bytes of one binary, whose
/// number is the same.
pub open spec fn rewritten(before: &BinaryTable, after: &BinaryTable, rc: RcBinary) -> bool {
    &&& after.bins.len() == before.bins.len()
    &&& forall|i: int|
        0 <= i < before.bins.len() && i != rc.0 ==> #[trigger] after.bins[i] == before.bins[i]
    &&& after.writable(rc) == before.writable(rc)
    &&& after.bytes(rc).len() == before.bytes(rc).len()
}

impl Builder {
    /// A builder at the start of a binary.
    pub fn new(binary: RcBinary) -> (b: Builder)
        ensures
            b.binary == binary,
            b.offset == 0,
    {
        Builder { binary, offset: 0 }
    }

    /// The bytes of the binary that is written to.
    #[inline]
    pub fn data<'a>(&self, table: &'a BinaryTable) -> (d: &'a Vec<u8>)
        requires
            table.has(self.binary),
        ensures
            d@ == table.bytes(self.binary),
    {
        &table.get(self.binary).data
    }

    /// Writes `size` bits of an integer at the cursor, in two's complement:
    /// big-endian unless the flags say little-endian. No bits write
    /// nothing.
    pub fn put_integer(&mut self, table: &mut BinaryTable, size: usize, flags: Flag, value: &Term)
        requires
            old(table).has(old(self).binary),
            int_of(*value) is Some,
            old(self).offset + size <= 8 * old(table).bytes(old(self).binary).len(),
            old(self).offset + size <= usize::MAX,
        ensures
            final(self).binary == old(self).binary,
            final(self).offset == old(self).offset + size,
            rewritten(old(table), final(table), old(self).binary),
            forall|p: int|
                0 <= p < 8 * old(table).bytes(old(self).binary).len() && !(old(self).offset <= p
                    < old(self).offset + size) ==> #[trigger] bit_at(
                    final(table).bytes(old(self).binary),
                    p,
                ) == bit_at(old(table).bytes(old(self).binary), p),
            size > 0 ==> {
                let data = final(table).bytes(old(self).binary);
                let lo = old(self).offset as int;
                let v = int_of(*value)->0 % pow2(size as int);
                &&& !flags.native() ==> field_unsigned(data, lo, size as int, flags.little()) == v
                &&& flags.native() ==> (field_unsigned(data, lo, size as int, true) == v
                    || field_unsigned(data, lo, size as int, false) == v)
            },
    {
        let flags = flags.resolve_native();
        if size == 0 {
            return ;
        }
        let idx: usize = self.binary.0;
        match value {
            Term::Int(i) => fmt_int(&mut table.bins[idx].data, self.offset, *i, size, flags),
            Term::BigInt(b) => fmt_big(&mut table.bins[idx].data, self.offset, b, size, flags),
            _ => {},
        }
        self.offset = self.offset + size;
    }

    /// Copies the bytes to the cursor, which stands at a byte boundary.
    pub fn put_bytes(&mut self, table: &mut BinaryTable, binary: &[u8])
        requires
            old(table).has(old(self).binary),
            old(self).offset % 8 == 0,
            old(self).offset + 8 * binary.len() <= 8 * old(table).bytes(old(self).binary).len(),
            old(self).offset + 8 * binary.len() <= usize::MAX,
        ensures
            final(self).binary == old(self).binary,
            final(self).offset == old(self).offset + 8 * binary.len(),
            rewritten(old(table), final(table), old(self).binary),
            final(table).bytes(old(self).binary) == {
                let data = old(table).bytes(old(self).binary);
                let start = old(self).offset / 8;
                data.subrange(0, start as int) + binary@ + data.subrange(
                    start + binary.len(),
                    data.len() as int,
                )
            },
    {
        let start: usize = self.offset / 8;
        let idx: usize = self.binary.0;
        let ghost data = table.bytes(self.binary);
        let mut i: usize = 0;
        while i < binary.len()
            invariant
                i <= binary.len(),
                idx == self.binary.0,
                table.has(self.binary),
                rewritten(old(table), table, self.binary),
                data == old(table).bytes(self.binary),
                start + binary.len() <= data.len(),
                start + binary.len() <= usize::MAX,
                table.bytes(self.binary) == data.subrange(0, start as int) + binary@.subrange(
                    0,
                    i as int,
                ) + data.subrange(start + i, data.len() as int),
            decreases binary.len() - i,
        {
            let ghost cur = table.bytes(self.binary);
            table.bins[idx].data.set(start + i, binary[i]);
            assert(table.bytes(self.binary) =~= data.subrange(0, start as int) + binary@.subrange(
                0,
                i + 1,
            ) + data.subrange(start + i + 1, data.len() as int));
            i = i + 1;
        }
        assert(binary@.subrange(0, binary.len() as int) =~= binary@);
        self.offset = self.offset + binary.len() * 8;
    }

    /// Copies the eight bytes of a floating-point number, given as the bits
    /// of its double-precision encoding, to the cursor, which stands at a
    /// byte boundary. The bytes are in the order of the host.
    pub fn put_float(&mut self, table: &mut BinaryTable, float: u64)
        requires
            old(table).has(old(self).binary),
            old(self).offset % 8 == 0,
            old(self).offset + 64 <= 8 * old(table).bytes(old(self).binary).len(),
            old(self).offset + 64 <= usize::MAX,
        ensures
            final(self).binary == old(self).binary,
            final(self).offset == old(self).offset + 64,
            rewritten(old(table), final(table), old(self).binary),
            ({
                let data = old(table).bytes(old(self).binary);
                let start = old(self).offset / 8;
                let written = final(table).bytes(old(self).binary);
                written == data.subrange(0, start as int) + float_bytes(float, true)
                    + data.subrange(start + 8, data.len() as int) || written == data.subrange(
                    0,
                    start as int,
                ) + float_bytes(float, false) + data.subrange(start + 8, data.len() as int)
            }),
    {
        let little: bool = host_is_little_endian();
        let mut bytes: Vec<u8> = Vec::new();
        let mut i: usize = 0;
        while i < 8
            invariant
                i <= 8,
                bytes.len() == i,
                forall|j: int| 0 <= j < i ==> #[trigger] bytes@[j] == float_bytes(float, little)[j],
            decreases 8 - i,
        {
            let place: usize = if little {
                i
            } else {
                7 - i
            };
            let mut rest: u64 = float;
            let mut k: usize = 0;
            proof {
                lemma_pow256_values();
            }
            while k < place
                invariant
                    k <= place <= 7,
                    rest == float / (pow256(k as int) as u64),
                    0 < pow256(k as int) <= 0x1_0000_0000_0000_0000,
                decreases place - k,
            {
                proof {
                    lemma_pow256_add(1, k as int);
                    lemma_pow256_values();
                    crate::value::integer::lemma_pow256_grows(k + 1, 7);
                    reveal_with_fuel(pow256, 8);
                    vstd::arithmetic::div_mod::lemma_div_denominator(
                        float as int,
                        pow256(k as int),
                        256,
                    );
                }
                rest = rest / 256;
                k = k + 1;
            }
            bytes.push((rest % 256) as u8);
            i = i + 1;
        }
        assert(bytes@ =~= float_bytes(float, little));
        self.put_bytes(table, bytes.as_slice());
    }

    /// Copies all the bits of a binary or a sub-binary to the cursor.
    /// Neither the source nor the cursor need be byte aligned.
    pub fn put_binary_all(&mut self, table: &mut BinaryTable, binary: &Term)
        requires
            old(table).has(old(self).binary),
            binary is Binary || binary is SubBinary,
            binary matches Term::Binary(rc) ==> old(table).has(*rc),
            binary matches Term::SubBinary(sb) ==> sb.wf(old(table)),
            old(self).offset + bitstring_len(*binary, old(table)) <= 8 * old(table).bytes(
                old(self).binary,
            ).len(),
            old(self).offset + bitstring_len(*binary, old(table)) <= usize::MAX,
            bitstring_start(*binary) + bitstring_len(*binary, old(table)) <= usize::MAX,
        ensures
            final(self).binary == old(self).binary,
            final(self).offset == old(self).offset + bitstring_len(*binary, old(table)),
            rewritten(old(table), final(table), old(self).binary),
            same_bits(
                final(table).bytes(old(self).binary),
                old(self).offset as int,
                old(table).bytes(bitstring_origin(*binary)),
                bitstring_start(*binary),
                bitstring_len(*binary, old(table)),
            ),
            forall|p: int|
                0 <= p < 8 * old(table).bytes(old(self).binary).len() && !(old(self).offset <= p
                    < old(self).offset + bitstring_len(*binary, old(table))) ==> #[trigger] bit_at(
                    final(table).bytes(old(self).binary),
                    p,
                ) == bit_at(old(table).bytes(old(self).binary), p),
    {
        let (origin, start, len): (RcBinary, usize, usize) = match binary {
            Term::Binary(rc) => (*rc, 0, table.get(*rc).data.len() * 8),
            Term::SubBinary(sb) => (
                sb.original,
                sb.offset * 8 + sb.bit_offset as usize,
                sb.size * 8 + sb.bitsize,
            ),
            _ => (self.binary, 0, 0),
        };
        let ghost source = table.bytes(origin);
        let ghost before = table.bytes(self.binary);
        // The source may be the binary that is written to: go through a copy.
        let mut scratch: Vec<u8> = Vec::new();
        scratch.resize(nbytes(len), 0u8);
        let ghost blank = scratch@;
        copy_bits(table.get(origin).data.as_slice(), start, 1, &mut scratch, 0, 1, len);
        let idx: usize = self.binary.0;
        copy_bits(scratch.as_slice(), 0, 1, &mut table.bins[idx].data, self.offset, 1, len);
        proof {
            let after = table.bytes(self.binary);
            lemma_copied_forward(source, start as int, blank, scratch@, 0, len as int);
            lemma_copied_forward(scratch@, 0, before, after, self.offset as int, len as int);
            assert forall|j: int| 0 <= j < len implies #[trigger] same_bit(
                after,
                self.offset as int,
                source,
                start as int,
                j,
            ) by {
                assert(same_bit(after, self.offset as int, scratch@, 0, j));
                assert(same_bit(scratch@, 0, source, start as int, j));
            }
        }
        self.offset = self.offset + len;
    }
}

/// The eight bytes of the bits of a double-precision number: least
/// significant byte first, or most significant byte first.
pub open spec fn float_bytes(bits: u64, little: bool) -> Seq<u8> {
    Seq::new(
        8,
        |i: int|
            ((bits / (pow256(
                if little {
                    i
                } else {
                    7 - i
                },
            ) as u64)) % 256) as u8,
    )
}

/// The binary that a binary term or a sub-binary term views.
pub open spec fn bitstring_origin(t: Term) -> RcBinary {
    match t {
        Term::Binary(rc) => rc,
        Term::SubBinary(sb) => sb.original,
        _ => RcBinary(0),
    }
}

/// The bit of its binary at which a bitstring term starts.
pub open spec fn bitstring_start(t: Term) -> int {
    match t {
        Term::SubBinary(sb) => sb.first_bit(),
        _ => 0,
    }
}

/// The length in bits of a bitstring term: a binary term views all the
/// bytes of its binary.
pub open spec fn bitstring_len(t: Term, table: &BinaryTable) -> int {
    match t {
        Term::Binary(rc) => 8 * (table.bytes(rc).len() as int),
        Term::SubBinary(sb) => sb.bit_len(),
        _ => 0,
    }
}

} // verus!
