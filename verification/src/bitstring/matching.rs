//! The match buffer: the read side of the bitstring engine.
use super::bits::{
    bit_at, bit_of, bits, bits_value, lemma_bit_at, lemma_byte_value, lemma_pow2_values,
    lemma_value_bound, take_bits, take_byte,
};
use super::field::{field_digits, field_unsigned, field_value, signed_digits};
use super::float::{is_finite32, is_finite64, widen, widened};
use super::{BinaryTable, Bytes, Flag, MatchBuffer, RcBinary, SubBinary, BSF_LITTLE, BSF_SIGNED};
use crate::value::integer::{integer_term, is_integer, le_to_u64, pow2_small};
use crate::value::cons::with_front;
use crate::value::{Cons, MatchState, Term, TermView};
use vstd::prelude::*;
use vstd::utf8::{decode_first_scalar, length_of_first_scalar, valid_first_scalar};

verus! {

/// The byte made of the eight bits from bit `pos` on.
pub open spec fn byte_from(data: Seq<u8>, pos: int) -> u8 {
    bits_value(data, pos, 8) as u8
}

/// The 16-bit word at byte `i`.
pub open spec fn utf16_word(bytes: Seq<u8>, i: int, little: bool) -> int {
    if little {
        bytes[i] + 256 * bytes[i + 1]
    } else {
        256 * bytes[i] + bytes[i + 1]
    }
}

/// The bytes start with a code point in UTF-16: one word outside the
/// surrogate range, or a high surrogate followed by a low one.
pub open spec fn valid_utf16(bytes: Seq<u8>, little: bool) -> bool {
    &&& bytes.len() >= 2
    &&& {
        let w1 = utf16_word(bytes, 0, little);
        ||| w1 < 0xD800
        ||| w1 > 0xDFFF
        ||| (w1 <= 0xDBFF && bytes.len() >= 4 && 0xDC00 <= utf16_word(bytes, 2, little)
            <= 0xDFFF)
    }
}

/// The number of bytes of the first code point.
pub open spec fn utf16_len(bytes: Seq<u8>, little: bool) -> int {
    let w1 = utf16_word(bytes, 0, little);
    if w1 < 0xD800 || w1 > 0xDFFF {
        2
    } else {
        4
    }
}

/// The first code point.
pub open spec fn decode_utf16(bytes: Seq<u8>, little: bool) -> int {
    let w1 = utf16_word(bytes, 0, little);
    if w1 < 0xD800 || w1 > 0xDFFF {
        w1
    } else {
        0x10000 + (w1 - 0xD800) * 0x400 + (utf16_word(bytes, 2, little) - 0xDC00)
    }
}

/// The term that a floating-point field of `n` bits at bit `lo` reads as:
/// the bits of a double-precision field as they are, those of a
/// single-precision field widened. `None` for a field of another width and
/// for one that is infinite or no number.
pub open spec fn float_field(data: Seq<u8>, lo: int, n: int, little: bool) -> Option<Term> {
    let bits = field_unsigned(data, lo, n, little);
    if n == 64 && is_finite64(bits) {
        Some(Term::Float(bits as u64))
    } else if n == 32 && is_finite32(bits) {
        Some(Term::Float(widened(bits) as u64))
    } else {
        None
    }
}

impl MatchBuffer {
    /// The cursor lies inside its window, and the window inside the space
    /// reserved for the binary.
    pub open spec fn wf(&self, table: &BinaryTable) -> bool {
        &&& table.has(self.original)
        &&& self.offset <= self.size
        &&& self.size <= 8 * table.bytes(self.original).len()
    }

    /// The bits that are still to be read.
    pub open spec fn rest(&self, table: &BinaryTable) -> Seq<u8> {
        bits(table.bytes(self.original), self.offset as int, self.size - self.offset)
    }

    /// A match buffer over a whole binary.
    pub fn from_binary(table: &BinaryTable, original: RcBinary) -> (r: Option<MatchBuffer>)
        requires
            table.has(original),
        ensures
            r is Some <==> 8 * table.bytes(original).len() <= usize::MAX,
            r matches Some(mb) ==> mb.original == original && mb.offset == 0 && mb.size == 8
                * table.bytes(original).len() && mb.wf(table),
    {
        let len = table.get(original).data.len();
        if len > usize::MAX / 8 {
            return None;
        }
        Some(MatchBuffer { original, offset: 0, size: len * 8 })
    }

    /// A match buffer over the bits of a sub-binary.
    pub fn from_sub_binary(binary: SubBinary) -> (r: Option<MatchBuffer>)
        ensures
            r is Some <==> binary.first_bit() + binary.bit_len() <= usize::MAX,
            r matches Some(mb) ==> mb.original == binary.original && mb.offset
                == binary.first_bit() && mb.size == binary.first_bit() + binary.bit_len(),
    {
        // The size counts from the start of the binary, so that `remaining`
        // is the length of the view.
        let offset = match binary.offset.checked_mul(8) {
            Some(o) => match o.checked_add(binary.bit_offset as usize) {
                Some(o) => o,
                None => {
                    return None;
                },
            },
            None => {
                return None;
            },
        };
        let len = match binary.size.checked_mul(8) {
            Some(l) => match l.checked_add(binary.bitsize) {
                Some(l) => l,
                None => {
                    return None;
                },
            },
            None => {
                return None;
            },
        };
        match offset.checked_add(len) {
            Some(size) => Some(MatchBuffer { original: binary.original, offset, size }),
            None => None,
        }
    }

    /// The number of bits that are still to be read.
    #[inline(always)]
    pub fn remaining(&self) -> (r: usize)
        requires
            self.offset <= self.size,
        ensures
            r == self.size - self.offset,
    {
        self.size - self.offset
    }

    /// Reads `num_bytes` bytes: at a byte boundary they are borrowed from
    /// the binary, elsewhere a copy is made. `None` on underflow, and then
    /// the cursor stays.
    pub fn get_bytes<'a>(&mut self, table: &'a BinaryTable, num_bytes: usize) -> (r: Option<
        Bytes<'a>,
    >)
        requires
            old(self).wf(table),
        ensures
            final(self).original == old(self).original,
            final(self).size == old(self).size,
            r is Some <==> 8 * num_bytes <= old(self).size - old(self).offset,
            r is None ==> final(self).offset == old(self).offset,
            r matches Some(buf) ==> {
                &&& final(self).offset == old(self).offset + 8 * num_bytes
                &&& buf@.len() == num_bytes
                &&& buf is Borrowed <==> old(self).offset % 8 == 0
                &&& forall|j: int|
                    0 <= j < num_bytes ==> #[trigger] buf@[j] == byte_from(
                        table.bytes(old(self).original),
                        old(self).offset + 8 * j,
                    )
                &&& bits(buf@, 0, 8 * num_bytes) == bits(
                    table.bytes(old(self).original),
                    old(self).offset as int,
                    8 * num_bytes,
                )
            },
    {
        if num_bytes > self.remaining() / 8 {
            // Asked for too many bits.
            return None;
        }
        let num_bits: usize = num_bytes * 8;
        let data: &'a Vec<u8> = &table.get(self.original).data;
        let start: usize = self.offset;
        if start % 8 == 0 {
            // aligned: advance the cursor and lend the bytes
            let first: usize = start / 8;
            let part: &'a [u8] = vstd::slice::slice_subrange(
                data.as_slice(),
                first,
                first + num_bytes,
            );
            self.offset = self.offset + num_bits;
            proof {
                assert forall|j: int| 0 <= j < num_bytes implies #[trigger] part@[j] == byte_from(
                    data@,
                    start + 8 * j,
                ) by {
                    lemma_byte_value(data@, first + j);
                }
                assert forall|p: int| 0 <= p < 8 * num_bytes implies #[trigger] bit_at(part@, p)
                    == bit_at(data@, start + p) by {
                    assert((start + p) / 8 == first + p / 8);
                    assert((start + p) % 8 == p % 8);
                }
                assert(bits(part@, 0, 8 * num_bytes) =~= bits(data@, start as int, 8 * num_bytes));
            }
            return Some(Bytes::Borrowed(part));
        }
        let mut buf: Vec<u8> = Vec::new();
        let mut i: usize = 0;
        while i < num_bytes
            invariant
                i <= num_bytes,
                buf.len() == i,
                start + 8 * num_bytes <= 8 * data.len(),
                start + 8 * num_bytes <= usize::MAX,
                forall|j: int| 0 <= j < i ==> #[trigger] buf[j] == byte_from(data@, start + 8 * j),
                forall|p: int| 0 <= p < 8 * i ==> #[trigger] bit_at(buf@, p) == bit_at(data@, start + p),
            decreases num_bytes - i,
        {
            let b: u8 = take_byte(data.as_slice(), start + 8 * i);
            let ghost prev = buf@;
            buf.push(b);
            proof {
                assert forall|p: int| 0 <= p < 8 * (i + 1) implies #[trigger] bit_at(buf@, p)
                    == bit_at(data@, start + p) by {
                    if p < 8 * i {
                        assert(bit_at(prev, p) == bit_at(data@, start + p));
                        assert(buf@[p / 8] == prev[p / 8]);
                    } else {
                        lemma_bit_at(buf@, i as int, p - 8 * i);
                        assert(bit_of(b, p - 8 * i) == bit_at(data@, start + 8 * i + (p - 8 * i)));
                    }
                }
            }
            i = i + 1;
        }
        self.offset = self.offset + num_bits;
        assert(bits(buf@, 0, 8 * num_bytes) =~= bits(data@, start as int, 8 * num_bytes));
        Some(Bytes::Owned(buf))
    }

    /// A sub-binary over the next `num_bits` bits. `None` on underflow, and
    /// then the cursor stays.
    pub fn get_binary(&mut self, num_bits: usize, _flags: Flag) -> (r: Option<Term>)
        requires
            old(self).offset <= old(self).size,
        ensures
            final(self).original == old(self).original,
            final(self).size == old(self).size,
            r is Some <==> num_bits <= old(self).size - old(self).offset,
            r is None ==> final(self).offset == old(self).offset,
            r matches Some(t) ==> {
                &&& final(self).offset == old(self).offset + num_bits
                &&& t == Term::SubBinary(
                    SubBinary::view_of(
                        old(self).original,
                        num_bits as int,
                        old(self).offset as int,
                        false,
                    ),
                )
            },
    {
        if self.remaining() < num_bits {
            // Asked for too many bits.
            return None;
        }
        // From now on, we can't fail.
        let binary = SubBinary::new(self.original, num_bits, self.offset, false);
        self.offset = self.offset + num_bits;
        Some(Term::SubBinary(binary))
    }

    /// A sub-binary over all the bits that are left; the cursor moves to the
    /// end.
    pub fn get_binary_all(&mut self, _flags: Flag) -> (r: Option<Term>)
        requires
            old(self).offset <= old(self).size,
        ensures
            final(self).original == old(self).original,
            final(self).size == old(self).size,
            final(self).offset == old(self).size,
            r == Some(
                Term::SubBinary(
                    SubBinary::view_of(
                        old(self).original,
                        old(self).size - old(self).offset,
                        old(self).offset as int,
                        false,
                    ),
                ),
            ),
    {
        let size = self.remaining();
        let binary = SubBinary::new(self.original, size, self.offset, false);
        self.offset = self.offset + size;
        Some(Term::SubBinary(binary))
    }

    /// Reads a floating-point number of 32 or 64 bits. `None` on underflow,
    /// for another width and for a field that is infinite or no number, and
    /// then the cursor stays.
    pub fn get_float(&mut self, table: &BinaryTable, num_bits: usize, flags: Flag) -> (r: Option<
        Term,
    >)
        requires
            old(self).wf(table),
        ensures
            final(self).original == old(self).original,
            final(self).size == old(self).size,
            r is None ==> final(self).offset == old(self).offset,
            r is Some ==> final(self).offset == old(self).offset + num_bits && num_bits <= old(self).size - old(self).offset,
            num_bits > old(self).size - old(self).offset ==> r is None,
            num_bits <= old(self).size - old(self).offset ==> {
                let data = table.bytes(old(self).original);
                let lo = old(self).offset as int;
                let n = num_bits as int;
                &&& !flags.native() ==> r == float_field(data, lo, n, flags.little())
                &&& flags.native() ==> (r == float_field(data, lo, n, true) || r == float_field(
                    data,
                    lo,
                    n,
                    false,
                ))
            },
    {
        let flags = flags.resolve_native();
        let little: bool = flags.contains(BSF_LITTLE);
        if num_bits != 32 && num_bits != 64 {
            return None;
        }
        if self.remaining() < num_bits {
            // Asked for too many bits.
            return None;
        }
        let data: &[u8] = table.get(self.original).data.as_slice();
        let digits: Vec<u8> = field_digits(data, self.offset, num_bits, little);
        let bits: u64 = le_to_u64(&digits);
        if num_bits == 32 {
            proof {
                crate::bitstring::builder::lemma_le_bound(digits@);
                crate::value::integer::lemma_pow256_values();
            }
            if (bits / 0x80_0000) % 256 == 255 {
                return None;
            }
            self.offset = self.offset + num_bits;
            Some(Term::Float(widen(bits as u32)))
        } else {
            if (bits / 0x10_0000_0000_0000) % 2048 == 2047 {
                return None;
            }
            self.offset = self.offset + num_bits;
            Some(Term::Float(bits))
        }
    }

    /// The whole bytes that are still to be read, each taken from where the
    /// cursor stands: the cursor need not be byte aligned.
    pub open spec fn rest_bytes(&self, table: &BinaryTable) -> Seq<u8> {
        Seq::new(
            ((self.size - self.offset) / 8) as nat,
            |j: int| byte_from(table.bytes(self.original), self.offset + 8 * j),
        )
    }

    /// Reads an integer of `num_bits` bits: big-endian unless the flags say
    /// little-endian, unsigned unless they say signed. No bits give 0.
    /// `None` on underflow, and then the cursor stays.
    pub fn get_integer(&mut self, table: &BinaryTable, num_bits: usize, flags: Flag) -> (r: Option<
        Term,
    >)
        requires
            old(self).wf(table),
        ensures
            final(self).original == old(self).original,
            final(self).size == old(self).size,
            r is Some <==> num_bits <= old(self).size - old(self).offset,
            r is None ==> final(self).offset == old(self).offset,
            r matches Some(t) ==> {
                let data = table.bytes(old(self).original);
                let lo = old(self).offset as int;
                let n = num_bits as int;
                &&& final(self).offset == old(self).offset + num_bits
                &&& !flags.native() ==> is_integer(
                    t,
                    field_value(data, lo, n, flags.little(), flags.signed()),
                )
                &&& flags.native() ==> (is_integer(
                    t,
                    field_value(data, lo, n, true, flags.signed()),
                ) || is_integer(t, field_value(data, lo, n, false, flags.signed())))
            },
    {
        let flags = flags.resolve_native();
        let little: bool = flags.contains(BSF_LITTLE);
        let signed: bool = flags.contains(BSF_SIGNED);
        if num_bits == 0 {
            return Some(Term::Int(0));
        }
        if self.remaining() < num_bits {
            // Asked for too many bits.
            return None;
        }
        let data: &[u8] = table.get(self.original).data.as_slice();
        let lo: usize = self.offset;
        if num_bits <= 8 {
            // The bits are in one byte, or in two: shift and mask.
            let b: u8 = take_bits(data, lo, num_bits);
            let limit: u16 = pow2_small(num_bits);
            let half: u16 = pow2_small(num_bits - 1);
            proof {
                lemma_value_bound(data@, lo as int, num_bits as int);
                lemma_pow2_values();
            }
            self.offset = self.offset + num_bits;
            let value: i32 = if signed && b as u16 >= half {
                b as i32 - limit as i32
            } else {
                b as i32
            };
            return Some(Term::Int(value));
        }
        let width: usize = (num_bits - 1) % 8 + 1;
        let digits: Vec<u8> = field_digits(data, lo, num_bits, little);
        proof {
            lemma_value_bound(data@, lo + 8 * ((num_bits - 1) / 8), width as int);
            lemma_value_bound(data@, lo as int, width as int);
        }
        let digits: Vec<u8> = signed_digits(digits, Ghost(num_bits as int), width, signed);
        self.offset = self.offset + num_bits;
        Some(integer_term(digits))
    }

    /// Decodes one code point in UTF-8: one to four bytes. Overlong
    /// encodings, surrogate halves and values above 0x10FFFF are rejected.
    /// `None` where the bytes at the cursor are no code point, and then
    /// the cursor stays.
    pub fn get_utf8(&mut self, table: &BinaryTable) -> (r: Option<Term>)
        requires
            old(self).wf(table),
        ensures
            final(self).original == old(self).original,
            final(self).size == old(self).size,
            r is Some <==> valid_first_scalar(old(self).rest_bytes(table)),
            r is None ==> final(self).offset == old(self).offset,
            r matches Some(t) ==> {
                let rest = old(self).rest_bytes(table);
                &&& t == Term::Int(decode_first_scalar(rest) as i32)
                &&& final(self).offset == old(self).offset + 8 * length_of_first_scalar(rest)
            },
    {
        let remaining_bits: usize = self.remaining();
        if remaining_bits < 8 {
            return None;
        }
        let data: &[u8] = table.get(self.original).data.as_slice();
        let lo: usize = self.offset;
        let ghost rest = self.rest_bytes(table);
        let b0: u8 = take_byte(data, lo);
        assert(rest[0] == b0);
        if b0 <= 0x7f {
            // One byte only
            self.offset = self.offset + 8;
            Some(Term::Int((b0 & 0x7F) as i32))
        } else if 0xc0 <= b0 && b0 <= 0xdf {
            // Two bytes
            if remaining_bits < 16 {
                return None;
            }
            let a: u8 = take_byte(data, lo + 8);
            assert(rest[1] == a);
            if !(0x80 <= a && a <= 0xbf) {
                return None;
            }
            let cp: u32 = (((b0 & 0x1F) as u32) << 6) | ((a & 0x3f) as u32);
            assert(cp < 0x800) by (bit_vector)
                requires
                    cp == (((b0 & 0x1F) as u32) << 6) | ((a & 0x3f) as u32),
            ;
            if cp < 0x80 {
                return None;
            }
            self.offset = self.offset + 16;
            Some(Term::Int(cp as i32))
        } else if 0xe0 <= b0 && b0 <= 0xef {
            // Three bytes
            if remaining_bits < 24 {
                return None;
            }
            let a: u8 = take_byte(data, lo + 8);
            let b: u8 = take_byte(data, lo + 16);
            assert(rest[1] == a);
            assert(rest[2] == b);
            if !(0x80 <= a && a <= 0xbf) || !(0x80 <= b && b <= 0xbf) {
                return None;
            }
            let cp: u32 = (((b0 & 0x0F) as u32) << 12) | (((a & 0x3f) as u32) << 6) | ((b
                & 0x3f) as u32);
            assert(cp < 0x10000) by (bit_vector)
                requires
                    cp == (((b0 & 0x0F) as u32) << 12) | (((a & 0x3f) as u32) << 6) | ((b
                        & 0x3f) as u32),
            ;
            if cp < 0x800 || (0xD800 <= cp && cp <= 0xDFFF) {
                return None;
            }
            self.offset = self.offset + 24;
            Some(Term::Int(cp as i32))
        } else if 0xf0 <= b0 && b0 <= 0xf7 {
            // Four bytes
            if remaining_bits < 32 {
                return None;
            }
            let a: u8 = take_byte(data, lo + 8);
            let b: u8 = take_byte(data, lo + 16);
            let c: u8 = take_byte(data, lo + 24);
            assert(rest[1] == a);
            assert(rest[2] == b);
            assert(rest[3] == c);
            if !(0x80 <= a && a <= 0xbf) || !(0x80 <= b && b <= 0xbf) || !(0x80 <= c && c
                <= 0xbf) {
                return None;
            }
            let cp: u32 = (((b0 & 0x07) as u32) << 18) | (((a & 0x3f) as u32) << 12) | (((b
                & 0x3f) as u32) << 6) | ((c & 0x3f) as u32);
            if cp < 0x10000 || cp > 0x10ffff {
                return None;
            }
            self.offset = self.offset + 32;
            Some(Term::Int(cp as i32))
        } else {
            None
        }
    }

    /// Decodes one code point in UTF-16: one word, or a high surrogate and
    /// a low surrogate. `None` where the bytes at the cursor are no code
    /// point, and then the cursor stays.
    pub fn get_utf16(&mut self, table: &BinaryTable, flags: Flag) -> (r: Option<Term>)
        requires
            old(self).wf(table),
        ensures
            final(self).original == old(self).original,
            final(self).size == old(self).size,
            r is Some <==> valid_utf16(old(self).rest_bytes(table), flags.little()),
            r is None ==> final(self).offset == old(self).offset,
            r matches Some(t) ==> {
                let rest = old(self).rest_bytes(table);
                &&& t == Term::Int(decode_utf16(rest, flags.little()) as i32)
                &&& final(self).offset == old(self).offset + 8 * utf16_len(rest, flags.little())
            },
    {
        let remaining_bits: usize = self.remaining();
        if remaining_bits < 16 {
            return None;
        }
        let little: bool = flags.contains(BSF_LITTLE);
        let data: &[u8] = table.get(self.original).data.as_slice();
        let lo: usize = self.offset;
        let ghost rest = self.rest_bytes(table);
        let s0: u8 = take_byte(data, lo);
        let s1: u8 = take_byte(data, lo + 8);
        assert(rest[0] == s0);
        assert(rest[1] == s1);
        // Get the first (and maybe only) 16-bit word. See if we are done.
        let w1: u32 = if little {
            s0 as u32 + 256 * (s1 as u32)
        } else {
            256 * (s0 as u32) + s1 as u32
        };
        if w1 < 0xD800 || w1 > 0xDFFF {
            self.offset = self.offset + 16;
            return Some(Term::Int(w1 as i32));
        } else if w1 > 0xDBFF {
            return None;
        }
        // Get the second 16-bit word and combine it with the first.
        if remaining_bits < 32 {
            return None;
        }
        let s2: u8 = take_byte(data, lo + 16);
        let s3: u8 = take_byte(data, lo + 24);
        assert(rest[2] == s2);
        assert(rest[3] == s3);
        let w2: u32 = if little {
            s2 as u32 + 256 * (s3 as u32)
        } else {
            256 * (s2 as u32) + s3 as u32
        };
        if !(0xDC00 <= w2 && w2 <= 0xDFFF) {
            return None;
        }
        self.offset = self.offset + 32;
        Some(Term::Int((0x10000 + (w1 - 0xD800) * 0x400 + (w2 - 0xDC00)) as i32))
    }
}

/// The match buffer over the bits that a bitstring term views.
pub open spec fn match_buffer_of(binary: Term, table: &BinaryTable) -> MatchBuffer {
    match binary {
        Term::SubBinary(sb) => MatchBuffer {
            original: sb.original,
            offset: sb.first_bit() as usize,
            size: (sb.first_bit() + sb.bit_len()) as usize,
        },
        Term::Binary(rc) => MatchBuffer {
            original: rc,
            offset: 0,
            size: (8 * table.bytes(rc).len()) as usize,
        },
        _ => MatchBuffer { original: RcBinary(0), offset: 0, size: 0 },
    }
}

/// Starts a match over a bitstring: the match state whose buffer stands at
/// the first bit, with no offsets saved. `None` where the bitstring has more
/// bits than the machine can count.
pub fn start_match_3(table: &BinaryTable, binary: &Term) -> (r: Option<Term>)
    requires
        binary is Binary || binary is SubBinary,
        binary matches Term::Binary(rc) ==> table.has(*rc),
    ensures
        r is Some <==> (match *binary {
            Term::SubBinary(sb) => sb.first_bit() + sb.bit_len() <= usize::MAX,
            Term::Binary(rc) => 8 * table.bytes(rc).len() <= usize::MAX,
            _ => false,
        }),
        r matches Some(t) ==> t@ == TermView::MatchState(
            match_buffer_of(*binary, table),
            Seq::<usize>::empty(),
        ),
{
    let mb: Option<MatchBuffer> = match binary {
        Term::Binary(rc) => MatchBuffer::from_binary(table, *rc),
        Term::SubBinary(sb) => MatchBuffer::from_sub_binary(*sb),
        _ => None,
    };
    match mb {
        Some(mb) => Some(Term::MatchState(MatchState { mb, saved_offsets: Vec::new() })),
        None => None,
    }
}

/// The list of the `size` bytes that start at bit `bitoffs` of `bytes`, each
/// as a small integer, in front of `previous`.
pub fn bytes_to_list(previous: Term, bytes: &[u8], size: usize, bitoffs: u8) -> (r: Term)
    requires
        bitoffs < 8,
        8 * size + bitoffs <= 8 * bytes.len(),
        8 * size + bitoffs <= usize::MAX,
    ensures
        r == with_front(
            Seq::new(
                size as nat,
                |i: int| Term::Int(byte_from(bytes@, 8 * i + bitoffs) as i32),
            ),
            previous,
        ),
{
    let ghost items = Seq::new(
        size as nat,
        |i: int| Term::Int(byte_from(bytes@, 8 * i + bitoffs) as i32),
    );
    let mut acc: Term = previous;
    let mut left: usize = size;
    assert(items.subrange(size as int, size as int) =~= Seq::<Term>::empty());
    while left > 0
        invariant
            left <= size,
            bitoffs < 8,
            8 * size + bitoffs <= 8 * bytes.len(),
            8 * size + bitoffs <= usize::MAX,
            items == Seq::new(
                size as nat,
                |i: int| Term::Int(byte_from(bytes@, 8 * i + bitoffs) as i32),
            ),
            acc == with_front(items.subrange(left as int, size as int), previous),
        decreases left,
    {
        left = left - 1;
        let b: u8 = take_byte(bytes, 8 * left + bitoffs as usize);
        proof {
            let longer = items.subrange(left as int, size as int);
            assert(longer.drop_first() =~= items.subrange(left + 1, size as int));
            assert(longer[0] == Term::Int(b as i32));
        }
        acc = Term::Cons(Box::new(Cons { head: Term::Int(b as i32), tail: acc }));
    }
    assert(items.subrange(0, size as int) =~= items);
    acc
}

/// Round trip: the sub-binary over the bits `lo .. hi` of a binary, read
/// through a fresh match buffer, gives those bits back, and no more.
pub proof fn lemma_round_trip(table: &BinaryTable, original: RcBinary, lo: int, hi: int)
    requires
        table.has(original),
        0 <= lo <= hi <= 8 * table.bytes(original).len(),
        hi <= usize::MAX,
    ensures
        ({
            let sb = SubBinary::view_of(original, hi - lo, lo, false);
            let mb = match_buffer_of(Term::SubBinary(sb), table);
            &&& sb.wf(table)
            &&& sb.first_bit() == lo
            &&& sb.bit_len() == hi - lo
            &&& mb.wf(table)
            &&& mb.size - mb.offset == hi - lo
            &&& mb.rest(table) == bits(table.bytes(original), lo, hi - lo)
            &&& mb.rest(table) == sb.bits(table)
        }),
{
}

} // verus!
