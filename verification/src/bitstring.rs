//! Bit-level construction and matching of binaries.
pub mod append;
pub mod bits;
pub mod builder;
pub mod compare;
pub mod copy;
pub mod field;
pub mod float;
pub mod matching;

use crate::value::{Term, WrongBoxError};
use vstd::prelude::*;

verus! {

/// An owned byte payload. `data` is the space reserved for it; how much of
/// that space a bitstring covers is kept by the sub-binary that views it.
#[derive(Debug)]
pub struct Binary {
    /// Whether the binary may still be extended in place.
    pub is_writable: bool,
    /// The actual underlying bits.
    pub data: Vec<u8>,
}

impl Binary {
    pub fn new() -> (b: Binary)
        ensures
            b.is_writable,
            b.data@ == Seq::<u8>::empty(),
    {
        Binary { is_writable: true, data: Vec::new() }
    }

    pub fn with_capacity(cap: usize) -> (b: Binary)
        ensures
            b.is_writable,
            b.data@ == Seq::<u8>::empty(),
    {
        Binary { is_writable: true, data: Vec::with_capacity(cap) }
    }

    /// A binary of `size` zero bytes.
    pub fn with_size(size: usize) -> (b: Binary)
        ensures
            b.is_writable,
            b.data@ == Seq::new(size as nat, |i: int| 0u8),
    {
        let mut data: Vec<u8> = Vec::new();
        data.resize(size, 0u8);
        assert(data@ =~= Seq::new(size as nat, |i: int| 0u8));
        Binary { is_writable: true, data }
    }

    /// The bytes of the binary, to write to. Whoever holds the binary for
    /// writing is its only writer.
    pub fn get_mut(&mut self) -> (data: &mut Vec<u8>)
        ensures
            *data == old(self).data,
            final(self).data == *final(data),
            final(self).is_writable == old(self).is_writable,
    {
        &mut self.data
    }
}

impl vstd::std_specs::convert::FromSpecImpl<Vec<u8>> for Binary {
    open spec fn obeys_from_spec() -> bool {
        true
    }

    open spec fn from_spec(value: Vec<u8>) -> Binary {
        Binary { is_writable: true, data: value }
    }
}

impl From<Vec<u8>> for Binary {
    fn from(value: Vec<u8>) -> (b: Binary) {
        Binary { is_writable: true, data: value }
    }
}

/// A handle to a binary in a [`BinaryTable`]. Sub-binaries, match buffers
/// and the builder share a binary by holding the same handle.
#[derive(Clone, Copy, Debug, PartialEq, Eq, Structural)]
pub struct RcBinary(pub usize);

impl RcBinary {
    /// The binary that the term is.
    pub fn try_from(value: &Term) -> (r: Result<&RcBinary, WrongBoxError>)
        ensures
            match r {
                Ok(rc) => *value == Term::Binary(*rc),
                Err(_) => !(value is Binary),
            },
    {
        match value {
            Term::Binary(rc) => Ok(rc),
            _ => Err(WrongBoxError),
        }
    }
}

/// The binaries of a process. A binary lives as long as the table, so a
/// handle that was valid once stays valid.
#[derive(Debug)]
pub struct BinaryTable {
    pub bins: Vec<Binary>,
}

impl BinaryTable {
    /// The handle names a binary of this table.
    pub open spec fn has(&self, rc: RcBinary) -> bool {
        rc.0 < self.bins.len()
    }

    /// The bytes reserved for the binary.
    pub open spec fn bytes(&self, rc: RcBinary) -> Seq<u8> {
        self.bins[rc.0 as int].data@
    }

    /// Whether the binary may still be extended in place.
    pub open spec fn writable(&self, rc: RcBinary) -> bool {
        self.bins[rc.0 as int].is_writable
    }

    pub fn new() -> (t: BinaryTable)
        ensures
            t.bins.len() == 0,
    {
        BinaryTable { bins: Vec::new() }
    }

    /// Moves a binary into the table and hands out its handle.
    pub fn add(&mut self, binary: Binary) -> (rc: RcBinary)
        ensures
            rc.0 == old(self).bins.len(),
            final(self).bins@ == old(self).bins@.push(binary),
            final(self).has(rc),
    {
        let rc = RcBinary(self.bins.len());
        self.bins.push(binary);
        rc
    }

    /// The binary behind a handle.
    pub fn get(&self, rc: RcBinary) -> (b: &Binary)
        requires
            self.has(rc),
        ensures
            *b == self.bins[rc.0 as int],
    {
        &self.bins[rc.0]
    }

    /// Whether the handle names a binary of this table.
    pub fn contains(&self, rc: RcBinary) -> (r: bool)
        ensures
            r == self.has(rc),
    {
        rc.0 < self.bins.len()
    }
}

/// Binaries are bitstrings by default, byte aligned ones are binaries.
#[derive(Clone, Copy, Debug, PartialEq, Eq, Structural)]
pub struct SubBinary {
    /// Binary size in bytes
    pub size: usize,
    /// Offset into binary in bytes
    pub offset: usize,
    /// Bit size
    pub bitsize: usize,
    /// Bit offset
    pub bit_offset: u8,
    /// Is the underlying binary writable?
    pub is_writable: bool,
    /// Original binary
    pub original: RcBinary,
}

impl SubBinary {
    /// The sub-binary that the term is.
    pub fn try_from(value: &Term) -> (r: Result<&SubBinary, WrongBoxError>)
        ensures
            match r {
                Ok(sb) => *value == Term::SubBinary(*sb),
                Err(_) => !(value is SubBinary),
            },
    {
        match value {
            Term::SubBinary(sb) => Ok(sb),
            _ => Err(WrongBoxError),
        }
    }

    /// The view of `num_bits` bits of `original` that starts at bit `offset`.
    pub fn new(original: RcBinary, num_bits: usize, offset: usize, is_writable: bool) -> (sb:
        SubBinary)
        ensures
            sb.original == original,
            sb.is_writable == is_writable,
            sb.size == num_bits / 8,
            sb.bitsize == num_bits % 8,
            sb.offset == offset / 8,
            sb.bit_offset == offset % 8,
            sb.first_bit() == offset,
            sb.bit_len() == num_bits,
            sb == SubBinary::view_of(original, num_bits as int, offset as int, is_writable),
    {
        SubBinary {
            original,
            size: num_bits / 8,
            bitsize: num_bits % 8,
            offset: offset / 8,
            bit_offset: (offset % 8) as u8,
            is_writable,
        }
    }

    /// The view of `num_bits` bits of `original` that starts at bit `offset`.
    pub open spec fn view_of(original: RcBinary, num_bits: int, offset: int, is_writable: bool) -> SubBinary {
        SubBinary {
            original,
            size: (num_bits / 8) as usize,
            bitsize: (num_bits % 8) as usize,
            offset: (offset / 8) as usize,
            bit_offset: (offset % 8) as u8,
            is_writable,
        }
    }

    /// A bitstring is a binary when it is a whole number of bytes long.
    pub fn is_binary(&self) -> (r: bool)
        ensures
            r == (self.bitsize % 8 == 0),
    {
        self.bitsize % 8 == 0
    }

    /// The bit of the original binary at which the view starts.
    pub open spec fn first_bit(&self) -> int {
        8 * self.offset + self.bit_offset
    }

    /// The length of the view in bits.
    pub open spec fn bit_len(&self) -> int {
        8 * self.size + self.bitsize
    }

    /// The view lies inside the space reserved for its binary.
    pub open spec fn wf(&self, table: &BinaryTable) -> bool {
        &&& table.has(self.original)
        &&& self.first_bit() + self.bit_len() <= 8 * table.bytes(self.original).len()
    }

    /// The bits that the view denotes.
    pub open spec fn bits(&self, table: &BinaryTable) -> Seq<u8> {
        bits::bits(table.bytes(self.original), self.first_bit(), self.bit_len())
    }
}

/// Bytes read from a binary: lent by the binary where that can be, else a
/// copy.
#[derive(Debug)]
pub enum Bytes<'a> {
    Borrowed(&'a [u8]),
    Owned(Vec<u8>),
}

impl<'a> View for Bytes<'a> {
    type V = Seq<u8>;

    open spec fn view(&self) -> Seq<u8> {
        match self {
            Bytes::Borrowed(s) => s@,
            Bytes::Owned(v) => v@,
        }
    }
}

impl<'a> Bytes<'a> {
    /// The bytes.
    pub fn as_ref(&self) -> (r: &[u8])
        ensures
            r@ == self@,
    {
        match self {
            Bytes::Borrowed(s) => s,
            Bytes::Owned(v) => v.as_slice(),
        }
    }

    /// The bytes, as a vector of their own.
    pub fn into_owned(self) -> (r: Vec<u8>)
        ensures
            r@ == self@,
    {
        match self {
            Bytes::Borrowed(s) => {
                let mut out: Vec<u8> = Vec::new();
                let mut i: usize = 0;
                while i < s.len()
                    invariant
                        i <= s.len(),
                        out@ == s@.subrange(0, i as int),
                    decreases s.len() - i,
                {
                    out.push(s[i]);
                    assert(out@ =~= s@.subrange(0, i + 1));
                    i = i + 1;
                }
                assert(out@ =~= s@);
                out
            },
            Bytes::Owned(v) => v,
        }
    }
}

/// The read cursor over a binary.
#[derive(Clone, Copy, Debug, PartialEq, Eq, Structural)]
pub struct MatchBuffer {
    /// Original binary
    pub original: RcBinary,
    /// Offset in bits
    pub offset: usize,
    /// Size of binary in bits
    pub size: usize,
}

/// No flag.
pub const BSF_NONE: u8 = 0;

/// Field is guaranteed to be byte-aligned.
pub const BSF_ALIGNED: u8 = 1;

/// Field is little-endian (otherwise big-endian).
pub const BSF_LITTLE: u8 = 2;

/// Field is signed (otherwise unsigned).
pub const BSF_SIGNED: u8 = 4;

/// Size in bs_init is exact.
pub const BSF_EXACT: u8 = 8;

/// Native endian.
pub const BSF_NATIVE: u8 = 16;

/// Flags of the instructions that read and write fields of a bitstring.
#[derive(Clone, Copy, Debug, PartialEq, Eq, Structural)]
pub struct Flag {
    pub bits: u8,
}

/// `u16::to_le` of std: the number itself on a little-endian host, the number
/// with its two bytes swapped on a big-endian one. Which of the two comes
/// back depends on the machine.
#[verifier::external_body]
fn to_little_endian(x: u16) -> (r: u16)
    ensures
        r == x || r == ((x & 0xff) << 8 | (x >> 8)),
{
    x.to_le()
}

/// Whether the host keeps the least significant byte of a number first.
pub fn host_is_little_endian() -> bool {
    to_little_endian(1) == 1
}

impl Flag {
    pub fn new(bits: u8) -> (f: Flag)
        ensures
            f.bits == bits,
    {
        Flag { bits }
    }

    /// The field is little-endian.
    pub open spec fn little(&self) -> bool {
        self.bits & BSF_LITTLE != 0
    }

    /// The field is signed.
    pub open spec fn signed(&self) -> bool {
        self.bits & BSF_SIGNED != 0
    }

    /// The field has the byte order of the host.
    pub open spec fn native(&self) -> bool {
        self.bits & BSF_NATIVE != 0
    }

    /// Whether any bit of `flag` is set.
    pub fn contains(&self, flag: u8) -> (r: bool)
        ensures
            r == (self.bits & flag != 0),
    {
        self.bits & flag != 0
    }

    /// Replaces the native flag by the byte order of the host: little-endian
    /// or none. Flags without the native flag are kept.
    pub fn resolve_native(self) -> (f: Flag)
        ensures
            !f.native(),
            f.signed() == self.signed(),
            !self.native() ==> f == self,
    {
        let bits: u8 = self.bits;
        if self.contains(BSF_NATIVE) {
            let cleared: u8 = bits & !BSF_NATIVE & !BSF_LITTLE;
            let out: u8 = if host_is_little_endian() {
                cleared | BSF_LITTLE
            } else {
                cleared
            };
            assert(out & 16u8 == 0 && (out & 4u8 != 0) == (bits & 4u8 != 0)) by (bit_vector)
                requires
                    out == (bits & !16u8 & !2u8) | 2u8 || out == bits & !16u8 & !2u8,
            ;
            Flag { bits: out }
        } else {
            self
        }
    }
}

} // verus!
