//! Built-in functions on binaries.
use crate::atom;
use crate::bitstring::append::is_bitstring;
use crate::bitstring::builder::{bitstring_len, bitstring_origin, bitstring_start};
use crate::bitstring::matching::byte_from;
use crate::bitstring::{Binary, BinaryTable, MatchBuffer, RcBinary, SubBinary};
use crate::exception::{badarg, Exception, Reason};
use crate::process::Process;
use crate::regex::{
    all_matches, escape, escaped, find_all, find_first, first_match, matches_view,
    ordered_matches, pattern_compiles, utf8_text,
};
use crate::value::cons::{is_proper, lemma_list_of, list_items, list_of, proper_list};
use crate::value::integer::{int_of, is_integer};
use crate::value::{Cons, Term, TermView};
use vstd::slice::slice_subrange;
use vstd::string::StringExecFns;
use vstd::utf8::{decode_utf8, valid_utf8};
use crate::vm::Machine;
use vstd::prelude::*;

verus! {

/// The number of whole bytes of a bitstring term.
pub open spec fn byte_size(t: Term, table: &BinaryTable) -> int {
    match t {
        Term::Binary(rc) => table.bytes(rc).len() as int,
        Term::SubBinary(sb) => sb.size as int,
        _ => 0,
    }
}

/// The number of bits of a bitstring term beyond its whole bytes.
pub open spec fn bit_rest(t: Term) -> int {
    match t {
        Term::SubBinary(sb) => sb.bitsize as int,
        _ => 0,
    }
}

/// The term is a bitstring whose bits lie in the table, at positions that
/// the machine can count.
pub open spec fn readable(t: Term, table: &BinaryTable) -> bool {
    is_bitstring(t, table) && bitstring_start(t) + bitstring_len(t, table) <= usize::MAX
}

/// The whole bytes of a bitstring term.
pub open spec fn binary_bytes(t: Term, table: &BinaryTable) -> Seq<u8> {
    Seq::new(
        byte_size(t, table) as nat,
        |j: int| byte_from(table.bytes(bitstring_origin(t)), bitstring_start(t) + 8 * j),
    )
}

/// Where a bitstring term lies in its binary.
#[derive(Clone, Copy, Debug, PartialEq, Eq, Structural)]
pub struct RealBinary {
    /// The binary that is viewed.
    pub original: RcBinary,
    /// The first bit of the view.
    pub first_bit: usize,
    /// The number of whole bytes.
    pub size: usize,
    /// The number of bits beyond the whole bytes.
    pub bitsize: usize,
}

/// Where the bytes of a bitstring term lie; `None` for a term that is no
/// bitstring of this table.
pub fn real_binary(t: &Term, table: &BinaryTable) -> (r: Option<RealBinary>)
    ensures
        r is Some <==> readable(*t, table),
        r matches Some(rb) ==> {
            &&& rb.original == bitstring_origin(*t)
            &&& rb.first_bit == bitstring_start(*t)
            &&& rb.size == byte_size(*t, table)
            &&& rb.bitsize == bit_rest(*t)
            &&& rb.first_bit + 8 * rb.size + rb.bitsize <= 8 * table.bytes(rb.original).len()
        },
{
    match t {
        Term::Binary(rc) => {
            if !table.contains(*rc) {
                return None;
            }
            let len: usize = table.get(*rc).data.len();
            if len > usize::MAX / 8 {
                return None;
            }
            Some(RealBinary { original: *rc, first_bit: 0, size: len, bitsize: 0 })
        },
        Term::SubBinary(sb) => {
            if !table.contains(sb.original) {
                return None;
            }
            let len: u128 = table.get(sb.original).data.len() as u128;
            let total: u128 = 8 * (sb.size as u128) + sb.bitsize as u128;
            let first: u128 = 8 * (sb.offset as u128) + sb.bit_offset as u128;
            if first + total > 8 * len || first + total > usize::MAX as u128 {
                return None;
            }
            Some(
                RealBinary {
                    original: sb.original,
                    first_bit: first as usize,
                    size: sb.size,
                    bitsize: sb.bitsize,
                },
            )
        },
        _ => None,
    }
}

/// The whole bytes of a bitstring term; `None` for a term that is no
/// bitstring of this table.
pub fn to_bytes(t: &Term, table: &BinaryTable) -> (r: Option<Vec<u8>>)
    ensures
        r is Some <==> readable(*t, table),
        r matches Some(bytes) ==> bytes@ == binary_bytes(*t, table),
{
    match real_binary(t, table) {
        None => None,
        Some(rb) => {
            let mut mb = MatchBuffer {
                original: rb.original,
                offset: rb.first_bit,
                size: rb.first_bit + 8 * rb.size,
            };
            match mb.get_bytes(table, rb.size) {
                Some(bytes) => {
                    assert(bytes@ =~= binary_bytes(*t, table));
                    Some(bytes.into_owned())
                },
                None => None,
            }
        },
    }
}

/// When `split_binary_2` succeeds: the position is a small integer that is
/// not negative and not beyond the last whole byte of the bitstring.
pub open spec fn can_split(bin: Term, pos: Term, table: &BinaryTable) -> bool {
    &&& pos matches Term::Int(i) && 0 <= i <= byte_size(bin, table)
    &&& readable(bin, table)
}

/// The first `pos` bytes of the bitstring.
pub open spec fn split_prefix(bin: Term, pos: int) -> SubBinary {
    SubBinary {
        original: bitstring_origin(bin),
        size: pos as usize,
        offset: (bitstring_start(bin) / 8) as usize,
        bit_offset: (bitstring_start(bin) % 8) as u8,
        bitsize: 0,
        is_writable: false,
    }
}

/// What follows the first `pos` bytes of the bitstring.
pub open spec fn split_suffix(bin: Term, pos: int, table: &BinaryTable) -> SubBinary {
    SubBinary {
        original: bitstring_origin(bin),
        size: (byte_size(bin, table) - pos) as usize,
        offset: (bitstring_start(bin) / 8 + pos) as usize,
        bit_offset: (bitstring_start(bin) % 8) as u8,
        bitsize: bit_rest(bin) as usize,
        is_writable: false,
    }
}

/// `split_binary(Bin, Pos)`: the pair of the first `Pos` bytes and the rest,
/// which carries the bits beyond the whole bytes. Both views are of the
/// binary that the argument views; nothing is copied.
pub fn split_binary_2(_vm: &Machine, process: &Process, args: &[Term]) -> (r: Result<
    Term,
    Exception,
>)
    requires
        args.len() >= 2,
    ensures
        r is Ok <==> can_split(args[0], args[1], &process.context.binaries),
        r matches Err(e) ==> e.reason == Reason::EXC_BADARG,
        r matches Ok(t) ==> t@ == TermView::Tuple(
            seq![
                TermView::SubBinary(split_prefix(args[0], args[1]->Int_0 as int)),
                TermView::SubBinary(
                    split_suffix(args[0], args[1]->Int_0 as int, &process.context.binaries),
                ),
            ],
        ),
{
    // bin, pos
    let pos: usize = match &args[1] {
        Term::Int(i) => {
            if *i >= 0 {
                *i as usize
            } else {
                return Err(badarg());
            }
        },
        _ => {
            return Err(badarg());
        },
    };
    if !args[0].is_bitstring() {
        return Err(badarg());
    }
    let rb: RealBinary = match real_binary(&args[0], &process.context.binaries) {
        Some(rb) => rb,
        None => {
            return Err(badarg());
        },
    };
    if rb.size < pos {
        return Err(badarg());
    }
    let sb1 = SubBinary {
        original: rb.original,
        size: pos,
        offset: rb.first_bit / 8,
        bit_offset: (rb.first_bit % 8) as u8,
        bitsize: 0,
        is_writable: false,
    };
    let sb2 = SubBinary {
        original: rb.original,
        size: rb.size - pos,
        offset: rb.first_bit / 8 + pos,
        bit_offset: (rb.first_bit % 8) as u8,
        bitsize: rb.bitsize,  // The extra bits go into the second binary.
        is_writable: false,
    };
    Ok(Term::tup2(Term::SubBinary(sb1), Term::SubBinary(sb2)))
}

/// The part of `size` bytes that starts at `pos` and is `len` bytes long,
/// as its first byte and its length. A negative length counts back from
/// `pos`. `None` where the part does not lie within the `size` bytes.
pub open spec fn part_bounds(size: int, pos: int, len: int) -> Option<(int, int)> {
    if len >= 0 {
        if 0 <= pos && pos + len <= size {
            Some((pos, len))
        } else {
            None
        }
    } else {
        if -len <= pos && pos <= size {
            Some((pos + len, -len))
        } else {
            None
        }
    }
}

fn bounds(size: usize, pos: usize, len: isize) -> (r: Option<(usize, usize)>)
    ensures
        r is Some <==> part_bounds(size as int, pos as int, len as int) is Some,
        r matches Some(b) ==> part_bounds(size as int, pos as int, len as int) == Some(
            (b.0 as int, b.1 as int),
        ),
{
    if len < 0 {
        let back: usize = if len == isize::MIN {
            (isize::MAX as usize) + 1
        } else {
            (-len) as usize
        };
        if back > pos || pos > size {
            return None;
        }
        Some((pos - back, back))
    } else {
        let length: usize = len as usize;
        if pos > size || length > size - pos {
            return None;
        }
        Some((pos, length))
    }
}

/// The part of a binary of `len` bytes at byte `pos`, as a view of the same
/// binary.
pub fn part(source: &Term, table: &BinaryTable, pos: usize, len: isize) -> (r: Result<
    SubBinary,
    Exception,
>)
    ensures
        r is Ok <==> readable(*source, table) && part_bounds(
            byte_size(*source, table),
            pos as int,
            len as int,
        ) is Some,
        r matches Err(e) ==> e.reason == Reason::EXC_BADARG,
        r matches Ok(sb) ==> {
            let b = part_bounds(byte_size(*source, table), pos as int, len as int)->0;
            sb == SubBinary::view_of(
                bitstring_origin(*source),
                8 * b.1,
                bitstring_start(*source) + 8 * b.0,
                false,
            )
        },
{
    let rb: RealBinary = match real_binary(source, table) {
        Some(rb) => rb,
        None => {
            return Err(badarg());
        },
    };
    match bounds(rb.size, pos, len) {
        None => Err(badarg()),
        Some((start, length)) => {
            Ok(SubBinary::new(rb.original, length * 8, rb.first_bit + start * 8, false))
        },
    }
}

/// The position and the length that the arguments of `part` give; `None`
/// where they are no small integers or the position is negative.
pub open spec fn part_args(pos: Term, len: Term) -> Option<(int, int)> {
    match (pos, len) {
        (Term::Int(p), Term::Int(l)) => if p >= 0 {
            Some((p as int, l as int))
        } else {
            None
        },
        _ => None,
    }
}

fn read_part_args(pos: &Term, len: &Term) -> (r: Option<(usize, isize)>)
    ensures
        r is Some <==> part_args(*pos, *len) is Some,
        r matches Some(a) ==> part_args(*pos, *len) == Some((a.0 as int, a.1 as int)),
{
    let p: usize = match pos {
        Term::Int(i) => {
            if *i >= 0 {
                *i as usize
            } else {
                return None;
            }
        },
        _ => {
            return None;
        },
    };
    let l: isize = match len {
        Term::Int(i) => *i as isize,
        _ => {
            return None;
        },
    };
    Some((p, l))
}

/// `binary:part(Subject, Pos, Len)`.
pub fn part_3(_vm: &Machine, process: &Process, args: &[Term]) -> (r: Result<Term, Exception>)
    requires
        args.len() >= 3,
    ensures
        r is Ok <==> part_args(args[1], args[2]) is Some && readable(
            args[0],
            &process.context.binaries,
        ) && ({
            let a = part_args(args[1], args[2])->0;
            part_bounds(byte_size(args[0], &process.context.binaries), a.0, a.1) is Some
        }),
        r matches Err(e) ==> e.reason == Reason::EXC_BADARG,
        r matches Ok(t) ==> {
            let a = part_args(args[1], args[2])->0;
            let b = part_bounds(byte_size(args[0], &process.context.binaries), a.0, a.1)->0;
            t == Term::SubBinary(
                SubBinary::view_of(
                    bitstring_origin(args[0]),
                    8 * b.1,
                    bitstring_start(args[0]) + 8 * b.0,
                    false,
                ),
            )
        },
{
    match read_part_args(&args[1], &args[2]) {
        None => Err(badarg()),
        Some((pos, len)) => {
            match part(&args[0], &process.context.binaries, pos, len) {
                Ok(subbin) => Ok(Term::SubBinary(subbin)),
                Err(e) => Err(e),
            }
        },
    }
}

/// The position and the length that a pair `{Pos, Len}` gives.
pub open spec fn part_pair(pos_len: Term) -> Option<(int, int)> {
    match pos_len {
        Term::Tuple(v) => if v.len() == 2 {
            part_args(v[0], v[1])
        } else {
            None
        },
        _ => None,
    }
}

/// `binary:part(Subject, {Pos, Len})`.
pub fn part_2(_vm: &Machine, process: &Process, args: &[Term]) -> (r: Result<Term, Exception>)
    requires
        args.len() >= 2,
    ensures
        r is Ok <==> part_pair(args[1]) is Some && readable(args[0], &process.context.binaries)
            && ({
            let a = part_pair(args[1])->0;
            part_bounds(byte_size(args[0], &process.context.binaries), a.0, a.1) is Some
        }),
        r matches Err(e) ==> e.reason == Reason::EXC_BADARG,
        r matches Ok(t) ==> {
            let a = part_pair(args[1])->0;
            let b = part_bounds(byte_size(args[0], &process.context.binaries), a.0, a.1)->0;
            t == Term::SubBinary(
                SubBinary::view_of(
                    bitstring_origin(args[0]),
                    8 * b.1,
                    bitstring_start(args[0]) + 8 * b.0,
                    false,
                ),
            )
        },
{
    // PosLen = {Start :: integer() >= 0, Length :: integer()}
    match &args[1] {
        Term::Tuple(tup) => {
            if tup.len() != 2 {
                return Err(badarg());
            }
            match read_part_args(&tup[0], &tup[1]) {
                None => Err(badarg()),
                Some((pos, len)) => {
                    match part(&args[0], &process.context.binaries, pos, len) {
                        Ok(subbin) => Ok(Term::SubBinary(subbin)),
                        Err(e) => Err(e),
                    }
                },
            }
        },
        _ => Err(badarg()),
    }
}

/// The string has `n` bytes or more, and its first `n` are those of `first`.
pub open spec fn agrees(s: Vec<u8>, first: Vec<u8>, n: int) -> bool {
    n <= s.len() && n <= first.len() && s@.subrange(0, n) == first@.subrange(0, n)
}

/// All the strings have `n` bytes or more and agree on their first `n`.
pub open spec fn common_prefix(strings: Seq<Vec<u8>>, n: int) -> bool {
    forall|i: int| 0 <= i < strings.len() ==> #[trigger] agrees(strings[i], strings[0], n)
}

proof fn lemma_agrees_shorter(s: Vec<u8>, first: Vec<u8>, n: int, m: int)
    requires
        agrees(s, first, n),
        0 <= m <= n,
    ensures
        agrees(s, first, m),
{
    assert(s@.subrange(0, m) =~= s@.subrange(0, n).subrange(0, m));
    assert(first@.subrange(0, m) =~= first@.subrange(0, n).subrange(0, m));
}

/// Longest Common Prefix
///
/// The length of the longest prefix that all the strings share; 0 where
/// there is no string.
pub fn longest_common_prefix(strings: &[Vec<u8>]) -> (len: usize)
    ensures
        strings@.len() == 0 ==> len == 0,
        common_prefix(strings@, len as int),
        strings@.len() > 0 ==> !common_prefix(strings@, len + 1),
{
    if strings.len() == 0 {
        return 0;
    }
    let str0: &Vec<u8> = &strings[0];
    let mut len: usize = str0.len();
    let mut i: usize = 1;
    let ghost mut witness: int = 0;
    assert(str0@.subrange(0, len as int) =~= str0@.subrange(0, len as int));
    while i < strings.len()
        invariant
            1 <= i <= strings.len(),
            *str0 == strings@[0],
            len <= str0.len(),
            0 <= witness < i,
            forall|a: int| 0 <= a < i ==> #[trigger] agrees(strings@[a], *str0, len as int),
            !agrees(strings@[witness], *str0, len + 1),
        decreases strings.len() - i,
    {
        let other: &Vec<u8> = &strings[i];
        let mut count: usize = 0;
        assert(other@.subrange(0, 0) =~= str0@.subrange(0, 0));
        while count < len && count < other.len() && other[count] == str0[count]
            invariant
                count <= len,
                count <= other.len(),
                len <= str0.len(),
                other@.subrange(0, count as int) == str0@.subrange(0, count as int),
            decreases len - count,
        {
            assert(other@.subrange(0, count + 1) =~= other@.subrange(0, count as int).push(
                other@[count as int],
            ));
            assert(str0@.subrange(0, count + 1) =~= str0@.subrange(0, count as int).push(
                str0@[count as int],
            ));
            count = count + 1;
        }
        if count < len {
            proof {
                assert forall|a: int| 0 <= a < i implies #[trigger] agrees(
                    strings@[a],
                    *str0,
                    count as int,
                ) by {
                    lemma_agrees_shorter(strings@[a], *str0, len as int, count as int);
                }
                if count < other.len() {
                    assert(other@.subrange(0, count + 1)[count as int] != str0@.subrange(
                        0,
                        count + 1,
                    )[count as int]);
                }
                witness = i as int;
            }
            len = count;
        }
        i = i + 1;
    }
    len
}

/// The bytes repeated `n` times.
pub open spec fn repeated(bytes: Seq<u8>, n: int) -> Seq<u8>
    decreases n,
{
    if n <= 0 {
        Seq::empty()
    } else {
        repeated(bytes, n - 1) + bytes
    }
}

/// A new binary of `n` copies of the bytes.
pub fn copy(bytes: &[u8], n: usize) -> (b: Binary)
    requires
        bytes.len() * n <= usize::MAX,
    ensures
        b.is_writable,
        b.data@ == repeated(bytes@, n as int),
{
    let mut buf: Vec<u8> = Vec::new();
    let mut i: usize = 0;
    while i < n
        invariant
            i <= n,
            buf@ == repeated(bytes@, i as int),
        decreases n - i,
    {
        buf.extend_from_slice(bytes);
        i = i + 1;
    }
    Binary { is_writable: true, data: buf }
}

/// `binary:copy(Subject)`: a new binary with the bytes of the subject.
pub fn copy_1(_vm: &Machine, process: &mut Process, args: &[Term]) -> (r: Result<Term, Exception>)
    requires
        args.len() >= 1,
    ensures
        r is Ok <==> readable(args[0], &old(process).context.binaries),
        r matches Err(e) ==> e.reason == Reason::EXC_BADARG && *final(process) == *old(process),
        r matches Ok(t) ==> {
            let t0 = &old(process).context.binaries;
            let t1 = &final(process).context.binaries;
            &&& t == Term::Binary(RcBinary(t0.bins.len() as usize))
            &&& t1.bins.len() == t0.bins.len() + 1
            &&& forall|i: int| 0 <= i < t0.bins.len() ==> #[trigger] t1.bins[i] == t0.bins[i]
            &&& t1.bytes(RcBinary(t0.bins.len() as usize)) == binary_bytes(args[0], t0)
        },
{
    let bytes: Vec<u8> = match to_bytes(&args[0], &process.context.binaries) {
        Some(bytes) => bytes,
        None => {
            return Err(badarg());
        },
    };
    assert(bytes.len() * 1 <= usize::MAX) by (nonlinear_arith)
        requires
            bytes.len() <= usize::MAX,
    ;
    let bin: Binary = copy(bytes.as_slice(), 1);
    proof {
        reveal_with_fuel(repeated, 2);
        assert(repeated(bytes@, 1) =~= bytes@);
    }
    Ok(Term::Binary(process.context.binaries.add(bin)))
}

/// The number of copies that the second argument of `copy` asks for.
pub open spec fn copy_count(n: Term) -> Option<int> {
    match n {
        Term::Int(i) => if i >= 0 {
            Some(i as int)
        } else {
            None
        },
        _ => None,
    }
}

/// `binary:copy(Subject, N)`: a new binary with the bytes of the subject `N`
/// times. A result that the machine cannot address is a system limit.
pub fn copy_2(_vm: &Machine, process: &mut Process, args: &[Term]) -> (r: Result<Term, Exception>)
    requires
        args.len() >= 2,
    ensures
        r is Ok <==> readable(args[0], &old(process).context.binaries) && copy_count(args[1])
            is Some && byte_size(args[0], &old(process).context.binaries) * copy_count(
            args[1],
        )->0 <= usize::MAX,
        r matches Err(e) ==> *final(process) == *old(process) && e.reason == (if readable(
            args[0],
            &old(process).context.binaries,
        ) && copy_count(args[1]) is Some {
            Reason::EXC_SYSTEM_LIMIT
        } else {
            Reason::EXC_BADARG
        }),
        r matches Ok(t) ==> {
            let t0 = &old(process).context.binaries;
            let t1 = &final(process).context.binaries;
            &&& t == Term::Binary(RcBinary(t0.bins.len() as usize))
            &&& t1.bins.len() == t0.bins.len() + 1
            &&& forall|i: int| 0 <= i < t0.bins.len() ==> #[trigger] t1.bins[i] == t0.bins[i]
            &&& t1.bytes(RcBinary(t0.bins.len() as usize)) == repeated(
                binary_bytes(args[0], t0),
                copy_count(args[1])->0,
            )
        },
{
    let bytes: Vec<u8> = match to_bytes(&args[0], &process.context.binaries) {
        Some(bytes) => bytes,
        None => {
            return Err(badarg());
        },
    };
    let n: usize = match &args[1] {
        Term::Int(i) => {
            if *i >= 0 {
                *i as usize
            } else {
                return Err(badarg());
            }
        },
        _ => {
            return Err(badarg());
        },
    };
    if bytes.len().checked_mul(n).is_none() {
        return Err(Exception::new(Reason::EXC_SYSTEM_LIMIT));
    }
    let bin: Binary = copy(bytes.as_slice(), n);
    Ok(Term::Binary(process.context.binaries.add(bin)))
}

/// `binary:first(Subject)`: the first byte.
pub fn first_1(_vm: &Machine, process: &Process, args: &[Term]) -> (r: Result<Term, Exception>)
    requires
        args.len() >= 1,
    ensures
        r is Ok <==> readable(args[0], &process.context.binaries) && byte_size(
            args[0],
            &process.context.binaries,
        ) > 0,
        r matches Err(e) ==> e.reason == Reason::EXC_BADARG,
        r matches Ok(t) ==> t == Term::Int(binary_bytes(args[0], &process.context.binaries)[0] as i32),
{
    let bytes: Vec<u8> = match to_bytes(&args[0], &process.context.binaries) {
        Some(bytes) => bytes,
        None => {
            return Err(badarg());
        },
    };
    if bytes.len() == 0 {
        return Err(badarg());
    }
    Ok(Term::small(bytes[0] as i32))
}

/// `binary:last(Subject)`: the last byte.
pub fn last_1(_vm: &Machine, process: &Process, args: &[Term]) -> (r: Result<Term, Exception>)
    requires
        args.len() >= 1,
    ensures
        r is Ok <==> readable(args[0], &process.context.binaries) && byte_size(
            args[0],
            &process.context.binaries,
        ) > 0,
        r matches Err(e) ==> e.reason == Reason::EXC_BADARG,
        r matches Ok(t) ==> t == Term::Int(
            binary_bytes(args[0], &process.context.binaries).last() as i32,
        ),
{
    let bytes: Vec<u8> = match to_bytes(&args[0], &process.context.binaries) {
        Some(bytes) => bytes,
        None => {
            return Err(badarg());
        },
    };
    if bytes.len() == 0 {
        return Err(badarg());
    }
    Ok(Term::small(bytes[bytes.len() - 1] as i32))
}

/// The pattern that searches for the bytes of a binary as they are: the
/// binary's text with what has a meaning of its own in a pattern escaped.
/// `None` for a term that is no binary, for an empty one and for bytes that
/// are no text.
pub open spec fn literal_source(t: Term, table: &BinaryTable) -> Option<Seq<char>> {
    if readable(t, table) && byte_size(t, table) > 0 && valid_utf8(binary_bytes(t, table)) {
        Some(escaped(decode_utf8(binary_bytes(t, table))))
    } else {
        None
    }
}

/// The alternatives joined by `|`.
pub open spec fn joined(parts: Seq<Seq<char>>) -> Seq<char>
    decreases parts.len(),
{
    if parts.len() == 0 {
        Seq::empty()
    } else if parts.len() == 1 {
        parts[0]
    } else {
        joined(parts.drop_last()) + seq!['|'] + parts.last()
    }
}

/// The source of the pattern that a term stands for: a compiled pattern is
/// its own source, a binary is searched for as it is, and a list of binaries
/// gives the alternatives, tried from left to right.
pub open spec fn pattern_source(t: Term, table: &BinaryTable) -> Option<Seq<char>> {
    match t {
        Term::Regex(s) => Some(s@),
        Term::Cons(_) => {
            let items = list_items(t);
            if is_proper(t) && (forall|i: int|
                0 <= i < items.len() ==> (#[trigger] literal_source(items[i], table)) is Some) {
                Some(joined(Seq::new(items.len(), |i: int| literal_source(items[i], table)->0)))
            } else {
                None
            }
        },
        _ => literal_source(t, table),
    }
}

fn literal(t: &Term, table: &BinaryTable) -> (r: Option<String>)
    ensures
        r is Some <==> literal_source(*t, table) is Some,
        r matches Some(s) ==> s@ == literal_source(*t, table)->0,
{
    let bytes: Vec<u8> = match to_bytes(t, table) {
        Some(bytes) => bytes,
        None => {
            return None;
        },
    };
    if bytes.len() == 0 {
        return None;
    }
    match utf8_text(bytes.as_slice()) {
        Some(text) => Some(escape(text)),
        None => None,
    }
}

/// The source of the pattern that a term stands for; `None` for a term that
/// is no pattern.
pub fn compile_source(t: &Term, table: &BinaryTable) -> (r: Option<String>)
    ensures
        r is Some <==> pattern_source(*t, table) is Some,
        r matches Some(s) ==> s@ == pattern_source(*t, table)->0,
{
    match t {
        Term::Regex(s) => Some(s.clone()),
        Term::Cons(_) => {
            let items: Vec<&Term> = match proper_list(t) {
                Some(items) => items,
                None => {
                    return None;
                },
            };
            let ghost all = list_items(*t);
            let mut pattern: String = String::new();
            let ghost mut parts: Seq<Seq<char>> = Seq::empty();
            let mut i: usize = 0;
            while i < items.len()
                invariant
                    *t is Cons,
                    is_proper(*t),
                    all == list_items(*t),
                    i <= items.len(),
                    items.len() == all.len(),
                    forall|k: int| 0 <= k < items.len() ==> *(#[trigger] items[k]) == all[k],
                    parts.len() == i,
                    forall|k: int|
                        0 <= k < i ==> (#[trigger] literal_source(all[k], table)) == Some(parts[k]),
                    pattern@ == joined(parts),
                decreases items.len() - i,
            {
                let part: String = match literal(items[i], table) {
                    Some(part) => part,
                    None => {
                        assert(literal_source(all[i as int], table) is None);
                        assert(!(forall|k: int|
                            0 <= k < all.len() ==> (#[trigger] literal_source(all[k], table))
                                is Some));
                        return None;
                    },
                };
                if i > 0 {
                    pattern.append("|");
                    proof {
                        reveal_strlit("|");
                        assert("|"@ =~= seq!['|']);
                    }
                }
                pattern.append(part.as_str());
                proof {
                    let next = parts.push(part@);
                    assert(next.drop_last() =~= parts);
                    assert(pattern@ =~= joined(next));
                    parts = next;
                }
                i = i + 1;
            }
            proof {
                assert(parts =~= Seq::new(all.len(), |k: int| literal_source(all[k], table)->0));
            }
            Some(pattern)
        },
        _ => literal(t, table),
    }
}

/// `binary:compile_pattern(Pattern)`: the pattern as a term that `split`,
/// `match` and `matches` take in place of what it was compiled from.
pub fn compile_pattern_1(_vm: &Machine, process: &Process, args: &[Term]) -> (r: Result<
    Term,
    Exception,
>)
    requires
        args.len() >= 1,
    ensures
        r is Ok <==> pattern_source(args[0], &process.context.binaries) is Some
            && pattern_compiles(pattern_source(args[0], &process.context.binaries)->0),
        r matches Err(e) ==> e.reason == Reason::EXC_BADARG,
        r matches Ok(t) ==> t@ == TermView::Regex(
            pattern_source(args[0], &process.context.binaries)->0,
        ),
{
    // pattern = binary | [binary] | compiled
    let source: String = match compile_source(&args[0], &process.context.binaries) {
        Some(source) => source,
        None => {
            return Err(badarg());
        },
    };
    let empty: Vec<u8> = Vec::new();
    match find_first(source.as_str(), empty.as_slice()) {
        Some(_) => Ok(Term::Regex(source)),
        None => Err(badarg()),
    }
}

/// What the options of a search ask for.
#[derive(Clone, Copy, Debug, PartialEq, Eq)]
pub struct SearchOptions {
    /// Split at every match, not only at the first.
    pub global: bool,
    /// Drop the empty parts at the end.
    pub trim: bool,
    /// Drop all the empty parts.
    pub trim_all: bool,
    /// Search only the part of the subject at this position, of this length.
    pub scope: Option<(usize, isize)>,
}

/// No option.
pub open spec fn no_options() -> SearchOptions {
    SearchOptions { global: false, trim: false, trim_all: false, scope: None }
}

/// The options with one more option taken in. `None` for a term that is no
/// option; the options `global`, `trim` and `trim_all` are for splitting
/// only.
pub open spec fn with_option(acc: SearchOptions, item: Term, splitting: bool) -> Option<
    SearchOptions,
> {
    match item {
        Term::Atom(a) => if !splitting {
            None
        } else if a == atom::GLOBAL {
            Some(SearchOptions { global: true, ..acc })
        } else if a == atom::TRIM {
            Some(SearchOptions { trim: true, ..acc })
        } else if a == atom::TRIM_ALL {
            Some(SearchOptions { trim_all: true, ..acc })
        } else {
            None
        },
        Term::Tuple(v) => if v.len() == 2 && v[0] == Term::Atom(atom::SCOPE) && part_pair(v[1])
            is Some {
            let p = part_pair(v[1])->0;
            Some(SearchOptions { scope: Some((p.0 as usize, p.1 as isize)), ..acc })
        } else {
            None
        },
        _ => None,
    }
}

/// The options with those of a list taken in, one after the other.
pub open spec fn with_options(acc: SearchOptions, items: Seq<Term>, splitting: bool) -> Option<
    SearchOptions,
>
    decreases items.len(),
{
    if items.len() == 0 {
        Some(acc)
    } else {
        match with_option(acc, items[0], splitting) {
            Some(next) => with_options(next, items.drop_first(), splitting),
            None => None,
        }
    }
}

/// The options that a term stands for: a proper list of options.
pub open spec fn search_options(t: Term, splitting: bool) -> Option<SearchOptions> {
    if is_proper(t) {
        with_options(no_options(), list_items(t), splitting)
    } else {
        None
    }
}

fn take_option(acc: SearchOptions, item: &Term, splitting: bool) -> (r: Option<SearchOptions>)
    ensures
        r == with_option(acc, *item, splitting),
{
    match item {
        Term::Atom(a) => {
            if !splitting {
                None
            } else if *a == atom::GLOBAL {
                // repeat globally
                Some(
                    SearchOptions {
                        global: true,
                        trim: acc.trim,
                        trim_all: acc.trim_all,
                        scope: acc.scope,
                    },
                )
            } else if *a == atom::TRIM {
                // remove empty trailing parts
                Some(
                    SearchOptions {
                        global: acc.global,
                        trim: true,
                        trim_all: acc.trim_all,
                        scope: acc.scope,
                    },
                )
            } else if *a == atom::TRIM_ALL {
                // remove all empty parts
                Some(
                    SearchOptions {
                        global: acc.global,
                        trim: acc.trim,
                        trim_all: true,
                        scope: acc.scope,
                    },
                )
            } else {
                None
            }
        },
        Term::Tuple(tup) => {
            if tup.len() != 2 {
                return None;
            }
            match &tup[0] {
                Term::Atom(a) => {
                    if *a != atom::SCOPE {
                        return None;
                    }
                },
                _ => {
                    return None;
                },
            }
            match &tup[1] {
                Term::Tuple(pair) => {
                    if pair.len() != 2 {
                        return None;
                    }
                    match read_part_args(&pair[0], &pair[1]) {
                        Some((pos, len)) => Some(
                            SearchOptions {
                                global: acc.global,
                                trim: acc.trim,
                                trim_all: acc.trim_all,
                                scope: Some((pos, len)),
                            },
                        ),
                        None => None,
                    }
                },
                _ => None,
            }
        },
        _ => None,
    }
}

/// The options that a term stands for; `None` for a term that is no proper
/// list of options.
pub fn parse_options(t: &Term, splitting: bool) -> (r: Option<SearchOptions>)
    ensures
        r == search_options(*t, splitting),
{
    let items: Vec<&Term> = match proper_list(t) {
        Some(items) => items,
        None => {
            return None;
        },
    };
    let ghost all = list_items(*t);
    let mut acc = SearchOptions { global: false, trim: false, trim_all: false, scope: None };
    let mut i: usize = 0;
    assert(all.subrange(0, all.len() as int) =~= all);
    while i < items.len()
        invariant
            is_proper(*t),
            all == list_items(*t),
            i <= items.len(),
            items.len() == all.len(),
            forall|k: int| 0 <= k < items.len() ==> *(#[trigger] items[k]) == all[k],
            with_options(no_options(), all, splitting) == with_options(
                acc,
                all.subrange(i as int, all.len() as int),
                splitting,
            ),
        decreases items.len() - i,
    {
        let ghost rest = all.subrange(i as int, all.len() as int);
        assert(rest[0] == all[i as int]);
        assert(rest.drop_first() =~= all.subrange(i + 1, all.len() as int));
        match take_option(acc, items[i], splitting) {
            Some(next) => {
                acc = next;
            },
            None => {
                return None;
            },
        }
        i = i + 1;
    }
    assert(all.subrange(all.len() as int, all.len() as int) =~= Seq::<Term>::empty());
    Some(acc)
}

/// The part of a subject of `size` bytes that is searched, as its first byte
/// and its length.
pub open spec fn search_window(size: int, scope: Option<(usize, isize)>) -> Option<(int, int)> {
    match scope {
        None => Some((0, size)),
        Some(s) => part_bounds(size, s.0 as int, s.1 as int),
    }
}

fn window(size: usize, scope: Option<(usize, isize)>) -> (r: Option<(usize, usize)>)
    ensures
        r is Some <==> search_window(size as int, scope) is Some,
        r matches Some(w) ==> search_window(size as int, scope) == Some((w.0 as int, w.1 as int))
            && w.0 + w.1 <= size,
{
    match scope {
        None => Some((0, size)),
        Some((pos, len)) => bounds(size, pos, len),
    }
}

/// A part is empty.
pub open spec fn is_empty_part(part: (int, int)) -> bool {
    part.1 <= part.0
}

/// The parts between the matches, each as its first byte and the byte after
/// its last: from the start of the subject to the first match, from each
/// match to the next, and from the last match to the end.
pub open spec fn parts_between(cuts: Seq<(int, int)>, shift: int, size: int) -> Seq<(int, int)> {
    Seq::new(
        cuts.len() + 1,
        |i: int|
            (
                if i == 0 {
                    0
                } else {
                    cuts[i - 1].1 + shift
                },
                if i < cuts.len() {
                    cuts[i].0 + shift
                } else {
                    size
                },
            ),
    )
}

/// The parts without the empty ones at the end.
pub open spec fn without_trailing_empty(parts: Seq<(int, int)>) -> Seq<(int, int)>
    decreases parts.len(),
{
    if parts.len() > 0 && is_empty_part(parts.last()) {
        without_trailing_empty(parts.drop_last())
    } else {
        parts
    }
}

/// The parts without the empty ones.
pub open spec fn without_empty(parts: Seq<(int, int)>) -> Seq<(int, int)>
    decreases parts.len(),
{
    if parts.len() == 0 {
        parts
    } else if is_empty_part(parts.last()) {
        without_empty(parts.drop_last())
    } else {
        without_empty(parts.drop_last()).push(parts.last())
    }
}

/// The parts that a split at the given matches gives. The matches lie in
/// the searched part of the subject, which starts at byte `shift`. Every
/// part between the matches is kept, an empty one too, so that the parts
/// with the matches between them are the subject; only `trim` and
/// `trim_all` leave empty parts out.
pub open spec fn split_parts(
    cuts: Seq<(int, int)>,
    shift: int,
    size: int,
    options: SearchOptions,
) -> Seq<(int, int)> {
    let all = parts_between(cuts, shift, size);
    if options.trim_all {
        without_empty(all)
    } else if options.trim {
        without_trailing_empty(all)
    } else {
        all
    }
}

/// The view of the bytes `part.0 .. part.1` of a binary term.
pub open spec fn part_view(origin: RcBinary, first_bit: int, part: (int, int)) -> SubBinary {
    SubBinary::view_of(origin, 8 * (part.1 - part.0), first_bit + 8 * part.0, false)
}

/// The parts as numbers of the machine.
pub open spec fn parts_view(parts: Seq<(usize, usize)>) -> Seq<(int, int)> {
    Seq::new(parts.len(), |i: int| (parts[i].0 as int, parts[i].1 as int))
}

/// Splits a subject at the matches that a search found in it: the parts
/// between the matches, as views of the subject's binary.
pub fn split_at_matches(
    rb: RealBinary,
    matches: &Vec<(usize, usize)>,
    shift: usize,
    options: SearchOptions,
) -> (r: Vec<SubBinary>)
    requires
        rb.first_bit + 8 * rb.size <= usize::MAX,
        shift <= rb.size,
        ordered_matches(matches_view(matches@), rb.size - shift),
    ensures
        r@ == Seq::new(
            split_parts(matches_view(matches@), shift as int, rb.size as int, options).len(),
            |i: int|
                part_view(
                    rb.original,
                    rb.first_bit as int,
                    split_parts(matches_view(matches@), shift as int, rb.size as int, options)[i],
                ),
        ),
{
    let ghost found = matches_view(matches@);
    let ghost cuts = found;
    let used: usize = matches.len();
    let ghost all = parts_between(cuts, shift as int, rb.size as int);
    let mut parts: Vec<(usize, usize)> = Vec::new();
    let mut last: usize = 0;
    let mut i: usize = 0;
    while i < used
        invariant
            i <= used,
            used == cuts.len(),
            used <= matches.len(),
            shift <= rb.size,
            ordered_matches(found, rb.size - shift),
            found == matches_view(matches@),
            forall|k: int| 0 <= k < used ==> cuts[k] == found[k],
            all == parts_between(cuts, shift as int, rb.size as int),
            parts.len() == i,
            last <= rb.size,
            last == (if i == 0 {
                0
            } else {
                cuts[i - 1].1 + shift
            }),
            forall|k: int|
                0 <= k < i ==> (#[trigger] parts@[k]).0 <= parts@[k].1 <= rb.size && (
                parts@[k].0 as int,
                parts@[k].1 as int,
            ) == all[k],
        decreases used - i,
    {
        let m: (usize, usize) = matches[i];
        proof {
            assert(found[i as int] == (m.0 as int, m.1 as int));
            if i > 0 {
                assert(found[i - 1].1 <= found[i as int].0);
            }
        }
        parts.push((last, m.0 + shift));
        last = m.1 + shift;
        i = i + 1;
    }
    parts.push((last, rb.size));
    let ghost kept = all;
    assert(parts_view(parts@) =~= kept);
    assert(forall|k: int|
        0 <= k < parts.len() ==> (#[trigger] parts@[k]).0 <= parts@[k].1 <= rb.size);
    if options.trim_all {
        let mut out: Vec<(usize, usize)> = Vec::new();
        let mut j: usize = 0;
        while j < parts.len()
            invariant
                j <= parts.len(),
                parts_view(out@) == without_empty(parts_view(parts@).subrange(0, j as int)),
                forall|k: int|
                    0 <= k < parts.len() ==> (#[trigger] parts@[k]).0 <= parts@[k].1 <= rb.size,
                forall|k: int|
                    0 <= k < out.len() ==> (#[trigger] out@[k]).0 <= out@[k].1 <= rb.size,
            decreases parts.len() - j,
        {
            let part: (usize, usize) = parts[j];
            let ghost prefix = parts_view(parts@).subrange(0, j + 1);
            assert(prefix.drop_last() =~= parts_view(parts@).subrange(0, j as int));
            assert(prefix.last() == (part.0 as int, part.1 as int));
            if part.1 > part.0 {
                let ghost before = out@;
                out.push(part);
                assert(parts_view(out@) =~= parts_view(before).push(
                    (part.0 as int, part.1 as int),
                ));
            }
            j = j + 1;
        }
        assert(parts_view(parts@).subrange(0, parts.len() as int) =~= parts_view(parts@));
        parts = out;
    } else if options.trim {
        while parts.len() > 0 && parts[parts.len() - 1].1 <= parts[parts.len() - 1].0
            invariant
                without_trailing_empty(parts_view(parts@)) == without_trailing_empty(kept),
                forall|k: int|
                    0 <= k < parts.len() ==> (#[trigger] parts@[k]).0 <= parts@[k].1 <= rb.size,
            decreases parts.len(),
        {
            let ghost before = parts_view(parts@);
            parts.pop();
            assert(parts_view(parts@) =~= before.drop_last());
        }
    }
    let ghost wanted = split_parts(found, shift as int, rb.size as int, options);
    assert(parts_view(parts@) == wanted);
    let mut views: Vec<SubBinary> = Vec::new();
    let mut k: usize = 0;
    while k < parts.len()
        invariant
            k <= parts.len(),
            views.len() == k,
            rb.first_bit + 8 * rb.size <= usize::MAX,
            forall|a: int|
                0 <= a < parts.len() ==> (#[trigger] parts@[a]).0 <= parts@[a].1 <= rb.size,
            forall|a: int|
                0 <= a < k ==> #[trigger] views@[a] == part_view(
                    rb.original,
                    rb.first_bit as int,
                    parts_view(parts@)[a],
                ),
        decreases parts.len() - k,
    {
        let part: (usize, usize) = parts[k];
        assert(parts_view(parts@)[k as int] == (part.0 as int, part.1 as int));
        views.push(
            SubBinary::new(rb.original, (part.1 - part.0) * 8, rb.first_bit + part.0 * 8, false),
        );
        k = k + 1;
    }
    assert(views@ =~= Seq::new(
        wanted.len(),
        |i: int| part_view(rb.original, rb.first_bit as int, wanted[i]),
    ));
    views
}

/// The bytes of the subject that a search looks at.
pub open spec fn searched_bytes(subject: Term, options: SearchOptions, table: &BinaryTable) -> Seq<
    u8,
> {
    let w = search_window(byte_size(subject, table), options.scope)->0;
    binary_bytes(subject, table).subrange(w.0, w.0 + w.1)
}

/// The arguments of a search are a binary, a pattern and options.
pub open spec fn search_ready(
    subject: Term,
    pattern: Term,
    options: Term,
    splitting: bool,
    table: &BinaryTable,
) -> bool {
    &&& readable(subject, table)
    &&& pattern_source(pattern, table) is Some
    &&& search_options(options, splitting) is Some
    &&& search_window(byte_size(subject, table), search_options(options, splitting)->0.scope)
        is Some
    &&& pattern_compiles(pattern_source(pattern, table)->0)
}

/// The matches at which a split cuts: all of them where it is global, else
/// the first.
pub open spec fn split_cuts(source: Seq<char>, bytes: Seq<u8>, global: bool) -> Seq<(int, int)> {
    if global {
        all_matches(source, bytes)
    } else {
        match first_match(source, bytes) {
            Some(m) => seq![m],
            None => Seq::empty(),
        }
    }
}

/// A search that is set up: where the subject lies, the source of the
/// pattern, the options, and the part of the subject that is searched, as a
/// copy and as its first byte in the subject.
struct Search {
    rb: RealBinary,
    source: String,
    options: SearchOptions,
    bytes: Vec<u8>,
    shift: usize,
}

fn prepare(args: &[Term], splitting: bool, table: &BinaryTable) -> (r: Option<Search>)
    requires
        args.len() >= 3,
    ensures
        r is Some <==> {
            &&& readable(args[0], table)
            &&& pattern_source(args[1], table) is Some
            &&& search_options(args[2], splitting) is Some
            &&& search_window(
                byte_size(args[0], table),
                search_options(args[2], splitting)->0.scope,
            ) is Some
        },
        r matches Some(s) ==> {
            &&& real_binary_of(args[0], table) == s.rb
            &&& s.source@ == pattern_source(args[1], table)->0
            &&& Some(s.options) == search_options(args[2], splitting)
            &&& s.bytes@ == searched_bytes(args[0], s.options, table)
            &&& s.shift == ({
                let w = search_window(byte_size(args[0], table), s.options.scope)->0;
                w.0
            })
            &&& s.shift + s.bytes.len() <= s.rb.size
            &&& s.rb.first_bit + 8 * s.rb.size <= usize::MAX
        },
{
    // subject = binary
    let rb: RealBinary = match real_binary(&args[0], table) {
        Some(rb) => rb,
        None => {
            return None;
        },
    };
    // pattern = binary | [binary] | compiled
    let source: String = match compile_source(&args[1], table) {
        Some(source) => source,
        None => {
            return None;
        },
    };
    // parse options
    let options: SearchOptions = match parse_options(&args[2], splitting) {
        Some(options) => options,
        None => {
            return None;
        },
    };
    let (shift, len): (usize, usize) = match window(rb.size, options.scope) {
        Some(w) => w,
        None => {
            return None;
        },
    };
    let all: Vec<u8> = to_bytes(&args[0], table).unwrap();
    let part: &[u8] = slice_subrange(all.as_slice(), shift, shift + len);
    let bytes: Vec<u8> = vstd::slice::slice_to_vec(part);
    Some(Search { rb, source, options, bytes, shift })
}

/// Where a bitstring term lies in its binary.
pub open spec fn real_binary_of(t: Term, table: &BinaryTable) -> RealBinary {
    RealBinary {
        original: bitstring_origin(t),
        first_bit: bitstring_start(t) as usize,
        size: byte_size(t, table) as usize,
        bitsize: bit_rest(t) as usize,
    }
}

/// The list of the views, in their order.
pub fn views_to_list(views: Vec<SubBinary>) -> (t: Term)
    ensures
        t == list_of(Seq::new(views.len() as nat, |i: int| Term::SubBinary(views[i]))),
{
    let mut terms: Vec<Term> = Vec::new();
    let mut i: usize = 0;
    while i < views.len()
        invariant
            i <= views.len(),
            terms.len() == i,
            forall|k: int| 0 <= k < i ==> #[trigger] terms@[k] == Term::SubBinary(views[k]),
        decreases views.len() - i,
    {
        terms.push(Term::SubBinary(views[i]));
        i = i + 1;
    }
    assert(terms@ =~= Seq::new(views.len() as nat, |i: int| Term::SubBinary(views[i])));
    Cons::from_iter(terms)
}

/// `binary:split(Subject, Pattern, Options)`: the parts of the subject
/// between the matches of the pattern, as views of the subject's binary.
pub fn split_3(_vm: &Machine, process: &Process, args: &[Term]) -> (r: Result<Term, Exception>)
    requires
        args.len() >= 3,
    ensures
        r is Ok <==> search_ready(args[0], args[1], args[2], true, &process.context.binaries),
        r matches Err(e) ==> e.reason == Reason::EXC_BADARG,
        r matches Ok(t) ==> {
            let table = &process.context.binaries;
            let options = search_options(args[2], true)->0;
            let w = search_window(byte_size(args[0], table), options.scope)->0;
            let parts = split_parts(
                split_cuts(
                    pattern_source(args[1], table)->0,
                    searched_bytes(args[0], options, table),
                    options.global,
                ),
                w.0,
                byte_size(args[0], table),
                options,
            );
            t == list_of(
                Seq::new(
                    parts.len(),
                    |i: int|
                        Term::SubBinary(
                            part_view(bitstring_origin(args[0]), bitstring_start(args[0]), parts[i]),
                        ),
                ),
            )
        },
{
    // <subject> <pattern> <options>
    let search: Search = match prepare(args, true, &process.context.binaries) {
        Some(search) => search,
        None => {
            return Err(badarg());
        },
    };
    let cuts: Vec<(usize, usize)> = if search.options.global {
        match find_all(search.source.as_str(), search.bytes.as_slice()) {
            Some(found) => found,
            None => {
                return Err(badarg());
            },
        }
    } else {
        match find_first(search.source.as_str(), search.bytes.as_slice()) {
            Some(Some(m)) => {
                let mut one: Vec<(usize, usize)> = Vec::new();
                one.push(m);
                assert(matches_view(one@) =~= seq![(m.0 as int, m.1 as int)]);
                one
            },
            Some(None) => {
                let none: Vec<(usize, usize)> = Vec::new();
                assert(matches_view(none@) =~= Seq::<(int, int)>::empty());
                none
            },
            None => {
                return Err(badarg());
            },
        }
    };
    let views: Vec<SubBinary> = split_at_matches(search.rb, &cuts, search.shift, search.options);
    let t = views_to_list(views);
    proof {
        let table = &process.context.binaries;
        let options = search.options;
        let w = search_window(byte_size(args[0], table), options.scope)->0;
        let parts = split_parts(
            matches_view(cuts@),
            w.0,
            byte_size(args[0], table),
            options,
        );
        assert(Seq::new(views.len() as nat, |i: int| Term::SubBinary(views[i])) =~= Seq::new(
            parts.len(),
            |i: int|
                Term::SubBinary(
                    part_view(bitstring_origin(args[0]), bitstring_start(args[0]), parts[i]),
                ),
        ));
    }
    Ok(t)
}

/// `binary:split(Subject, Pattern)`: as `split_3` without options.
pub fn split_2(vm: &Machine, process: &Process, args: &[Term]) -> (r: Result<Term, Exception>)
    requires
        args.len() >= 2,
    ensures
        r is Ok <==> search_ready(args[0], args[1], Term::Nil, true, &process.context.binaries),
        r matches Err(e) ==> e.reason == Reason::EXC_BADARG,
        r matches Ok(t) ==> {
            let table = &process.context.binaries;
            let parts = split_parts(
                split_cuts(
                    pattern_source(args[1], table)->0,
                    searched_bytes(args[0], no_options(), table),
                    false,
                ),
                0,
                byte_size(args[0], table),
                no_options(),
            );
            t == list_of(
                Seq::new(
                    parts.len(),
                    |i: int|
                        Term::SubBinary(
                            part_view(bitstring_origin(args[0]), bitstring_start(args[0]), parts[i]),
                        ),
                ),
            )
        },
{
    let mut full: Vec<Term> = Vec::new();
    full.push(args[0].clone());
    full.push(args[1].clone());
    full.push(Term::Nil);
    proof {
        lemma_same_search(args[0], full@[0], args[1], full@[1], &process.context.binaries);
        assert(list_items(Term::Nil) =~= Seq::<Term>::empty());
    }
    split_3(vm, process, full.as_slice())
}

/// Terms with the same view are the same subject and the same pattern.
pub proof fn lemma_same_search(subject_a: Term, subject_b: Term, pattern_a: Term, pattern_b: Term, table: &BinaryTable)
    requires
        subject_a@ == subject_b@,
        pattern_a@ == pattern_b@,
    ensures
        readable(subject_a, table) == readable(subject_b, table),
        readable(subject_a, table) ==> subject_a == subject_b,
        pattern_source(pattern_a, table) == pattern_source(pattern_b, table),
{
    lemma_same_bitstring(subject_a, subject_b, table);
    lemma_same_pattern(pattern_a, pattern_b, table);
}

/// Terms with the same view are the same bitstring.
pub proof fn lemma_same_bitstring(subject_a: Term, subject_b: Term, table: &BinaryTable)
    requires
        subject_a@ == subject_b@,
    ensures
        readable(subject_a, table) == readable(subject_b, table),
        subject_a is Binary || subject_a is SubBinary ==> subject_a == subject_b,
        literal_source(subject_a, table) == literal_source(subject_b, table),
{
}

/// Terms with the same view are lists of the same length, with items of the
/// same views.
pub proof fn lemma_same_list(a: Term, b: Term)
    requires
        a@ == b@,
    ensures
        is_proper(a) == is_proper(b),
        list_items(a).len() == list_items(b).len(),
        forall|i: int| 0 <= i < list_items(a).len() ==> (#[trigger] list_items(a)[i])@ == list_items(b)[i]@,
    decreases a,
{
    match a {
        Term::Cons(c) => {
            let d = b->Cons_0;
            assert(c.head@ == d.head@);
            assert(c.tail@ == d.tail@);
            lemma_same_list(c.tail, d.tail);
            match c.tail {
                Term::Cons(_) => {
                    assert(list_items(a) =~= seq![c.head] + list_items(c.tail));
                    assert(list_items(b) =~= seq![d.head] + list_items(d.tail));
                },
                _ => {
                    assert(list_items(a) =~= seq![c.head]);
                    assert(list_items(b) =~= seq![d.head]);
                },
            }
        },
        _ => {},
    }
}

/// Terms with the same view are the same pattern.
pub proof fn lemma_same_pattern(pattern_a: Term, pattern_b: Term, table: &BinaryTable)
    requires
        pattern_a@ == pattern_b@,
    ensures
        pattern_source(pattern_a, table) == pattern_source(pattern_b, table),
{
    match pattern_a {
        Term::Cons(_) => {
            lemma_same_list(pattern_a, pattern_b);
            let a = list_items(pattern_a);
            let b = list_items(pattern_b);
            assert forall|i: int| 0 <= i < a.len() implies literal_source(a[i], table)
                == literal_source(b[i], table) by {
                lemma_same_bitstring(a[i], b[i], table);
            }
            if pattern_source(pattern_a, table) is Some {
                assert forall|i: int| 0 <= i < b.len() implies (#[trigger] literal_source(
                    b[i],
                    table,
                )) is Some by {
                    assert(literal_source(a[i], table) is Some);
                }
            }
            if pattern_source(pattern_b, table) is Some {
                assert forall|i: int| 0 <= i < a.len() implies (#[trigger] literal_source(
                    a[i],
                    table,
                )) is Some by {
                    assert(literal_source(b[i], table) is Some);
                }
            }
            assert(Seq::new(a.len(), |i: int| literal_source(a[i], table)->0) =~= Seq::new(
                b.len(),
                |i: int| literal_source(b[i], table)->0,
            ));
        },
        _ => {
            lemma_same_bitstring(pattern_a, pattern_b, table);
        },
    }
}

/// The term is the pair of the integers `start` and `len`.
pub open spec fn is_position(t: Term, start: int, len: int) -> bool {
    t matches Term::Tuple(v) && v.len() == 2 && is_integer(v[0], start) && is_integer(v[1], len)
}

/// What `match` answers for a match that was found in the searched part of
/// the subject, which starts at byte `shift`: the pair of the match's
/// position in the subject and its length; the atom `nomatch` where there
/// is none.
pub fn match_term(found: Option<(usize, usize)>, shift: usize) -> (t: Term)
    requires
        found matches Some(m) ==> m.0 <= m.1 && m.1 + shift <= usize::MAX,
    ensures
        found is None ==> t == Term::Atom(atom::NOMATCH),
        found matches Some(m) ==> is_position(t, m.0 + shift, m.1 - m.0),
{
    match found {
        Some(m) => Term::tup2(
            Term::uint64((m.0 + shift) as u64),
            Term::uint64((m.1 - m.0) as u64),
        ),
        None => Term::Atom(atom::NOMATCH),
    }
}

/// What `matches` answers for the matches that were found in the searched
/// part of the subject: the list of their positions and lengths, in their
/// order.
pub fn matches_term(found: &Vec<(usize, usize)>, shift: usize) -> (t: Term)
    requires
        forall|i: int|
            0 <= i < found.len() ==> (#[trigger] found[i]).0 <= found[i].1 && found[i].1 + shift
                <= usize::MAX,
    ensures
        is_proper(t),
        list_items(t).len() == found.len(),
        forall|i: int|
            0 <= i < found.len() ==> is_position(
                #[trigger] list_items(t)[i],
                found[i].0 + shift,
                found[i].1 - found[i].0,
            ),
{
    let mut values: Vec<Term> = Vec::new();
    let mut i: usize = 0;
    while i < found.len()
        invariant
            i <= found.len(),
            values.len() == i,
            forall|k: int|
                0 <= k < found.len() ==> (#[trigger] found[k]).0 <= found[k].1 && found[k].1
                    + shift <= usize::MAX,
            forall|k: int|
                0 <= k < i ==> is_position(
                    #[trigger] values@[k],
                    found[k].0 + shift,
                    found[k].1 - found[k].0,
                ),
        decreases found.len() - i,
    {
        let m: (usize, usize) = found[i];
        values.push(match_term(Some(m), shift));
        i = i + 1;
    }
    proof {
        lemma_list_of(values@);
    }
    Cons::from_iter(values)
}

/// `binary:match(Subject, Pattern, Options)`: where the pattern first
/// matches in the subject.
pub fn match_3(_vm: &Machine, process: &Process, args: &[Term]) -> (r: Result<Term, Exception>)
    requires
        args.len() >= 3,
    ensures
        r is Ok <==> search_ready(args[0], args[1], args[2], false, &process.context.binaries),
        r matches Err(e) ==> e.reason == Reason::EXC_BADARG,
        r matches Ok(t) ==> {
            let table = &process.context.binaries;
            let options = search_options(args[2], false)->0;
            let w = search_window(byte_size(args[0], table), options.scope)->0;
            match first_match(
                pattern_source(args[1], table)->0,
                searched_bytes(args[0], options, table),
            ) {
                Some(m) => is_position(t, m.0 + w.0, m.1 - m.0),
                None => t == Term::Atom(atom::NOMATCH),
            }
        },
{
    // <subject> <pattern> <options>
    let search: Search = match prepare(args, false, &process.context.binaries) {
        Some(search) => search,
        None => {
            return Err(badarg());
        },
    };
    match find_first(search.source.as_str(), search.bytes.as_slice()) {
        Some(found) => Ok(match_term(found, search.shift)),
        None => Err(badarg()),
    }
}

/// `binary:match(Subject, Pattern)`: as `match_3` without options.
pub fn match_2(vm: &Machine, process: &Process, args: &[Term]) -> (r: Result<Term, Exception>)
    requires
        args.len() >= 2,
    ensures
        r is Ok <==> search_ready(args[0], args[1], Term::Nil, false, &process.context.binaries),
        r matches Err(e) ==> e.reason == Reason::EXC_BADARG,
        r matches Ok(t) ==> {
            let table = &process.context.binaries;
            match first_match(
                pattern_source(args[1], table)->0,
                searched_bytes(args[0], no_options(), table),
            ) {
                Some(m) => is_position(t, m.0, m.1 - m.0),
                None => t == Term::Atom(atom::NOMATCH),
            }
        },
{
    let mut full: Vec<Term> = Vec::new();
    full.push(args[0].clone());
    full.push(args[1].clone());
    full.push(Term::Nil);
    proof {
        lemma_same_search(args[0], full@[0], args[1], full@[1], &process.context.binaries);
        assert(list_items(Term::Nil) =~= Seq::<Term>::empty());
    }
    match_3(vm, process, full.as_slice())
}

/// `binary:matches(Subject, Pattern, Options)`: where the pattern matches in
/// the subject, match after match: each match starts no earlier than the
/// one before it ends.
pub fn matches_3(_vm: &Machine, process: &Process, args: &[Term]) -> (r: Result<Term, Exception>)
    requires
        args.len() >= 3,
    ensures
        r is Ok <==> search_ready(args[0], args[1], args[2], false, &process.context.binaries),
        r matches Err(e) ==> e.reason == Reason::EXC_BADARG,
        r matches Ok(t) ==> {
            let table = &process.context.binaries;
            let options = search_options(args[2], false)->0;
            let w = search_window(byte_size(args[0], table), options.scope)->0;
            let found = all_matches(
                pattern_source(args[1], table)->0,
                searched_bytes(args[0], options, table),
            );
            &&& is_proper(t)
            &&& list_items(t).len() == found.len()
            &&& forall|i: int|
                0 <= i < found.len() ==> is_position(
                    #[trigger] list_items(t)[i],
                    found[i].0 + w.0,
                    found[i].1 - found[i].0,
                )
            &&& ordered_matches(found, searched_bytes(args[0], options, table).len() as int)
        },
{
    // <subject> <pattern> <options>
    let search: Search = match prepare(args, false, &process.context.binaries) {
        Some(search) => search,
        None => {
            return Err(badarg());
        },
    };
    match find_all(search.source.as_str(), search.bytes.as_slice()) {
        Some(found) => {
            proof {
                let view = matches_view(found@);
                assert forall|i: int| 0 <= i < found.len() implies (#[trigger] found[i]).0
                    <= found[i].1 && found[i].1 + search.shift <= usize::MAX by {
                    assert(view[i] == (found[i].0 as int, found[i].1 as int));
                }
                assert forall|i: int| 0 <= i < found.len() implies view[i] == (
                    found[i].0 as int,
                    found[i].1 as int,
                ) by {}
            }
            Ok(matches_term(&found, search.shift))
        },
        None => Err(badarg()),
    }
}

/// `binary:matches(Subject, Pattern)`: as `matches_3` without options.
pub fn matches_2(vm: &Machine, process: &Process, args: &[Term]) -> (r: Result<Term, Exception>)
    requires
        args.len() >= 2,
    ensures
        r is Ok <==> search_ready(args[0], args[1], Term::Nil, false, &process.context.binaries),
        r matches Err(e) ==> e.reason == Reason::EXC_BADARG,
        r matches Ok(t) ==> {
            let table = &process.context.binaries;
            let found = all_matches(
                pattern_source(args[1], table)->0,
                searched_bytes(args[0], no_options(), table),
            );
            &&& is_proper(t)
            &&& list_items(t).len() == found.len()
            &&& forall|i: int|
                0 <= i < found.len() ==> is_position(
                    #[trigger] list_items(t)[i],
                    found[i].0,
                    found[i].1 - found[i].0,
                )
            &&& ordered_matches(found, searched_bytes(args[0], no_options(), table).len() as int)
        },
{
    let mut full: Vec<Term> = Vec::new();
    full.push(args[0].clone());
    full.push(args[1].clone());
    full.push(Term::Nil);
    proof {
        lemma_same_search(args[0], full@[0], args[1], full@[1], &process.context.binaries);
        assert(list_items(Term::Nil) =~= Seq::<Term>::empty());
    }
    matches_3(vm, process, full.as_slice())
}

/// The length `n` is that of the longest prefix that all the strings share.
pub open spec fn is_longest_prefix(strings: Seq<Seq<u8>>, n: int) -> bool {
    &&& strings.len() == 0 ==> n == 0
    &&& forall|i: int|
        0 <= i < strings.len() ==> n <= (#[trigger] strings[i]).len() && strings[i].subrange(0, n)
            == strings[0].subrange(0, n)
    &&& strings.len() > 0 ==> exists|i: int|
        0 <= i < strings.len() && !(n + 1 <= (#[trigger] strings[i]).len() && n + 1
            <= strings[0].len() && strings[i].subrange(0, n + 1) == strings[0].subrange(0, n + 1))
}

/// `binary:longest_common_prefix(Binaries)`: the length of the longest
/// prefix that all the binaries of a list share.
pub fn longest_common_prefix_1(_vm: &Machine, process: &Process, args: &[Term]) -> (r: Result<
    Term,
    Exception,
>)
    requires
        args.len() >= 1,
    ensures
        r is Ok <==> is_proper(args[0]) && forall|i: int|
            0 <= i < list_items(args[0]).len() ==> readable(
                #[trigger] list_items(args[0])[i],
                &process.context.binaries,
            ),
        r matches Err(e) ==> e.reason == Reason::EXC_BADARG,
        r matches Ok(t) ==> int_of(t) is Some && is_integer(t, int_of(t)->0) && is_longest_prefix(
            Seq::new(
                list_items(args[0]).len(),
                |i: int| binary_bytes(list_items(args[0])[i], &process.context.binaries),
            ),
            int_of(t)->0,
        ),
{
    let items: Vec<&Term> = match proper_list(&args[0]) {
        Some(items) => items,
        None => {
            return Err(badarg());
        },
    };
    let ghost all = list_items(args[0]);
    let ghost table = &process.context.binaries;
    let mut acc: Vec<Vec<u8>> = Vec::new();
    let mut i: usize = 0;
    while i < items.len()
        invariant
            is_proper(args[0]),
            all == list_items(args[0]),
            table == &process.context.binaries,
            i <= items.len(),
            items.len() == all.len(),
            forall|k: int| 0 <= k < items.len() ==> *(#[trigger] items[k]) == all[k],
            acc.len() == i,
            forall|k: int| 0 <= k < i ==> readable(#[trigger] all[k], table),
            forall|k: int| 0 <= k < i ==> (#[trigger] acc@[k])@ == binary_bytes(all[k], table),
        decreases items.len() - i,
    {
        match to_bytes(items[i], &process.context.binaries) {
            Some(bytes) => {
                acc.push(bytes);
            },
            None => {
                assert(!readable(all[i as int], table));
                return Err(badarg());
            },
        }
        i = i + 1;
    }
    let n: usize = longest_common_prefix(acc.as_slice());
    let t = Term::uint64(n as u64);
    proof {
        let strings = Seq::new(all.len(), |i: int| binary_bytes(all[i], table));
        assert forall|k: int| 0 <= k < strings.len() implies n <= (#[trigger] strings[k]).len()
            && strings[k].subrange(0, n as int) == strings[0].subrange(0, n as int) by {
            assert(agrees(acc@[k], acc@[0], n as int));
        }
        if strings.len() > 0 {
            let w = choose|w: int| 0 <= w < acc@.len() && !#[trigger] agrees(acc@[w], acc@[0], n + 1);
            assert(!(n + 1 <= strings[w].len() && n + 1 <= strings[0].len() && strings[w].subrange(
                0,
                n + 1,
            ) == strings[0].subrange(0, n + 1)));
        }
        assert(is_longest_prefix(strings, n as int));
    }
    Ok(t)
}

} // verus!
