//! The append protocol: how a bitstring grows at its end.
use super::bits::{bit_at, bits, lemma_bit_range, nbytes, same_bit, same_bits, spec_nbytes};
use super::builder::{bitstring_len, bitstring_origin, bitstring_start, Builder};
use super::copy::{copy_bits, lemma_copied_forward};
use super::{Binary, BinaryTable, RcBinary, SubBinary};
use crate::process::Process;
use crate::value::Term;
use vstd::prelude::*;

verus! {

/// The term is a binary or a sub-binary, and what it views lies in the table.
pub open spec fn is_bitstring(t: Term, table: &BinaryTable) -> bool {
    match t {
        Term::Binary(rc) => table.has(rc),
        Term::SubBinary(sb) => sb.wf(table),
        _ => false,
    }
}

/// The build size that a term asks for: a small integer that is not negative.
pub open spec fn build_size_of(t: Term) -> Option<int> {
    match t {
        Term::Int(i) => if i >= 0 {
            Some(i as int)
        } else {
            None
        },
        _ => None,
    }
}

/// The bitstring may be extended in place: a writable sub-binary that starts
/// at the first bit of a writable binary.
pub open spec fn extendable(t: Term, table: &BinaryTable) -> bool {
    t matches Term::SubBinary(sb) && sb.is_writable && table.writable(sb.original)
        && sb.first_bit() == 0
}

/// The number of bytes to reserve for a bitstring of `used` bits: twice what
/// it needs, at least 256, and no more than it needs above half a gigabyte.
pub open spec fn reserve_size(used: int) -> int {
    let bytes = spec_nbytes(used);
    let room = if used < 0x7fff_ffff {
        2 * bytes
    } else if bytes < 0x2000_0000 {
        0x2000_0000
    } else {
        bytes
    };
    if room < 256 {
        256
    } else {
        room
    }
}

/// Every binary of `before` is a binary of `after`, and its bytes there start
/// with the bytes it had: no view of a binary has changed.
pub open spec fn extends(before: &BinaryTable, after: &BinaryTable) -> bool {
    &&& before.bins.len() <= after.bins.len()
    &&& forall|i: int|
        0 <= i < before.bins.len() ==> (#[trigger] before.bins[i]).data@.is_prefix_of(
            after.bins[i].data@,
        )
}

/// When `append` gives up: the arguments are no bitstring and build size,
/// the length is no multiple of the unit, or the result would be longer than
/// the machine can address.
pub open spec fn append_refused(t: Term, table: &BinaryTable, build_size: Term, unit: usize) -> bool {
    ||| !is_bitstring(t, table)
    ||| build_size_of(build_size) is None
    ||| bitstring_start(t) + bitstring_len(t, table) > usize::MAX
    ||| (unit > 1 && bitstring_len(t, table) % (unit as int) != 0)
    ||| (build_size_of(build_size)->0 > 0 && bitstring_len(t, table) + build_size_of(
        build_size,
    )->0 + 7 > usize::MAX)
}

fn reserve(used: usize) -> (r: usize)
    requires
        used + 7 <= usize::MAX,
    ensures
        r == reserve_size(used as int),
        r >= spec_nbytes(used as int),
{
    let bytes: usize = nbytes(used);
    let room: usize = if used < 0x7fff_ffff {
        2 * bytes
    } else if bytes < 0x2000_0000 {
        0x2000_0000
    } else {
        bytes
    };
    // Minimum capacity is 256 bytes.
    if room < 256 {
        256
    } else {
        room
    }
}

/// The length in bits of a bitstring term, where the machine can hold it.
fn bit_length(t: &Term, table: &BinaryTable) -> (r: Option<usize>)
    ensures
        r is Some <==> is_bitstring(*t, table) && bitstring_start(*t) + bitstring_len(*t, table)
            <= usize::MAX,
        r matches Some(l) ==> l == bitstring_len(*t, table),
{
    match t {
        Term::Binary(rc) => {
            if !table.contains(*rc) {
                return None;
            }
            let len: usize = table.get(*rc).data.len();
            if len > usize::MAX / 8 {
                return None;
            }
            Some(len * 8)
        },
        Term::SubBinary(sb) => {
            if !table.contains(sb.original) {
                return None;
            }
            let len: u128 = table.get(sb.original).data.len() as u128;
            let total: u128 = 8 * (sb.size as u128) + sb.bitsize as u128;
            let first: u128 = 8 * (sb.offset as u128) + sb.bit_offset as u128;
            // The view must lie inside the binary.
            if first + total > 8 * len || first + total > usize::MAX as u128 {
                return None;
            }
            Some(total as usize)
        },
        _ => None,
    }
}

/// What `append` leaves behind where it extends the bitstring in place:
/// the binary has grown, by zero bytes, where the room that was reserved
/// did not suffice.
pub open spec fn extended_in_place(
    before: &Process,
    after: &Process,
    old_term: Term,
    new_term: Term,
    result: Term,
    k: int,
) -> bool {
    let sb = old_term->SubBinary_0;
    let len = sb.bit_len();
    let t0 = &before.context.binaries;
    let t1 = &after.context.binaries;
    &&& new_term == Term::SubBinary(SubBinary { is_writable: false, ..sb })
    &&& result == Term::SubBinary(SubBinary::view_of(sb.original, len + k, 0, true))
    &&& t1.bins.len() == t0.bins.len()
    &&& forall|i: int| 0 <= i < t0.bins.len() && i != sb.original.0 ==> #[trigger] t1.bins[i] == t0.bins[i]
    &&& t0.bytes(sb.original).is_prefix_of(t1.bytes(sb.original))
    &&& t1.bytes(sb.original).len() == (if t0.bytes(sb.original).len() < spec_nbytes(len + k) {
        reserve_size(len + k)
    } else {
        t0.bytes(sb.original).len() as int
    })
    &&& forall|i: int|
        t0.bytes(sb.original).len() <= i < t1.bytes(sb.original).len() ==> #[trigger] t1.bytes(
            sb.original,
        )[i] == 0
    &&& t1.writable(sb.original)
    &&& len + k <= 8 * t1.bytes(sb.original).len()
    &&& after.context.bs == (Builder { binary: sb.original, offset: len as usize })
    &&& after.pid == before.pid
}

/// What `append` leaves behind where it copies the bitstring to a new
/// binary: the binaries that were there are untouched.
pub open spec fn copied_to_new(
    before: &Process,
    after: &Process,
    old_term: Term,
    new_term: Term,
    result: Term,
    k: int,
) -> bool {
    let t0 = &before.context.binaries;
    let t1 = &after.context.binaries;
    let len = bitstring_len(old_term, t0);
    let fresh = RcBinary(t0.bins.len() as usize);
    &&& new_term == (match old_term {
        Term::SubBinary(sb) => Term::SubBinary(SubBinary { is_writable: false, ..sb }),
        _ => old_term,
    })
    &&& result == Term::SubBinary(SubBinary::view_of(fresh, len + k, 0, true))
    &&& t1.bins.len() == t0.bins.len() + 1
    &&& forall|i: int| 0 <= i < t0.bins.len() ==> #[trigger] t1.bins[i] == t0.bins[i]
    &&& t1.writable(fresh)
    &&& t1.bytes(fresh).len() == reserve_size(len + k)
    &&& same_bits(t1.bytes(fresh), 0, t0.bytes(bitstring_origin(old_term)), bitstring_start(old_term), len)
    &&& forall|p: int| len <= p < 8 * t1.bytes(fresh).len() ==> #[trigger] bit_at(t1.bytes(fresh), p) == 0
    &&& after.context.bs == (Builder { binary: fresh, offset: len as usize })
    &&& after.pid == before.pid
}

/// What a successful `append` leaves behind: `old_term` is the bitstring
/// that was passed, `new_term` what has become of it, `result` the bitstring
/// with room for `k` more bits.
pub open spec fn made_room(
    before: &Process,
    after: &Process,
    old_term: Term,
    new_term: Term,
    result: Term,
    k: int,
) -> bool {
    if k == 0 {
        &&& result@ == old_term@
        &&& new_term == old_term
        &&& *after == *before
    } else if extendable(old_term, &before.context.binaries) {
        extended_in_place(before, after, old_term, new_term, result, k)
    } else {
        copied_to_new(before, after, old_term, new_term, result, k)
    }
}

/// Makes room for `build_size` more bits at the end of a bitstring, and
/// binds the builder of the process to where they go.
///
/// A writable sub-binary of a writable binary is extended in place: its
/// binary grows where the room that is reserved does not suffice, the
/// sub-binary that was passed loses its right to write, and the result views
/// the same binary. Any other bitstring is copied to a new binary with room
/// to grow. No bits to build give the bitstring back as it is.
pub fn append(
    process: &mut Process,
    binary: &mut Term,
    build_size: &Term,
    _extra_words: usize,
    unit: usize,
) -> (r: Option<Term>)
    ensures
        r is None <==> append_refused(*old(binary), &old(process).context.binaries, *build_size, unit),
        r is None ==> *final(binary) == *old(binary) && *final(process) == *old(process),
        r matches Some(t) ==> made_room(
            old(process),
            final(process),
            *old(binary),
            *final(binary),
            t,
            build_size_of(*build_size)->0,
        ),
{
    // Check and untag the requested build size.
    let k: usize = match build_size {
        Term::Int(i) => {
            if *i >= 0 {
                *i as usize
            } else {
                return None;
            }
        },
        _ => {
            return None;
        },
    };
    // Check the binary argument.
    let len: usize = match bit_length(binary, &process.context.binaries) {
        Some(l) => l,
        None => {
            return None;
        },
    };
    if unit > 1 && len % unit != 0 {
        return None;
    }
    if k == 0 {
        return Some(binary.clone());
    }
    if len > usize::MAX - 7 - k {
        return None;
    }
    let used: usize = len + k;
    let view: Option<SubBinary> = match binary {
        Term::SubBinary(sb) => Some(*sb),
        _ => None,
    };
    let writable: bool = match view {
        Some(sb) => sb.is_writable && process.context.binaries.get(sb.original).is_writable
            && sb.offset == 0 && sb.bit_offset == 0,
        None => false,
    };
    match view {
        Some(sb) => {
            // Make sure that no one else can write.
            *binary = Term::SubBinary(
                SubBinary {
                    size: sb.size,
                    offset: sb.offset,
                    bitsize: sb.bitsize,
                    bit_offset: sb.bit_offset,
                    is_writable: false,
                    original: sb.original,
                },
            );
        },
        None => {},
    }
    if writable {
        // OK, the binary is writable.
        let sb: SubBinary = view.unwrap();
        let idx: usize = sb.original.0;
        let size: usize = nbytes(used);
        // Reserve extra capacity if needed.
        if process.context.binaries.bins[idx].data.len() < size {
            let room: usize = reserve(used);
            let ghost before = process.context.binaries.bins[idx as int].data@;
            process.context.binaries.bins[idx].data.resize(room, 0u8);
            assert(before =~= process.context.binaries.bins[idx as int].data@.subrange(
                0,
                before.len() as int,
            ));
        }
        process.context.bs = Builder { binary: sb.original, offset: len };
        Some(Term::SubBinary(SubBinary::new(sb.original, used, 0, true)))
    } else {
        // The binary is not writable. We must create a new writable binary
        // and copy the old contents of the binary.
        let (origin, start): (RcBinary, usize) = match binary {
            Term::Binary(rc) => (*rc, 0),
            Term::SubBinary(sb) => (sb.original, sb.offset * 8 + sb.bit_offset as usize),
            _ => (RcBinary(0), 0),
        };
        // Allow some room for growing.
        let room: usize = reserve(used);
        let mut data: Vec<u8> = Vec::new();
        data.resize(room, 0u8);
        let ghost blank = data@;
        // Now copy the data into the binary.
        copy_bits(
            process.context.binaries.get(origin).data.as_slice(),
            start,
            1,
            &mut data,
            0,
            1,
            len,
        );
        proof {
            lemma_copied_forward(
                process.context.binaries.bytes(origin),
                start as int,
                blank,
                data@,
                0,
                len as int,
            );
            lemma_bit_range(0u8);
            assert forall|p: int| len <= p < 8 * data.len() implies #[trigger] bit_at(data@, p)
                == 0 by {
                assert(bit_at(blank, p) == 0);
            }
        }
        let fresh: RcBinary = process.context.binaries.add(Binary { is_writable: true, data });
        process.context.bs = Builder { binary: fresh, offset: len };
        // The sub binary's size includes the data about to be built.
        Some(Term::SubBinary(SubBinary::new(fresh, used, 0, true)))
    }
}

/// The size that a term asks a new writable binary to have: a small integer
/// that is not negative, else 1024.
pub open spec fn writable_size(size: Term) -> int {
    match size {
        Term::Int(i) => if i >= 0 {
            i as int
        } else {
            1024
        },
        _ => 1024,
    }
}

/// Extends a writable sub-binary by `build_size` bits in place, without the
/// checks of `append`: the term itself is made longer, its binary grows
/// where the room that is reserved does not suffice, and the builder of the
/// process is bound to where the new bits go.
pub fn private_append(process: &mut Process, binary: &mut Term, build_size: &Term, _unit: usize) -> (r:
    Option<Term>)
    requires
        *old(binary) is SubBinary,
        old(binary)->SubBinary_0.is_writable,
        old(binary)->SubBinary_0.wf(&old(process).context.binaries),
    ensures
        r is None <==> (build_size_of(*build_size) is None || old(binary)->SubBinary_0.first_bit()
            + old(binary)->SubBinary_0.bit_len() + build_size_of(*build_size)->0 + 7
            > usize::MAX),
        r is None ==> *final(binary) == *old(binary) && *final(process) == *old(process),
        r matches Some(t) ==> {
            let sb = old(binary)->SubBinary_0;
            let k = build_size_of(*build_size)->0;
            let t0 = &old(process).context.binaries;
            let t1 = &final(process).context.binaries;
            &&& *final(binary) == Term::SubBinary(
                SubBinary {
                    size: ((sb.bit_len() + k) / 8) as usize,
                    bitsize: ((sb.bit_len() + k) % 8) as usize,
                    ..sb
                },
            )
            &&& t == *final(binary)
            &&& t1.bins.len() == t0.bins.len()
            &&& forall|i: int|
                0 <= i < t0.bins.len() && i != sb.original.0 ==> #[trigger] t1.bins[i]
                    == t0.bins[i]
            &&& t0.bytes(sb.original).is_prefix_of(t1.bytes(sb.original))
            &&& t1.writable(sb.original) == t0.writable(sb.original)
            &&& sb.first_bit() + sb.bit_len() + k <= 8 * t1.bytes(sb.original).len()
            &&& final(process).context.bs == (Builder {
                binary: sb.original,
                offset: (sb.first_bit() + sb.bit_len()) as usize,
            })
            &&& final(process).pid == old(process).pid
        },
{
    // Check and untag the requested build size.
    let k: usize = match build_size {
        Term::Int(i) => {
            if *i >= 0 {
                *i as usize
            } else {
                return None;
            }
        },
        _ => {
            return None;
        },
    };
    let sb: SubBinary = match binary {
        Term::SubBinary(sb) => *sb,
        _ => {
            return None;
        },
    };
    let idx: usize = sb.original.0;
    let reserved: u128 = process.context.binaries.bins[idx].data.len() as u128;
    // Calculate size in bits.
    let start: u128 = 8 * (sb.offset as u128) + sb.bit_offset as u128 + 8 * (sb.size as u128)
        + sb.bitsize as u128;
    if start + k as u128 + 7 > usize::MAX as u128 {
        return None;
    }
    let start: usize = start as usize;
    let bin_size: usize = sb.size * 8 + sb.bitsize;
    let size_in_bits_after_build: usize = bin_size + k;
    let end: usize = start + k;
    let size: usize = nbytes(end);
    // Reserve extra capacity if needed.
    if process.context.binaries.bins[idx].data.len() < size {
        let room: usize = reserve(end);
        let ghost before = process.context.binaries.bins[idx as int].data@;
        process.context.binaries.bins[idx].data.resize(room, 0u8);
        assert(before =~= process.context.binaries.bins[idx as int].data@.subrange(
            0,
            before.len() as int,
        ));
    }
    process.context.bs = Builder { binary: sb.original, offset: start };
    let longer = SubBinary {
        size: size_in_bits_after_build / 8,
        offset: sb.offset,
        bitsize: size_in_bits_after_build % 8,
        bit_offset: sb.bit_offset,
        is_writable: sb.is_writable,
        original: sb.original,
    };
    *binary = Term::SubBinary(longer);
    Some(Term::SubBinary(longer))
}

/// A new writable binary of `size` zero bytes, and the empty writable
/// sub-binary at its start.
pub fn init_writable(process: &mut Process, size: &Term) -> (r: Term)
    ensures
        ({
            let t0 = &old(process).context.binaries;
            let t1 = &final(process).context.binaries;
            let fresh = RcBinary(t0.bins.len() as usize);
            &&& r == Term::SubBinary(SubBinary::view_of(fresh, 0, 0, true))
            &&& t1.bins.len() == t0.bins.len() + 1
            &&& forall|i: int| 0 <= i < t0.bins.len() ==> #[trigger] t1.bins[i] == t0.bins[i]
            &&& t1.writable(fresh)
            &&& t1.bytes(fresh) == Seq::new(writable_size(*size) as nat, |i: int| 0u8)
            &&& final(process).context.bs == old(process).context.bs
            &&& final(process).pid == old(process).pid
        }),
{
    let size: usize = match size {
        Term::Int(i) => {
            if *i >= 0 {
                *i as usize
            } else {
                1024
            }
        },
        _ => 1024,
    };
    let binary: RcBinary = process.context.binaries.add(Binary::with_size(size));
    Term::SubBinary(SubBinary::new(binary, 0, 0, true))
}

/// Writable-uniqueness: after an append that made room, the bitstring that
/// was passed has lost its right to write and the result has it. A further
/// append to the first extends nothing in place: the bitstring is copied to
/// a new binary, and the binary of the first result stays untouched.
pub proof fn lemma_writable_uniqueness(
    start: &Process,
    middle: &Process,
    end: &Process,
    given: Term,
    consumed: Term,
    result: Term,
    k: int,
    later: Term,
    copy: Term,
    more: int,
)
    requires
        is_bitstring(given, &start.context.binaries),
        k > 0,
        more > 0,
        made_room(start, middle, given, consumed, result, k),
        made_room(middle, end, consumed, later, copy, more),
    ensures
        consumed matches Term::SubBinary(sb) ==> !sb.is_writable,
        result matches Term::SubBinary(sb) && sb.is_writable,
        !extendable(consumed, &middle.context.binaries),
        copied_to_new(middle, end, consumed, later, copy, more),
        bitstring_origin(copy) != bitstring_origin(result),
        end.context.binaries.bins[bitstring_origin(result).0 as int]
            == middle.context.binaries.bins[bitstring_origin(result).0 as int],
{
    let table = &middle.context.binaries;
    let origin = bitstring_origin(result).0 as int;
    assert(0 <= origin < table.bins.len());
    assert(end.context.binaries.bins[origin] == table.bins[origin]);
}

/// The bits that a bitstring term views.
pub open spec fn term_bits(t: Term, table: &BinaryTable) -> Seq<u8> {
    super::bits::bits(
        table.bytes(bitstring_origin(t)),
        bitstring_start(t),
        bitstring_len(t, table),
    )
}

/// The bitstring and the number of bits for which `append` makes room: a
/// bitstring of the table, at least one bit, and lengths that the machine
/// can count.
pub open spec fn room_fits(t: Term, table: &BinaryTable, k: int) -> bool {
    &&& is_bitstring(t, table)
    &&& k > 0
    &&& bitstring_start(t) + bitstring_len(t, table) <= usize::MAX
    &&& bitstring_len(t, table) + k + 7 <= usize::MAX
}

/// The result of an append is a bitstring that is `k` bits longer than the
/// one that was passed, and it starts with the bits of that one.
pub proof fn lemma_room_keeps_bits(
    before: &Process,
    after: &Process,
    old_term: Term,
    new_term: Term,
    result: Term,
    k: int,
)
    requires
        room_fits(old_term, &before.context.binaries, k),
        made_room(before, after, old_term, new_term, result, k),
    ensures
        is_bitstring(result, &after.context.binaries),
        bitstring_len(result, &after.context.binaries) == bitstring_len(
            old_term,
            &before.context.binaries,
        ) + k,
        term_bits(result, &after.context.binaries).subrange(
            0,
            bitstring_len(old_term, &before.context.binaries),
        ) == term_bits(old_term, &before.context.binaries),
{
    let t0 = &before.context.binaries;
    let t1 = &after.context.binaries;
    let len = bitstring_len(old_term, t0);
    let origin = bitstring_origin(old_term);
    let start = bitstring_start(old_term);
    assert(spec_nbytes(len + k) <= reserve_size(len + k));
    assert(8 * spec_nbytes(len + k) >= len + k);
    let r = result->SubBinary_0;
    assert(r.bit_len() == len + k);
    assert(r.first_bit() == 0);
    let kept = term_bits(result, t1).subrange(0, len);
    let wanted = term_bits(old_term, t0);
    assert forall|j: int| 0 <= j < len implies kept[j] == wanted[j] by {
        if extendable(old_term, t0) {
            lemma_prefix_bits(t0.bytes(origin), t1.bytes(origin), j);
        } else {
            assert(same_bit(t1.bytes(r.original), 0, t0.bytes(origin), start, j));
        }
    }
    assert(kept =~= wanted);
}

/// The room that an append made is filled: the bits of the result from
/// bit `from` on are now those of `addition`, and the bits before them are
/// what they were.
pub open spec fn filled(
    result: Term,
    room: &BinaryTable,
    written: &BinaryTable,
    from: int,
    addition: Seq<u8>,
) -> bool {
    &&& is_bitstring(result, written)
    &&& bitstring_start(result) + bitstring_len(result, written) <= usize::MAX
    &&& bitstring_len(result, written) == from + addition.len()
    &&& bitstring_len(result, room) == from + addition.len()
    &&& term_bits(result, written) == term_bits(result, room).subrange(0, from) + addition
}

/// Append associativity, for `append` itself: making room for `x`, writing
/// it, making room for `y` and writing it gives the bits that making room
/// for both at once and writing `x` followed by `y` gives, the bits of
/// the bitstring followed by those of `x` and of `y`.
pub proof fn lemma_append_in_steps(
    b: Term,
    x: Seq<u8>,
    y: Seq<u8>,
    start: &Process,
    first_room: &Process,
    first_written: &Process,
    second_room: &Process,
    second_written: &Process,
    whole_room: &Process,
    whole_written: &Process,
    consumed: Term,
    first: Term,
    first_consumed: Term,
    second: Term,
    again: Term,
    at_once: Term,
)
    requires
        room_fits(b, &start.context.binaries, x.len() as int),
        room_fits(b, &start.context.binaries, (x.len() + y.len()) as int),
        y.len() > 0,
        made_room(start, first_room, b, consumed, first, x.len() as int),
        filled(
            first,
            &first_room.context.binaries,
            &first_written.context.binaries,
            bitstring_len(b, &start.context.binaries),
            x,
        ),
        made_room(first_written, second_room, first, first_consumed, second, y.len() as int),
        filled(
            second,
            &second_room.context.binaries,
            &second_written.context.binaries,
            bitstring_len(b, &start.context.binaries) + x.len(),
            y,
        ),
        made_room(start, whole_room, b, again, at_once, (x.len() + y.len()) as int),
        filled(
            at_once,
            &whole_room.context.binaries,
            &whole_written.context.binaries,
            bitstring_len(b, &start.context.binaries),
            x + y,
        ),
    ensures
        term_bits(second, &second_written.context.binaries) == term_bits(
            b,
            &start.context.binaries,
        ) + x + y,
        term_bits(second, &second_written.context.binaries) == term_bits(
            at_once,
            &whole_written.context.binaries,
        ),
{
    let len = bitstring_len(b, &start.context.binaries);
    let bits = term_bits(b, &start.context.binaries);
    lemma_room_keeps_bits(start, first_room, b, consumed, first, x.len() as int);
    let one = term_bits(first, &first_written.context.binaries);
    assert(one == bits + x);
    lemma_room_keeps_bits(
        first_written,
        second_room,
        first,
        first_consumed,
        second,
        y.len() as int,
    );
    let two = term_bits(second, &second_written.context.binaries);
    assert(two =~= bits + x + y);
    lemma_room_keeps_bits(start, whole_room, b, again, at_once, (x.len() + y.len()) as int);
    let whole = term_bits(at_once, &whole_written.context.binaries);
    assert(whole =~= bits + (x + y));
    assert(bits + (x + y) =~= bits + x + y);
}

/// What `append_binary` makes of a bitstring and an addition: a bitstring
/// that views the bits of the first followed by those of the second.
pub open spec fn appended(
    binary: Term,
    addition: Term,
    before: &BinaryTable,
    result: Term,
    after: &BinaryTable,
) -> bool {
    &&& is_bitstring(result, after)
    &&& term_bits(result, after) == term_bits(binary, before) + term_bits(addition, before)
}

/// Append associativity: appending `x` to `b` and then `y` to the result
/// gives the bits that appending to `b`, at once, a bitstring of the bits of
/// `x` followed by those of `y` gives.
pub proof fn lemma_append_associative(
    b: Term,
    x: Term,
    y: Term,
    both: Term,
    first: Term,
    second: Term,
    at_once: Term,
    t0: &BinaryTable,
    t1: &BinaryTable,
    t2: &BinaryTable,
    t3: &BinaryTable,
)
    requires
        appended(b, x, t0, first, t1),
        appended(first, y, t1, second, t2),
        term_bits(both, t0) == term_bits(x, t0) + term_bits(y, t1),
        appended(b, both, t0, at_once, t3),
    ensures
        term_bits(second, t2) == term_bits(at_once, t3),
{
    let (p, q, r) = (term_bits(b, t0), term_bits(x, t0), term_bits(y, t1));
    assert((p + q) + r =~= p + (q + r));
}

/// Bytes that start with other bytes have the bits of those.
proof fn lemma_prefix_bits(short: Seq<u8>, long: Seq<u8>, j: int)
    requires
        short.is_prefix_of(long),
        0 <= j < 8 * short.len(),
    ensures
        bit_at(long, j) == bit_at(short, j),
{
    assert(long[j / 8] == short[j / 8]);
}

/// When `append_binary` gives up: the arguments are no bitstrings, or the
/// result would be longer than the machine can address or a build size can
/// say.
pub open spec fn join_refused(binary: Term, addition: Term, table: &BinaryTable) -> bool {
    ||| !is_bitstring(addition, table)
    ||| bitstring_start(addition) + bitstring_len(addition, table) > usize::MAX
    ||| bitstring_len(addition, table) > 0x7fff_ffff
    ||| append_refused(binary, table, Term::Int(bitstring_len(addition, table) as i32), 1)
}

/// Appends the bits of one bitstring to another: makes room with `append`
/// and lets the builder of the process write the bits of `addition` there.
/// The result views the bits of `binary` followed by those of `addition`.
pub fn append_binary(process: &mut Process, binary: &mut Term, addition: &Term) -> (r: Option<Term>)
    ensures
        r is None <==> join_refused(*old(binary), *addition, &old(process).context.binaries),
        r is None ==> *final(binary) == *old(binary) && *final(process) == *old(process),
        r matches Some(t) ==> appended(
            *old(binary),
            *addition,
            &old(process).context.binaries,
            t,
            &final(process).context.binaries,
        ),
{
    let ghost t0 = process.context.binaries;
    let (origin, start, len): (RcBinary, usize, usize) = match addition {
        Term::Binary(rc) => match bit_length(addition, &process.context.binaries) {
            Some(len) => (*rc, 0, len),
            None => {
                return None;
            },
        },
        Term::SubBinary(sb) => match bit_length(addition, &process.context.binaries) {
            Some(len) => (sb.original, sb.offset * 8 + sb.bit_offset as usize, len),
            None => {
                return None;
            },
        },
        _ => {
            return None;
        },
    };
    if len > 0x7fff_ffff {
        return None;
    }
    let ghost old_term = *binary;
    let ghost old_bits = term_bits(old_term, &t0);
    let ghost added = term_bits(*addition, &t0);
    let size = Term::Int(len as i32);
    let t: Term = match append(process, binary, &size, 0, 1) {
        Some(t) => t,
        None => {
            return None;
        },
    };
    if len == 0 {
        proof {
            assert(t == old_term);
            assert(added =~= Seq::<u8>::empty());
            assert(old_bits + added =~= old_bits);
        }
        return Some(t);
    }
    let ghost t1 = process.context.binaries;
    let ghost base = bitstring_len(old_term, &t0);
    // The addition may be a view of the binary that has just grown: name
    // its bits by where they lie.
    let source = Term::SubBinary(SubBinary::new(origin, len, start, false));
    proof {
        assert(t0.bytes(origin).is_prefix_of(t1.bytes(origin)));
    }
    let mut bs = process.context.bs;
    bs.put_binary_all(&mut process.context.binaries, &source);
    process.context.bs = bs;
    proof {
        let t2 = process.context.binaries;
        let target = bitstring_origin(t);
        let data2 = t2.bytes(target);
        let data1 = t1.bytes(target);
        assert forall|j: int| 0 <= j < base + len implies #[trigger] bit_at(data2, j) == (old_bits
            + added)[j] by {
            if j < base {
                assert(bit_at(data2, j) == bit_at(data1, j));
                if extendable(old_term, &t0) {
                    lemma_prefix_bits(t0.bytes(target), data1, j);
                } else {
                    assert(same_bit(
                        data1,
                        0,
                        t0.bytes(bitstring_origin(old_term)),
                        bitstring_start(old_term),
                        j,
                    ));
                }
            } else {
                assert(same_bit(data2, base, t1.bytes(origin), start as int, j - base));
                lemma_prefix_bits(t0.bytes(origin), t1.bytes(origin), start + (j - base));
            }
        }
        assert(term_bits(t, &t2) =~= old_bits + added);
    }
    Some(t)
}

} // verus!
