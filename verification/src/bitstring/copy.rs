//! The basic bit copy operation.
use super::bits::{
    bit_at, bit_of, bits_value, lemma_bit_range, lemma_bits_or_and, lemma_bits_shl,
    lemma_bits_shr, lemma_bits_splice, lemma_value_same, make_mask, mask_bits, same_bit,
    same_bits, stream_bit, stream_index,
};
use vstd::prelude::*;

verus! {

/// `after` is `before` with the stream bits `doffs .. hi` replaced by the
/// bits of the source stream that start at `soffs`; every other bit is kept.
#[verifier::opaque]
pub open spec fn copied_upto(
    src: Seq<u8>,
    soffs: int,
    sdir: int,
    before: Seq<u8>,
    after: Seq<u8>,
    doffs: int,
    ddir: int,
    hi: int,
) -> bool {
    &&& after.len() == before.len()
    &&& forall|p: int|
        0 <= p < 8 * before.len() ==> #[trigger] stream_bit(after, ddir, p) == (if doffs <= p
            < hi {
            stream_bit(src, sdir, p - doffs + soffs)
        } else {
            stream_bit(before, ddir, p)
        })
}

/// `after` is `before` with `n` bits of the source stream copied to the
/// stream position `doffs`.
pub open spec fn copied(
    src: Seq<u8>,
    soffs: int,
    sdir: int,
    before: Seq<u8>,
    after: Seq<u8>,
    doffs: int,
    ddir: int,
    n: int,
) -> bool {
    copied_upto(src, soffs, sdir, before, after, doffs, ddir, doffs + n)
}

proof fn lemma_copy_step(
    src: Seq<u8>,
    soffs: int,
    sdir: int,
    before: Seq<u8>,
    cur: Seq<u8>,
    new: Seq<u8>,
    doffs: int,
    ddir: int,
    dk: int,
    a: int,
    b: int,
    nb: u8,
)
    requires
        copied_upto(src, soffs, sdir, before, cur, doffs, ddir, 8 * dk + a),
        0 <= a <= b <= 8,
        0 <= doffs <= 8 * dk + a,
        0 <= dk < cur.len(),
        new == cur.update(stream_index(cur.len() as int, ddir, dk), nb),
        forall|i: int|
            0 <= i < 8 ==> #[trigger] bit_of(nb, i) == (if a <= i < b {
                stream_bit(src, sdir, 8 * dk + i - doffs + soffs)
            } else {
                bit_of(cur[stream_index(cur.len() as int, ddir, dk)], i)
            }),
    ensures
        copied_upto(src, soffs, sdir, before, new, doffs, ddir, 8 * dk + b),
{
    reveal(copied_upto);
    let len = cur.len() as int;
    let di = stream_index(len, ddir, dk);
    assert forall|p: int| 0 <= p < 8 * before.len() implies #[trigger] stream_bit(new, ddir, p)
        == (if doffs <= p < 8 * dk + b {
        stream_bit(src, sdir, p - doffs + soffs)
    } else {
        stream_bit(before, ddir, p)
    }) by {
        let i = p % 8;
        let prev = stream_bit(cur, ddir, p);
        if p / 8 == dk {
            assert(p == 8 * dk + i);
            assert(stream_bit(new, ddir, p) == bit_of(nb, i));
        } else {
            assert(stream_index(len, ddir, p / 8) != di);
            assert(stream_bit(new, ddir, p) == prev);
        }
    }
}

/// Nothing has been copied yet.
proof fn lemma_copy_start(src: Seq<u8>, soffs: int, sdir: int, before: Seq<u8>, doffs: int, ddir: int)
    ensures
        copied_upto(src, soffs, sdir, before, before, doffs, ddir, doffs),
{
    reveal(copied_upto);
}

/// Bit `j` of the `m`-th byte of a stream is the stream's bit `8 * m + j`.
proof fn lemma_stream_bit(data: Seq<u8>, dir: int, m: int, j: int)
    requires
        0 <= j < 8,
    ensures
        stream_bit(data, dir, 8 * m + j) == bit_of(
            data[stream_index(data.len() as int, dir, m)],
            j,
        ),
{
    assert((8 * m + j) / 8 == m);
    assert((8 * m + j) % 8 == j);
}

/// The index of the `k`-th byte of a stream over `len` bytes.
fn stream_pos(len: usize, dir: isize, k: usize) -> (i: usize)
    requires
        k < len,
        dir == 1 || dir == -1,
    ensures
        i == stream_index(len as int, dir as int, k as int),
        i < len,
{
    if dir > 0 {
        k
    } else {
        len - 1 - k
    }
}

/// All the bits go to one byte of the destination.
#[verifier::rlimit(60)]
fn copy_within_byte(
    src: &[u8],
    soffs: usize,
    sdir: isize,
    dst: &mut Vec<u8>,
    doffs: usize,
    ddir: isize,
    n: usize,
)
    requires
        sdir == 1 || sdir == -1,
        ddir == 1 || ddir == -1,
        0 < n,
        soffs + n <= 8 * src.len(),
        doffs + n <= 8 * old(dst).len(),
        doffs % 8 + n < 8,
    ensures
        final(dst).len() == old(dst).len(),
        copied(
            src@,
            soffs as int,
            sdir as int,
            old(dst)@,
            final(dst)@,
            doffs as int,
            ddir as int,
            n as int,
        ),
{
    let ghost before = dst@;
    let sk: usize = soffs / 8;
    let dk: usize = doffs / 8;
    let so: usize = soffs % 8;
    let dof: usize = doffs % 8;
    let deoffs: usize = dof + n;
    let lmask: u8 = if dof > 0 {
        make_mask(8 - dof)
    } else {
        0
    };
    let low: u8 = make_mask(deoffs);
    let rmask: u8 = low << ((8 - deoffs) as u8);
    proof {
        lemma_bits_shl(low, (8 - deoffs) as u8);
        lemma_bits_or_and(lmask, rmask);
        lemma_bit_range(lmask);
        assert(bit_of(lmask & rmask, dof as int) == (if dof > 0 {
            1u8
        } else {
            0u8
        }));
        if dof == 0 {
            assert(lmask & rmask == 0u8) by (bit_vector)
                requires
                    lmask == 0u8,
            ;
        }
    }
    let mask: u8 = if (lmask & rmask) > 0 {
        lmask & rmask
    } else {
        lmask | rmask
    };
    assert forall|i: int| 0 <= i < 8 implies #[trigger] bit_of(mask, i) == (if dof <= i < dof + n {
        1u8
    } else {
        0u8
    }) by {}
    let di = stream_pos(dst.len(), ddir, dk);
    let si = stream_pos(src.len(), sdir, sk);
    let old_byte: u8 = dst[di];
    let new_byte: u8 = if so == dof {
        mask_bits(src[si], old_byte, mask)
    } else if so > dof {
        let l: u8 = (so - dof) as u8;
        let mut bits: u8 = src[si] << l;
        proof {
            lemma_bits_shl(src@[si as int], l);
        }
        if so + n > 8 {
            let si2 = stream_pos(src.len(), sdir, sk + 1);
            let ghost head = bits;
            bits = bits | (src[si2] >> ((8 - l) as u8));
            proof {
                lemma_bits_splice(src@[si as int], src@[si2 as int], l);
            }
        }
        mask_bits(bits, old_byte, mask)
    } else {
        let r: u8 = (dof - so) as u8;
        proof {
            lemma_bits_shr(src@[si as int], r);
        }
        mask_bits(src[si] >> r, old_byte, mask)
    };
    dst.set(di, new_byte);
    proof {
        lemma_copy_start(src@, soffs as int, sdir as int, before, doffs as int, ddir as int);
        assert forall|i: int| 0 <= i < 8 implies #[trigger] bit_of(new_byte, i) == (if dof <= i
            < dof + n {
            stream_bit(src@, sdir as int, 8 * dk + i - doffs + soffs)
        } else {
            bit_of(old_byte, i)
        }) by {
            if dof <= i < dof + n {
                let q = 8 * dk + i - doffs + soffs;
                assert(q == 8 * sk + so + (i - dof));
                if so + (i - dof) < 8 {
                    assert(q / 8 == sk as int && q % 8 == so + (i - dof));
                } else {
                    assert(q / 8 == sk + 1 && q % 8 == so + (i - dof) - 8);
                }
            }
        }
        lemma_copy_step(
            src@,
            soffs as int,
            sdir as int,
            before,
            before,
            dst@,
            doffs as int,
            ddir as int,
            dk as int,
            dof as int,
            dof + n,
            new_byte,
        );
    }
}

/// Writes the bits `a .. b` of `value` to the `dk`-th byte of the destination
/// stream and keeps that byte's other bits.
fn store_bits(
    Ghost(src): Ghost<Seq<u8>>,
    Ghost(soffs): Ghost<int>,
    Ghost(sdir): Ghost<int>,
    Ghost(before): Ghost<Seq<u8>>,
    dst: &mut Vec<u8>,
    Ghost(doffs): Ghost<int>,
    ddir: isize,
    dk: usize,
    Ghost(a): Ghost<int>,
    Ghost(b): Ghost<int>,
    value: u8,
    mask: u8,
)
    requires
        ddir == 1 || ddir == -1,
        copied_upto(src, soffs, sdir, before, old(dst)@, doffs, ddir as int, 8 * dk + a),
        0 <= a <= b <= 8,
        0 <= doffs <= 8 * dk + a,
        dk < old(dst).len(),
        forall|i: int|
            0 <= i < 8 ==> #[trigger] bit_of(mask, i) == (if a <= i < b {
                1u8
            } else {
                0u8
            }),
        forall|i: int|
            a <= i < b ==> #[trigger] bit_of(value, i) == stream_bit(
                src,
                sdir,
                8 * dk + i - doffs + soffs,
            ),
    ensures
        final(dst).len() == old(dst).len(),
        copied_upto(src, soffs, sdir, before, final(dst)@, doffs, ddir as int, 8 * dk + b),
{
    let di = stream_pos(dst.len(), ddir, dk);
    let old_byte: u8 = dst[di];
    let new_byte: u8 = mask_bits(value, old_byte, mask);
    let ghost cur = dst@;
    dst.set(di, new_byte);
    proof {
        lemma_copy_step(src, soffs, sdir, before, cur, dst@, doffs, ddir as int, dk as int, a, b, new_byte);
    }
}

/// The mask of the first `k` bits of a byte.
fn head_mask(k: usize) -> (r: u8)
    requires
        k <= 8,
    ensures
        forall|i: int|
            0 <= i < 8 ==> #[trigger] bit_of(r, i) == (if i < k {
                1u8
            } else {
                0u8
            }),
{
    if k == 0 {
        proof {
            lemma_bit_range(0u8);
        }
        0
    } else {
        let low: u8 = make_mask(k);
        proof {
            lemma_bits_shl(low, (8 - k) as u8);
        }
        low << ((8 - k) as u8)
    }
}

/// Source and destination have the same bit offset: whole bytes are copied,
/// but for the first and the last byte. The directions may differ.
fn copy_aligned(
    src: &[u8],
    soffs: usize,
    sdir: isize,
    dst: &mut Vec<u8>,
    doffs: usize,
    ddir: isize,
    n: usize,
)
    requires
        sdir == 1 || sdir == -1,
        ddir == 1 || ddir == -1,
        soffs + n <= 8 * src.len(),
        doffs + n <= 8 * old(dst).len(),
        doffs % 8 + n >= 8,
        soffs % 8 == doffs % 8,
    ensures
        final(dst).len() == old(dst).len(),
        copied(
            src@,
            soffs as int,
            sdir as int,
            old(dst)@,
            final(dst)@,
            doffs as int,
            ddir as int,
            n as int,
        ),
{
    let ghost before = dst@;
    let slen = src.len();
    let dlen = dst.len();
    let sb0: usize = soffs / 8;
    let db0: usize = doffs / 8;
    let mut sk: usize = sb0;
    let mut dk: usize = db0;
    let dof: usize = doffs % 8;
    let deoffs: usize = (dof + n % 8) % 8;
    let mut count: usize = (if dof > 0 {
        n - (8 - dof)
    } else {
        n
    }) / 8;
    proof {
        lemma_copy_start(src@, soffs as int, sdir as int, before, doffs as int, ddir as int);
    }
    if dof > 0 {
        let lmask = make_mask(8 - dof);
        let si = stream_pos(slen, sdir, sk);
        let value: u8 = src[si];
        proof {
            assert forall|i: int| dof <= i < 8 implies #[trigger] bit_of(value, i) == stream_bit(
                src@,
                sdir as int,
                8 * dk + i - doffs + soffs,
            ) by {
                lemma_stream_bit(src@, sdir as int, sk as int, i);
                assert(8 * dk + i - doffs + soffs == 8 * sk + i);
            }
        }
        store_bits(
            Ghost(src@),
            Ghost(soffs as int),
            Ghost(sdir as int),
            Ghost(before),
            dst,
            Ghost(doffs as int),
            ddir,
            dk,
            Ghost(dof as int),
            Ghost(8),
            value,
            lmask,
        );
        dk = dk + 1;
        sk = sk + 1;
    }
    while count > 0
        invariant
            sdir == 1 || sdir == -1,
            ddir == 1 || ddir == -1,
            slen == src.len(),
            dlen == dst.len(),
            dlen == before.len(),
            soffs + n <= 8 * slen,
            doffs + n <= 8 * dlen,
            soffs == 8 * sb0 + dof,
            doffs == 8 * db0 + dof,
            deoffs < 8,
            doffs <= 8 * dk,
            8 * dk + 8 * count + deoffs == doffs + n,
            sk - sb0 == dk - db0,
            copied_upto(
                src@,
                soffs as int,
                sdir as int,
                before,
                dst@,
                doffs as int,
                ddir as int,
                8 * dk,
            ),
        decreases count,
    {
        count = count - 1;
        let si = stream_pos(slen, sdir, sk);
        let value: u8 = src[si];
        proof {
            lemma_bit_range(0u8);
            assert forall|i: int| 0 <= i < 8 implies #[trigger] bit_of(value, i) == stream_bit(
                src@,
                sdir as int,
                8 * dk + i - doffs + soffs,
            ) by {
                lemma_stream_bit(src@, sdir as int, sk as int, i);
                assert(8 * dk + i - doffs + soffs == 8 * sk + i);
            }
        }
        store_bits(
            Ghost(src@),
            Ghost(soffs as int),
            Ghost(sdir as int),
            Ghost(before),
            dst,
            Ghost(doffs as int),
            ddir,
            dk,
            Ghost(0),
            Ghost(8),
            value,
            0xff,
        );
        dk = dk + 1;
        sk = sk + 1;
    }
    if deoffs > 0 {
        let rmask: u8 = head_mask(deoffs);
        let si = stream_pos(slen, sdir, sk);
        let value: u8 = src[si];
        proof {
            assert forall|i: int| 0 <= i < deoffs implies #[trigger] bit_of(value, i)
                == stream_bit(src@, sdir as int, 8 * dk + i - doffs + soffs) by {
                lemma_stream_bit(src@, sdir as int, sk as int, i);
                assert(8 * dk + i - doffs + soffs == 8 * sk + i);
            }
        }
        store_bits(
            Ghost(src@),
            Ghost(soffs as int),
            Ghost(sdir as int),
            Ghost(before),
            dst,
            Ghost(doffs as int),
            ddir,
            dk,
            Ghost(0),
            Ghost(deoffs as int),
            value,
            rmask,
        );
    }
}

/// The bits of the byte spliced from two neighbouring source bytes are the
/// source stream's bits for the `dk`-th destination byte.
proof fn lemma_spliced_source(
    src: Seq<u8>,
    sdir: int,
    prev: u8,
    next: u8,
    value: u8,
    l: u8,
    sk: int,
    base: int,
    a: int,
    b: int,
)
    requires
        0 < l < 8,
        0 <= a <= b <= 8,
        base == 8 * (sk - 1) + l,
        forall|i: int|
            a <= i < b ==> #[trigger] bit_of(value, i) == (if i + l < 8 {
                bit_of(prev, i + l)
            } else {
                bit_of(next, i + l - 8)
            }),
        a + l < 8 ==> prev == src[stream_index(src.len() as int, sdir, sk - 1)],
        b + l > 8 ==> next == src[stream_index(src.len() as int, sdir, sk)],
    ensures
        forall|i: int| a <= i < b ==> #[trigger] bit_of(value, i) == stream_bit(src, sdir, base + i),
{
    assert forall|i: int| a <= i < b implies #[trigger] bit_of(value, i) == stream_bit(
        src,
        sdir,
        base + i,
    ) by {
        if i + l < 8 {
            lemma_stream_bit(src, sdir, sk - 1, i + l);
            assert(base + i == 8 * (sk - 1) + (i + l));
        } else {
            lemma_stream_bit(src, sdir, sk, i + l - 8);
            assert(base + i == 8 * sk + (i + l - 8));
        }
    }
}

/// The byte that starts with the last `8 - l` bits of `prev` and ends with
/// the first `l` bits of `next`.
fn splice(prev: u8, next: u8, l: u8) -> (value: u8)
    requires
        0 < l < 8,
    ensures
        forall|i: int|
            0 <= i < 8 ==> #[trigger] bit_of(value, i) == (if i + l < 8 {
                bit_of(prev, i + l)
            } else {
                bit_of(next, i + l - 8)
            }),
{
    proof {
        lemma_bits_splice(prev, next, l);
    }
    (prev << l) | (next >> (8 - l))
}

/// How many whole bytes of the destination follow its first, partly
/// written byte, and how many bits go to the byte after them.
fn whole_bytes(dof: usize, n: usize) -> (r: (usize, usize))
    requires
        dof < 8,
        dof + n >= 8,
    ensures
        r.1 < 8,
        dof > 0 ==> 8 * r.0 + r.1 + (8 - dof) == n,
        dof == 0 ==> 8 * r.0 + r.1 == n,
{
    let rest: usize = if dof > 0 {
        n - (8 - dof)
    } else {
        n
    };
    (rest / 8, rest % 8)
}

/// The tricky case: the bits must be shifted into position.
#[verifier::rlimit(60)]
fn copy_shifted(
    src: &[u8],
    sb0: usize,
    so: usize,
    sdir: isize,
    dst: &mut Vec<u8>,
    db0: usize,
    dof: usize,
    ddir: isize,
    n: usize,
)
    requires
        sdir == 1 || sdir == -1,
        ddir == 1 || ddir == -1,
        so < 8,
        dof < 8,
        8 * sb0 + so + n <= 8 * src.len(),
        8 * db0 + dof + n <= 8 * old(dst).len(),
        dof + n >= 8,
        so != dof,
    ensures
        final(dst).len() == old(dst).len(),
        copied(
            src@,
            8 * sb0 + so,
            sdir as int,
            old(dst)@,
            final(dst)@,
            8 * db0 + dof,
            ddir as int,
            n as int,
        ),
{
    let ghost before = dst@;
    let ghost soffs: int = 8 * sb0 + so;
    let ghost doffs: int = 8 * db0 + dof;
    let slen = src.len();
    let dlen = dst.len();
    let (whole, deoffs) = whole_bytes(dof, n);
    let mut count: usize = whole;
    let mut sk: usize = sb0;
    let mut dk: usize = db0;
    let mut bits: u8 = 0;
    let lshift: u8;
    if so > dof {
        lshift = (so - dof) as u8;
        bits = src[stream_pos(slen, sdir, sk)];
        sk = sk + 1;
    } else {
        lshift = (8 - (dof - so)) as u8;
    }
    let ghost base: int = soffs - doffs;
    proof {
        lemma_copy_start(src@, soffs, sdir as int, before, doffs, ddir as int);
    }
    if dof > 0 {
        let lmask = make_mask(8 - dof);
        let next: u8 = src[stream_pos(slen, sdir, sk)];
        let value: u8 = splice(bits, next, lshift);
        proof {
            lemma_spliced_source(
                src@,
                sdir as int,
                bits,
                next,
                value,
                lshift,
                sk as int,
                8 * dk + base,
                dof as int,
                8,
            );
        }
        store_bits(
            Ghost(src@),
            Ghost(soffs),
            Ghost(sdir as int),
            Ghost(before),
            dst,
            Ghost(doffs),
            ddir,
            dk,
            Ghost(dof as int),
            Ghost(8),
            value,
            lmask,
        );
        bits = next;
        sk = sk + 1;
        dk = dk + 1;
    }
    while count > 0
        invariant
            sdir == 1 || sdir == -1,
            ddir == 1 || ddir == -1,
            slen == src.len(),
            dlen == dst.len(),
            dlen == before.len(),
            soffs + n <= 8 * slen,
            doffs + n <= 8 * dlen,
            0 < lshift < 8,
            base == soffs - doffs,
            8 * dk + base == 8 * (sk - 1) + lshift,
            deoffs < 8,
            0 <= doffs <= 8 * dk,
            8 * dk + 8 * count + deoffs == doffs + n,
            1 <= sk <= slen,
            bits == src@[stream_index(slen as int, sdir as int, sk - 1)],
            copied_upto(src@, soffs, sdir as int, before, dst@, doffs, ddir as int, 8 * dk),
        decreases count,
    {
        count = count - 1;
        let next: u8 = src[stream_pos(slen, sdir, sk)];
        let value: u8 = splice(bits, next, lshift);
        proof {
            lemma_bit_range(0u8);
            lemma_spliced_source(
                src@,
                sdir as int,
                bits,
                next,
                value,
                lshift,
                sk as int,
                8 * dk + base,
                0,
                8,
            );
        }
        store_bits(
            Ghost(src@),
            Ghost(soffs),
            Ghost(sdir as int),
            Ghost(before),
            dst,
            Ghost(doffs),
            ddir,
            dk,
            Ghost(0),
            Ghost(8),
            value,
            0xff,
        );
        bits = next;
        sk = sk + 1;
        dk = dk + 1;
    }
    if deoffs > 0 {
        let rmask: u8 = head_mask(deoffs);
        let mut next: u8 = 0;
        // The next source byte is read only where the last bits come from it.
        if deoffs + lshift as usize > 8 {
            next = src[stream_pos(slen, sdir, sk)];
        }
        let value: u8 = splice(bits, next, lshift);
        proof {
            lemma_spliced_source(
                src@,
                sdir as int,
                bits,
                next,
                value,
                lshift,
                sk as int,
                8 * dk + base,
                0,
                deoffs as int,
            );
        }
        store_bits(
            Ghost(src@),
            Ghost(soffs),
            Ghost(sdir as int),
            Ghost(before),
            dst,
            Ghost(doffs),
            ddir,
            dk,
            Ghost(0),
            Ghost(deoffs as int),
            value,
            rmask,
        );
    }
}

/// The basic bit copy operation. Copies `n` bits from the source stream to
/// the destination stream. A stream runs over its buffer forward from the
/// first byte (direction 1) or backward from the last byte (direction -1);
/// inside a byte the most significant bit always comes first, so copying
/// between streams of different directions reverses the byte order.
pub fn copy_bits(
    src: &[u8],
    soffs: usize,
    sdir: isize,
    dst: &mut Vec<u8>,
    doffs: usize,
    ddir: isize,
    n: usize,
)
    requires
        sdir == 1 || sdir == -1,
        ddir == 1 || ddir == -1,
        n > 0 ==> soffs + n <= 8 * src.len(),
        n > 0 ==> doffs + n <= 8 * old(dst).len(),
    ensures
        final(dst).len() == old(dst).len(),
        copied(
            src@,
            soffs as int,
            sdir as int,
            old(dst)@,
            final(dst)@,
            doffs as int,
            ddir as int,
            n as int,
        ),
{
    if n == 0 {
        proof {
            lemma_copy_start(src@, soffs as int, sdir as int, dst@, doffs as int, ddir as int);
        }
        return ;
    }
    // Take care of the case that all bits are in the same byte.
    if n < 8 && doffs % 8 + n < 8 {
        copy_within_byte(src, soffs, sdir, dst, doffs, ddir, n);
    } else if soffs % 8 == doffs % 8 {
        copy_aligned(src, soffs, sdir, dst, doffs, ddir, n);
    } else {
        copy_shifted(src, soffs / 8, soffs % 8, sdir, dst, doffs / 8, doffs % 8, ddir, n);
    }
}

/// What a copy between two forward streams means bit for bit: the copied
/// bits are those of the source, and every other bit of the destination is
/// as it was.
pub proof fn lemma_copied_forward(
    src: Seq<u8>,
    soffs: int,
    before: Seq<u8>,
    after: Seq<u8>,
    doffs: int,
    n: int,
)
    requires
        copied(src, soffs, 1, before, after, doffs, 1, n),
        0 <= doffs,
        0 <= n,
        doffs + n <= 8 * before.len(),
    ensures
        after.len() == before.len(),
        same_bits(after, doffs, src, soffs, n),
        forall|p: int|
            0 <= p < 8 * before.len() && !(doffs <= p < doffs + n) ==> #[trigger] bit_at(
                after,
                p,
            ) == bit_at(before, p),
{
    reveal(copied_upto);
    assert forall|j: int| 0 <= j < n implies #[trigger] same_bit(after, doffs, src, soffs, j) by {
        let p = doffs + j;
        assert(stream_bit(after, 1, p) == stream_bit(src, 1, p - doffs + soffs));
    }
    assert forall|p: int|
        0 <= p < 8 * before.len() && !(doffs <= p < doffs + n) implies #[trigger] bit_at(
        after,
        p,
    ) == bit_at(before, p) by {
        assert(stream_bit(after, 1, p) == stream_bit(before, 1, p));
    }
}

/// A part of the copied bits spells the same number in the destination as
/// in the source.
pub proof fn lemma_copied_value(
    src: Seq<u8>,
    soffs: int,
    after: Seq<u8>,
    doffs: int,
    n: int,
    a: int,
    m: int,
)
    requires
        same_bits(after, doffs, src, soffs, n),
        0 <= a,
        0 <= m,
        a + m <= n,
    ensures
        bits_value(after, doffs + a, m) == bits_value(src, soffs + a, m),
{
    assert forall|j: int| 0 <= j < m implies #[trigger] same_bit(
        after,
        doffs + a,
        src,
        soffs + a,
        j,
    ) by {
        assert(same_bit(after, doffs, src, soffs, a + j));
    }
    lemma_value_same(after, doffs + a, src, soffs + a, m);
}

} // verus!
