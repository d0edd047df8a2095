use enigma::bitstring::append::{append, append_binary, init_writable, private_append};
use enigma::bitstring::builder::{fmt_big, fmt_int, Builder};
use enigma::bitstring::matching::{bytes_to_list, start_match_3};
use enigma::bitstring::{
    host_is_little_endian, Binary, BinaryTable, Flag, MatchBuffer, RcBinary, SubBinary,
    BSF_LITTLE, BSF_NATIVE, BSF_NONE, BSF_SIGNED,
};
use enigma::bif::binary::to_bytes;
use enigma::process::Process;
use enigma::value::integer::{integer_term, resized, Bignum};
use enigma::value::{MatchState, Term};

fn payload(process: &Process, term: &Term) -> Vec<u8> {
    match term {
        Term::SubBinary(sb) => {
            let data = &process.context.binaries.get(sb.original).data;
            data[sb.offset..sb.offset + sb.size + if sb.bitsize > 0 { 1 } else { 0 }].to_vec()
        }
        other => panic!("{:?}", other),
    }
}

#[test]
fn bit_append_scenario() {
    let mut process = Process::new(0);
    let mut bin = init_writable(&mut process, &Term::small(8));
    assert_eq!(process.context.binaries.bins[0].data.len(), 8);

    let mut next = append(&mut process, &mut bin, &Term::small(16), 0, 8).unwrap();
    let mut bs = process.context.bs;
    bs.put_integer(
        &mut process.context.binaries,
        16,
        Flag::new(BSF_LITTLE),
        &Term::small(0x1234),
    );
    process.context.bs = bs;

    let last = append(&mut process, &mut next, &Term::small(8), 0, 8).unwrap();
    let mut bs = process.context.bs;
    bs.put_integer(&mut process.context.binaries, 8, Flag::new(BSF_NONE), &Term::small(0xFF));
    process.context.bs = bs;

    assert_eq!(payload(&process, &last), vec![0x34, 0x12, 0xFF]);
    assert_eq!(to_bytes(&last, &process.context.binaries), Some(vec![0x34, 0x12, 0xFF]));
    // all of it in the one binary
    assert_eq!(process.context.binaries.bins.len(), 1);
}

#[test]
fn append_hands_the_right_to_write_on() {
    let mut process = Process::new(0);
    let mut first = init_writable(&mut process, &Term::small(4));
    let mut second = append(&mut process, &mut first, &Term::small(8), 0, 1).unwrap();
    match (&first, &second) {
        (Term::SubBinary(old), Term::SubBinary(new)) => {
            assert!(!old.is_writable);
            assert!(new.is_writable);
            assert_eq!(old.original, new.original);
            assert_eq!((new.size, new.bitsize, new.offset), (1, 0, 0));
        }
        other => panic!("{:?}", other),
    }
    let mut bs = process.context.bs;
    bs.put_integer(&mut process.context.binaries, 8, Flag::new(BSF_NONE), &Term::small(0xAB));
    process.context.bs = bs;
    let before = process.context.binaries.bins[0].data.clone();

    // a further append to the first is copied to a new binary
    let third = append(&mut process, &mut first, &Term::small(8), 0, 1).unwrap();
    match &third {
        Term::SubBinary(sb) => {
            assert_eq!(sb.original, RcBinary(1));
            assert!(sb.is_writable);
            assert_eq!(sb.size, 1);
        }
        other => panic!("{:?}", other),
    }
    assert_eq!(process.context.binaries.bins[0].data, before);
    assert_eq!(process.context.binaries.bins[1].data.len(), 256);
    assert_eq!(process.context.bs, Builder { binary: RcBinary(1), offset: 0 });

    // the second still extends in place, and grows its binary
    let fourth = append(&mut process, &mut second, &Term::small(8 * 7), 0, 8).unwrap();
    match &fourth {
        Term::SubBinary(sb) => {
            assert_eq!(sb.original, RcBinary(0));
            assert_eq!(sb.size, 8);
        }
        other => panic!("{:?}", other),
    }
    assert_eq!(process.context.binaries.bins[0].data.len(), 256);
    assert_eq!(process.context.binaries.bins[0].data[0], 0xAB);
    assert_eq!(process.context.bs, Builder { binary: RcBinary(0), offset: 8 });
}

#[test]
fn append_checks_its_arguments() {
    let mut process = Process::new(0);
    let rc = process.context.binaries.add(Binary::from(vec![1, 2, 3]));
    let mut plain = Term::Binary(rc);
    assert_eq!(append(&mut process, &mut plain, &Term::small(-1), 0, 1), None);
    assert_eq!(append(&mut process, &mut plain, &Term::atom(1), 0, 1), None);
    assert_eq!(append(&mut process, &mut Term::small(1), &Term::small(8), 0, 1), None);
    assert_eq!(append(&mut process, &mut Term::Binary(RcBinary(9)), &Term::small(8), 0, 1), None);
    // the length must be a multiple of the unit
    assert_eq!(append(&mut process, &mut plain, &Term::small(8), 0, 16), None);
    let mut bits = Term::SubBinary(SubBinary::new(rc, 12, 0, false));
    assert_eq!(append(&mut process, &mut bits, &Term::small(8), 0, 8), None);
    assert_eq!(process.context.binaries.bins.len(), 1);
    // nothing to build: the bitstring as it is
    assert_eq!(append(&mut process, &mut plain, &Term::small(0), 0, 8), Some(Term::Binary(rc)));
    assert_eq!(process.context.binaries.bins.len(), 1);
    // a copy keeps the bits, also those of a view that is not byte aligned
    let mut view = Term::SubBinary(SubBinary::new(rc, 12, 4, false));
    let copy = append(&mut process, &mut view, &Term::small(4), 0, 4).unwrap();
    match copy {
        Term::SubBinary(sb) => {
            assert_eq!((sb.size, sb.bitsize, sb.original), (2, 0, RcBinary(1)));
            assert_eq!(process.context.binaries.bins[1].data[0..2], [0x10, 0x20]);
            assert_eq!(process.context.bs.offset, 12);
        }
        other => panic!("{:?}", other),
    }
}

#[test]
fn append_binary_joins_bits() {
    let mut process = Process::new(0);
    let a = process.context.binaries.add(Binary::from(vec![0xAB, 0xC0]));
    let b = process.context.binaries.add(Binary::from(vec![0x0D, 0xEF]));
    let mut left = Term::SubBinary(SubBinary::new(a, 12, 0, false));
    let right = Term::SubBinary(SubBinary::new(b, 12, 4, false));
    let mut joined = append_binary(&mut process, &mut left, &right).unwrap();
    assert_eq!(to_bytes(&joined, &process.context.binaries), Some(vec![0xAB, 0xCD, 0xEF]));

    // associativity: (b ++ x) ++ y and b ++ (x ++ y) view the same bits
    let x = Term::Binary(process.context.binaries.add(Binary::from(vec![1, 2])));
    let y = Term::Binary(process.context.binaries.add(Binary::from(vec![3])));
    let mut bx = append_binary(&mut process, &mut joined, &x).unwrap();
    let bxy = append_binary(&mut process, &mut bx, &y).unwrap();
    let mut x_copy = x.clone();
    let xy = append_binary(&mut process, &mut x_copy, &y).unwrap();
    let mut start = Term::SubBinary(SubBinary::new(a, 12, 0, false));
    let mut b2 = append_binary(&mut process, &mut start, &right).unwrap();
    let b_xy = append_binary(&mut process, &mut b2, &xy).unwrap();
    assert_eq!(
        to_bytes(&bxy, &process.context.binaries),
        to_bytes(&b_xy, &process.context.binaries)
    );
    assert_eq!(
        to_bytes(&bxy, &process.context.binaries),
        Some(vec![0xAB, 0xCD, 0xEF, 1, 2, 3])
    );
    // appending a bitstring to itself, in place
    let mut own = init_writable(&mut process, &Term::small(1));
    let mut own = append_binary(&mut process, &mut own, &y).unwrap();
    let same = own.clone();
    let doubled = append_binary(&mut process, &mut own, &same).unwrap();
    assert_eq!(to_bytes(&doubled, &process.context.binaries), Some(vec![3, 3]));
    assert_eq!(append_binary(&mut process, &mut own, &Term::small(1)), None);
}

#[test]
fn private_append_extends_the_term() {
    let mut process = Process::new(0);
    let mut bin = init_writable(&mut process, &Term::atom(0));
    assert_eq!(process.context.binaries.bins[0].data.len(), 1024);
    let got = private_append(&mut process, &mut bin, &Term::small(12), 1).unwrap();
    assert_eq!(got, bin);
    match &bin {
        Term::SubBinary(sb) => {
            assert_eq!((sb.size, sb.bitsize), (1, 4));
            assert!(sb.is_writable);
        }
        other => panic!("{:?}", other),
    }
    assert_eq!(process.context.bs, Builder { binary: RcBinary(0), offset: 0 });
    let got = private_append(&mut process, &mut bin, &Term::small(8 * 2000), 1).unwrap();
    match got {
        Term::SubBinary(sb) => assert_eq!((sb.size, sb.bitsize), (2001, 4)),
        other => panic!("{:?}", other),
    }
    assert!(process.context.binaries.bins[0].data.len() >= 2002);
    assert_eq!(process.context.bs.offset, 12);
    assert_eq!(private_append(&mut process, &mut bin, &Term::small(-1), 1), None);
    assert_eq!(private_append(&mut process, &mut bin, &Term::nil(), 1), None);
}

#[test]
fn put_integer_writes_fields() {
    let mut buf = vec![0xFFu8; 4];
    fmt_int(&mut buf, 4, 0x123, 12, Flag::new(BSF_NONE));
    assert_eq!(buf, vec![0xF1, 0x23, 0xFF, 0xFF]);
    let mut buf = vec![0u8; 4];
    fmt_int(&mut buf, 4, 0x123, 12, Flag::new(BSF_LITTLE));
    assert_eq!(buf, vec![0x02, 0x31, 0, 0]);
    let mut buf = vec![0u8; 3];
    fmt_int(&mut buf, 3, -1, 5, Flag::new(BSF_NONE));
    assert_eq!(buf, vec![0x1F, 0, 0]);
    let mut buf = vec![0u8; 3];
    fmt_int(&mut buf, 6, 0b101, 3, Flag::new(BSF_NONE));
    assert_eq!(buf, vec![0b0000_0010, 0b1000_0000, 0]);
    let mut buf = vec![0u8; 9];
    fmt_int(&mut buf, 0, -2, 72, Flag::new(BSF_NONE));
    assert_eq!(buf, vec![0xFF, 0xFF, 0xFF, 0xFF, 0xFF, 0xFF, 0xFF, 0xFF, 0xFE]);
    let mut buf = vec![0u8; 9];
    fmt_int(&mut buf, 0, -2, 72, Flag::new(BSF_LITTLE));
    assert_eq!(buf, vec![0xFE, 0xFF, 0xFF, 0xFF, 0xFF, 0xFF, 0xFF, 0xFF, 0xFF]);
    let mut buf = vec![0u8; 2];
    fmt_int(&mut buf, 0, 0x12345, 16, Flag::new(BSF_NONE));
    assert_eq!(buf, vec![0x23, 0x45]);

    // what was put is what is got
    let mut table = BinaryTable::new();
    let rc = table.add(Binary::with_size(8));
    for (value, bits, flags) in [
        (0x1234, 16, BSF_LITTLE),
        (-5, 7, BSF_SIGNED),
        (-70000, 19, BSF_SIGNED | BSF_LITTLE),
        (i32::MIN, 32, BSF_SIGNED),
        (i32::MAX, 33, BSF_LITTLE),
        (-1, 40, BSF_SIGNED),
        (77, 60, BSF_NONE),
    ] {
        let mut builder = Builder::new(rc);
        builder.offset = 3;
        builder.put_integer(&mut table, bits, Flag::new(flags), &Term::small(value));
        assert_eq!(builder.offset, 3 + bits);
        let mut mb = MatchBuffer::from_binary(&table, rc).unwrap();
        mb.offset = 3;
        assert_eq!(mb.get_integer(&table, bits, Flag::new(flags)), Some(Term::small(value)));
    }
    let mut builder = Builder::new(rc);
    builder.put_integer(&mut table, 0, Flag::new(BSF_NONE), &Term::small(1));
    assert_eq!(builder.offset, 0);
    // native is the order of the host
    let mut builder = Builder::new(rc);
    builder.put_integer(&mut table, 16, Flag::new(BSF_NATIVE), &Term::small(0x0102));
    let want = if host_is_little_endian() { [2, 1] } else { [1, 2] };
    assert_eq!(builder.data(&table)[0..2], want);
    assert_eq!(Flag::new(BSF_NATIVE | BSF_SIGNED).resolve_native().contains(BSF_NATIVE), false);
    assert_eq!(Flag::new(BSF_NATIVE | BSF_SIGNED).resolve_native().contains(BSF_SIGNED), true);
    assert_eq!(Flag::new(BSF_LITTLE).resolve_native(), Flag::new(BSF_LITTLE));
}

#[test]
fn put_bytes_binary_and_float() {
    let mut table = BinaryTable::new();
    let rc = table.add(Binary::with_size(6));
    let mut builder = Builder::new(rc);
    builder.offset = 8;
    builder.put_bytes(&mut table, &[7, 8, 9]);
    assert_eq!(builder.offset, 32);
    assert_eq!(builder.data(&table).as_slice(), &[0, 7, 8, 9, 0, 0]);

    let src = table.add(Binary::from(vec![0xAB, 0xCD, 0xEF]));
    let mut builder = Builder::new(rc);
    builder.offset = 4;
    builder.put_binary_all(&mut table, &Term::SubBinary(SubBinary::new(src, 12, 8, false)));
    assert_eq!(builder.offset, 16);
    assert_eq!(builder.data(&table).as_slice(), &[0x0C, 0xDE, 8, 9, 0, 0]);
    let mut builder = Builder::new(rc);
    builder.offset = 24;
    builder.put_binary_all(&mut table, &Term::Binary(src));
    assert_eq!(builder.data(&table).as_slice(), &[0x0C, 0xDE, 8, 0xAB, 0xCD, 0xEF]);
    // from the binary into itself
    let mut builder = Builder::new(rc);
    builder.put_binary_all(&mut table, &Term::SubBinary(SubBinary::new(rc, 16, 24, false)));
    assert_eq!(builder.data(&table).as_slice(), &[0xAB, 0xCD, 8, 0xAB, 0xCD, 0xEF]);

    let wide = table.add(Binary::with_size(9));
    let mut builder = Builder::new(wide);
    builder.offset = 8;
    builder.put_float(&mut table, 2.5f64.to_bits());
    assert_eq!(builder.offset, 72);
    assert_eq!(builder.data(&table)[1..9], 2.5f64.to_ne_bytes());
}

#[test]
fn start_match_and_bytes_to_list() {
    let mut table = BinaryTable::new();
    let rc = table.add(Binary::from(vec![1, 2, 3]));
    let state = start_match_3(&table, &Term::Binary(rc)).unwrap();
    assert_eq!(
        state,
        Term::MatchState(MatchState {
            mb: MatchBuffer { original: rc, offset: 0, size: 24 },
            saved_offsets: vec![]
        })
    );
    let sub = SubBinary::new(rc, 10, 5, false);
    match start_match_3(&table, &Term::SubBinary(sub)).unwrap() {
        Term::MatchState(ms) => {
            assert_eq!(ms.mb, MatchBuffer { original: rc, offset: 5, size: 15 });
            assert_eq!(ms.mb.remaining(), 10);
        }
        other => panic!("{:?}", other),
    }

    let list = bytes_to_list(Term::nil(), &[1, 2, 3], 3, 0);
    let want = Term::cons(
        Term::small(1),
        Term::cons(Term::small(2), Term::cons(Term::small(3), Term::nil())),
    );
    assert_eq!(list, want);
    let list = bytes_to_list(Term::atom(4), &[0x12, 0x34, 0x56], 2, 4);
    let want = Term::cons(Term::small(0x23), Term::cons(Term::small(0x45), Term::atom(4)));
    assert_eq!(list, want);
    assert_eq!(bytes_to_list(Term::small(1), &[], 0, 0), Term::small(1));
}

#[test]
fn put_integer_writes_bignums() {
    let big = Bignum { digits: vec![5, 4, 3, 2, 1] };
    let mut buf = vec![0u8; 5];
    fmt_big(&mut buf, 0, &big, 40, Flag::new(BSF_NONE));
    assert_eq!(buf, vec![1, 2, 3, 4, 5]);
    let mut buf = vec![0u8; 5];
    fmt_big(&mut buf, 0, &big, 40, Flag::new(BSF_LITTLE));
    assert_eq!(buf, vec![5, 4, 3, 2, 1]);
    // fewer bits than the number has: the low ones
    let mut buf = vec![0xFFu8; 3];
    fmt_big(&mut buf, 4, &big, 12, Flag::new(BSF_NONE));
    assert_eq!(buf, vec![0xF4, 0x05, 0xFF]);
    // more bits than the number has: the sign is carried on
    let mut buf = vec![0u8; 8];
    fmt_big(&mut buf, 0, &big, 64, Flag::new(BSF_NONE));
    assert_eq!(buf, vec![0, 0, 0, 1, 2, 3, 4, 5]);
    let negative = Bignum { digits: vec![0, 0, 0, 0, 0xFF] };
    let mut buf = vec![0u8; 8];
    fmt_big(&mut buf, 0, &negative, 64, Flag::new(BSF_NONE));
    assert_eq!(buf, vec![0xFF, 0xFF, 0xFF, 0xFF, 0, 0, 0, 0]);
    let mut buf = vec![0u8; 8];
    fmt_big(&mut buf, 0, &negative, 61, Flag::new(BSF_LITTLE));
    assert_eq!(buf, vec![0, 0, 0, 0, 0xFF, 0xFF, 0xFF, 0xF8]);

    assert_eq!(resized(&vec![1, 2, 3], 2).0, vec![1, 2]);
    assert_eq!(resized(&vec![1, 2, 0x83], 5).0, vec![1, 2, 0x83, 0xFF, 0xFF]);
    assert_eq!(resized(&vec![1, 2, 3], 5).0, vec![1, 2, 3, 0, 0]);
    assert_eq!(resized(&vec![], 2).0, vec![0, 0]);

    // through the builder, and back through the match buffer
    let mut table = BinaryTable::new();
    let rc = table.add(Binary::with_size(10));
    let mut bs = Builder::new(rc);
    let value = integer_term(vec![0x88, 0x77, 0x66, 0x55, 0x44, 0x33, 0x22, 0x11, 0x00]);
    assert!(matches!(value, Term::BigInt(_)));
    bs.put_integer(&mut table, 4, Flag::new(BSF_NONE), &Term::small(0));
    bs.put_integer(&mut table, 72, Flag::new(BSF_NONE), &value);
    assert_eq!(bs.offset, 76);
    assert_eq!(
        table.get(rc).data,
        vec![0x00, 0x01, 0x12, 0x23, 0x34, 0x45, 0x56, 0x67, 0x78, 0x80]
    );
    let mut mb = MatchBuffer::from_binary(&table, rc).unwrap();
    mb.offset = 4;
    assert_eq!(mb.get_integer(&table, 72, Flag::new(BSF_NONE)), Some(value));
}
