use enigma::bitstring::builder::Builder;
use enigma::bitstring::compare::cmp_bits;
use enigma::bitstring::copy::copy_bits;
use enigma::bitstring::{
    Binary, BinaryTable, Bytes, Flag, MatchBuffer, SubBinary, BSF_LITTLE, BSF_NONE, BSF_SIGNED,
};
use enigma::value::Term;
use std::cmp::Ordering;

#[test]
fn test_get_integer() {
    let mut table = BinaryTable::new();
    let binary = table.add(Binary::from(vec![0xAB, 0xCD, 0xEF]));

    let mut mb = MatchBuffer::from_binary(&table, binary).unwrap();

    // fits in one byte
    let res = mb.get_integer(&table, 4, Flag::new(BSF_NONE));
    assert_eq!(Some(Term::small(0xA)), res);

    // fits in two bytes
    let res = mb.get_integer(&table, 8, Flag::new(BSF_NONE));
    assert_eq!(Some(Term::small(0xBC)), res);

    // num < small_bits & !little
    let res = mb.get_integer(&table, 12, Flag::new(BSF_NONE));
    assert_eq!(Some(Term::small(0xDEF)), res);
}

#[test]
fn bitstring_unaligned() {
    let mut table = BinaryTable::new();
    let binary = Binary::from(vec![0x0B, 0xCD, 0xE]);
    let original = Binary::from(vec![0xAB, 0xCD, 0xEF]);
    let subbinary = SubBinary::new(table.add(Binary::from(vec![0xAB, 0xCD, 0xEF])), 20, 4, false);

    assert!(
        cmp_bits(
            &binary.data,
            4,
            &original.data,
            subbinary.bit_offset as usize,
            subbinary.bitsize + subbinary.size
        ) == std::cmp::Ordering::Equal
    )
}

#[test]
fn bitstring_aligned() {
    let mut table = BinaryTable::new();
    let binary = Binary::from(vec![0xB, 0xCD, 0xE]);
    let original = Binary::from(vec![0xB, 0xCD, 0xE]);
    let subbinary = SubBinary::new(table.add(Binary::from(vec![0xB, 0xCD, 0xE])), 20, 0, false);

    assert!(
        cmp_bits(
            &binary.data,
            0,
            &original.data,
            subbinary.bit_offset as usize,
            subbinary.bitsize + subbinary.size
        ) == std::cmp::Ordering::Equal
    )
}

#[test]
fn get_binary_all() {
    let mut table = BinaryTable::new();
    let binary = table.add(Binary::from(vec![45, 114, 111, 111, 116]));
    let mut mb = MatchBuffer::from_binary(&table, binary).unwrap();
    mb.offset += 8;
    let res = mb.get_binary_all(Flag::new(BSF_NONE)).unwrap();

    let value = match res {
        Term::SubBinary(value) => value,
        other => panic!("{:?}", other),
    };
    assert_eq!(4, value.size);
    assert_eq!(1, value.offset);

    let mut rest = MatchBuffer::from_sub_binary(value).unwrap();
    assert_eq!(
        Some(b"root".to_vec()),
        rest.get_bytes(&table, 4).map(|bytes| bytes.into_owned())
    );
}

#[test]
fn get_bytes() {
    let mut table = BinaryTable::new();
    let binary = table.add(Binary::from(vec![45, 114, 111, 111, 116]));
    let mut mb = MatchBuffer::from_binary(&table, binary).unwrap();
    mb.offset += 8;
    let res = mb.get_bytes(&table, 2).unwrap();

    assert_eq!(&[114, 111], res.as_ref());
    // read at a byte boundary, the bytes are lent
    assert!(matches!(res, Bytes::Borrowed(_)));
    mb.offset = 3;
    let res = mb.get_bytes(&table, 2).unwrap();
    assert!(matches!(res, Bytes::Owned(_)));
    assert_eq!(&[0b0110_1011, 0b1001_0011], res.as_ref());
    assert_eq!(19, mb.offset);
    mb.offset = 8;
    let _ = mb.get_bytes(&table, 2).unwrap();
    assert_eq!(24, mb.offset);
}

#[test]
fn test_builder() {
    let mut table = BinaryTable::new();
    let binary = table.add(Binary::from(vec![1, 2, 0, 0, 0, 0, 0, 0, 0, 0]));
    let mut builder = Builder::new(binary);
    builder.offset = 16; // two bytes
    builder.put_integer(&mut table, 64, Flag::new(BSF_NONE), &Term::small(257));
    assert_eq!(&[1, 2, 0, 0, 0, 0, 0, 0, 1, 1], builder.data(&table).as_slice());
}

#[test]
fn copy_bits_shifts_and_reverses() {
    let src = vec![0b1010_1100u8, 0b0101_0011, 0xFF];
    let mut dst = vec![0u8; 3];
    copy_bits(&src, 3, 1, &mut dst, 5, 1, 13);
    // source bits from bit 3: 0_1100 0101_0011 -> 13 bits: 0110001010011
    assert_eq!(dst, vec![0b0000_0011, 0b0001_0100, 0b1100_0000]);

    let mut back = vec![0u8; 2];
    copy_bits(&src, 0, 1, &mut back, 0, -1, 16);
    assert_eq!(back, vec![0b0101_0011, 0b1010_1100]);

    let mut keep = vec![0xFFu8; 2];
    copy_bits(&[0u8], 0, 1, &mut keep, 6, 1, 4);
    assert_eq!(keep, vec![0b1111_1100, 0b0011_1111]);
}

#[test]
fn get_integer_signed_and_little() {
    let mut table = BinaryTable::new();
    let binary = table.add(Binary::from(vec![0x34, 0x12, 0xFF, 0x80, 0, 0, 0, 0, 0, 0, 0, 1]));
    let mut mb = MatchBuffer::from_binary(&table, binary).unwrap();
    assert_eq!(Some(Term::small(0x1234)), mb.get_integer(&table, 16, Flag::new(BSF_LITTLE)));
    assert_eq!(Some(Term::small(-1)), mb.get_integer(&table, 8, Flag::new(BSF_SIGNED)));
    // 72 bits, signed, big-endian: -2^71 + 1
    let got = mb.get_integer(&table, 72, Flag::new(BSF_SIGNED)).unwrap();
    match got {
        Term::BigInt(b) => assert_eq!(b.digits, vec![1, 0, 0, 0, 0, 0, 0, 0, 0x80]),
        other => panic!("{:?}", other),
    }
    assert_eq!(0, mb.remaining());
    assert_eq!(None, mb.get_integer(&table, 1, Flag::new(BSF_NONE)));
    assert_eq!(Some(Term::small(0)), mb.get_integer(&table, 0, Flag::new(BSF_NONE)));
}

#[test]
fn cmp_bits_orders() {
    let a = vec![0b1010_0000u8, 0xFF];
    let b = vec![0b0101_1000u8, 0x7F, 0xFF];
    // a from bit 0 and b from bit 1 agree on their first three bits
    assert_eq!(cmp_bits(&a, 0, &b, 1, 3), Ordering::Equal);
    assert_eq!(cmp_bits(&a, 0, &b, 1, 4), Ordering::Less);
    assert_eq!(cmp_bits(&b, 1, &a, 0, 4), Ordering::Greater);
    assert_eq!(cmp_bits(&a, 0, &b, 0, 0), Ordering::Equal);
    assert_eq!(cmp_bits(&a, 0, &b, 0, 16), Ordering::Greater);
    assert_eq!(cmp_bits(&b, 0, &a, 0, 16), Ordering::Less);
    // whole bytes at a shifted offset
    let c = vec![0x12u8, 0x34, 0x56, 0x78];
    let d = vec![0x01u8, 0x23, 0x45, 0x67, 0x80];
    assert_eq!(cmp_bits(&c, 0, &d, 4, 32), Ordering::Equal);
    assert_eq!(cmp_bits(&d, 4, &c, 0, 32), Ordering::Equal);
    let e = vec![0x12u8, 0x34, 0x56, 0x79];
    assert_eq!(cmp_bits(&e, 0, &d, 4, 32), Ordering::Greater);
    assert_eq!(cmp_bits(&e, 0, &d, 4, 31), Ordering::Equal);
}

#[test]
fn sub_binary_round_trip() {
    let mut table = BinaryTable::new();
    let bytes = vec![0xDEu8, 0xAD, 0xBE, 0xEF, 0x01];
    let rc = table.add(Binary::from(bytes.clone()));
    for lo in 0..24usize {
        for hi in lo..=40usize {
            let sb = SubBinary::new(rc, hi - lo, lo, false);
            let mut mb = MatchBuffer::from_sub_binary(sb).unwrap();
            assert_eq!(mb.remaining(), hi - lo);
            let whole = (hi - lo) / 8;
            let got = mb.get_bytes(&table, whole).unwrap();
            for (j, byte) in got.as_ref().iter().enumerate() {
                for bit in 0..8 {
                    let pos = lo + 8 * j + bit;
                    let want = (bytes[pos / 8] >> (7 - pos % 8)) & 1;
                    assert_eq!((byte >> (7 - bit)) & 1, want);
                }
            }
            let rest = (hi - lo) % 8;
            if rest > 0 {
                let last = mb.get_integer(&table, rest, Flag::new(BSF_NONE)).unwrap();
                let mut want: i32 = 0;
                for bit in 0..rest {
                    let pos = lo + 8 * whole + bit;
                    want = 2 * want + ((bytes[pos / 8] >> (7 - pos % 8)) & 1) as i32;
                }
                assert_eq!(last, Term::small(want));
            }
            assert_eq!(mb.remaining(), 0);
            assert!(mb.get_bytes(&table, 1).is_none());
        }
    }
}

#[test]
fn get_utf8_scenario() {
    let mut table = BinaryTable::new();
    let rc = table.add(Binary::from(vec![0xF0, 0x9F, 0x98, 0x80]));
    let mut mb = MatchBuffer::from_binary(&table, rc).unwrap();
    assert_eq!(mb.get_utf8(&table), Some(Term::small(0x1F600)));
    assert_eq!(mb.remaining(), 0);
    assert_eq!(mb.get_utf8(&table), None);

    // a lone surrogate fails, and the cursor stays
    let rc = table.add(Binary::from(vec![0xED, 0xA0, 0x80]));
    let mut mb = MatchBuffer::from_binary(&table, rc).unwrap();
    assert_eq!(mb.get_utf8(&table), None);
    assert_eq!(mb.offset, 0);
}

#[test]
fn get_utf8_widths_and_rejections() {
    let mut table = BinaryTable::new();
    let read = |table: &mut BinaryTable, bytes: Vec<u8>| {
        let rc = table.add(Binary::from(bytes));
        let mut mb = MatchBuffer::from_binary(table, rc).unwrap();
        let got = mb.get_utf8(table);
        (got, mb.offset)
    };
    assert_eq!(read(&mut table, vec![0x41, 0x42]), (Some(Term::small(0x41)), 8));
    assert_eq!(read(&mut table, vec![0xC3, 0xA9]), (Some(Term::small(0xE9)), 16));
    assert_eq!(read(&mut table, vec![0xE2, 0x82, 0xAC]), (Some(Term::small(0x20AC)), 24));
    assert_eq!(read(&mut table, vec![0xF4, 0x8F, 0xBF, 0xBF]), (Some(Term::small(0x10FFFF)), 32));
    // overlong encodings
    assert_eq!(read(&mut table, vec![0xC0, 0x80]), (None, 0));
    assert_eq!(read(&mut table, vec![0xC1, 0xBF]), (None, 0));
    assert_eq!(read(&mut table, vec![0xE0, 0x9F, 0xBF]), (None, 0));
    assert_eq!(read(&mut table, vec![0xF0, 0x8F, 0xBF, 0xBF]), (None, 0));
    // above the last code point
    assert_eq!(read(&mut table, vec![0xF4, 0x90, 0x80, 0x80]), (None, 0));
    assert_eq!(read(&mut table, vec![0xF8, 0x88, 0x80, 0x80]), (None, 0));
    // a continuation byte first, a missing continuation byte, too few bytes
    assert_eq!(read(&mut table, vec![0x80]), (None, 0));
    assert_eq!(read(&mut table, vec![0xC3, 0x41]), (None, 0));
    assert_eq!(read(&mut table, vec![0xE2, 0x82]), (None, 0));
    assert_eq!(read(&mut table, vec![]), (None, 0));
    // at a bit offset
    let rc = table.add(Binary::from(vec![0x0C, 0x3A, 0x90]));
    let mut mb = MatchBuffer::from_binary(&table, rc).unwrap();
    mb.offset = 4;
    assert_eq!(mb.get_utf8(&table), Some(Term::small(0xE9)));
    assert_eq!(mb.offset, 20);
}

#[test]
fn get_utf16_pairs() {
    let mut table = BinaryTable::new();
    let read = |table: &mut BinaryTable, bytes: Vec<u8>, flags: u8| {
        let rc = table.add(Binary::from(bytes));
        let mut mb = MatchBuffer::from_binary(table, rc).unwrap();
        let got = mb.get_utf16(table, Flag::new(flags));
        (got, mb.offset)
    };
    assert_eq!(read(&mut table, vec![0x20, 0xAC], BSF_NONE), (Some(Term::small(0x20AC)), 16));
    assert_eq!(read(&mut table, vec![0xAC, 0x20], BSF_LITTLE), (Some(Term::small(0x20AC)), 16));
    assert_eq!(
        read(&mut table, vec![0xD8, 0x3D, 0xDE, 0x00], BSF_NONE),
        (Some(Term::small(0x1F600)), 32)
    );
    assert_eq!(
        read(&mut table, vec![0x3D, 0xD8, 0x00, 0xDE], BSF_LITTLE),
        (Some(Term::small(0x1F600)), 32)
    );
    // a low surrogate first, a high surrogate alone, a high surrogate twice
    assert_eq!(read(&mut table, vec![0xDE, 0x00, 0xD8, 0x3D], BSF_NONE), (None, 0));
    assert_eq!(read(&mut table, vec![0xD8, 0x3D], BSF_NONE), (None, 0));
    assert_eq!(read(&mut table, vec![0xD8, 0x3D, 0xD8, 0x3D], BSF_NONE), (None, 0));
    assert_eq!(read(&mut table, vec![0x20], BSF_NONE), (None, 0));
}

#[test]
fn get_integer_fields() {
    let mut table = BinaryTable::new();
    let rc = table.add(Binary::from(vec![0x12, 0x34, 0x56, 0x78, 0x9A, 0xBC, 0xDE, 0xF0, 0x0F]));
    let read = |table: &BinaryTable, offset: usize, bits: usize, flags: u8| {
        let mut mb = MatchBuffer::from_binary(table, rc).unwrap();
        mb.offset = offset;
        (mb.get_integer(table, bits, Flag::new(flags)), mb.offset)
    };
    assert_eq!(read(&table, 0, 16, BSF_NONE), (Some(Term::small(0x1234)), 16));
    assert_eq!(read(&table, 0, 16, BSF_LITTLE), (Some(Term::small(0x3412)), 16));
    assert_eq!(read(&table, 4, 16, BSF_NONE), (Some(Term::small(0x2345)), 20));
    assert_eq!(read(&table, 4, 16, BSF_LITTLE), (Some(Term::small(0x4523)), 20));
    // twelve bits, little-endian: a byte, then the four most significant bits
    assert_eq!(read(&table, 0, 12, BSF_LITTLE), (Some(Term::small(0x312)), 12));
    assert_eq!(read(&table, 0, 12, BSF_NONE), (Some(Term::small(0x123)), 12));
    // signed
    assert_eq!(read(&table, 32, 8, BSF_SIGNED), (Some(Term::small(0x9A - 256)), 40));
    assert_eq!(read(&table, 32, 16, BSF_SIGNED), (Some(Term::small(0x9ABC - 65536)), 48));
    assert_eq!(
        read(&table, 32, 16, BSF_SIGNED | BSF_LITTLE),
        (Some(Term::small(0xBC9A - 65536)), 48)
    );
    assert_eq!(read(&table, 1, 3, BSF_SIGNED), (Some(Term::small(1)), 4));
    assert_eq!(read(&table, 35, 3, BSF_SIGNED), (Some(Term::small(-2)), 38));
    // 32 bits: the largest small integer and beyond
    assert_eq!(read(&table, 0, 32, BSF_NONE), (Some(Term::small(0x12345678)), 32));
    match read(&table, 32, 32, BSF_NONE) {
        (Some(Term::BigInt(b)), 64) => assert_eq!(b.digits, vec![0xF0, 0xDE, 0xBC, 0x9A, 0]),
        other => panic!("{:?}", other),
    }
    assert_eq!(
        read(&table, 32, 32, BSF_SIGNED),
        (Some(Term::small(0x9ABCDEF0u32 as i32)), 64)
    );
    // 64 bits and more
    match read(&table, 0, 64, BSF_NONE) {
        (Some(Term::BigInt(b)), 64) => {
            assert_eq!(b.digits, vec![0xF0, 0xDE, 0xBC, 0x9A, 0x78, 0x56, 0x34, 0x12])
        }
        other => panic!("{:?}", other),
    }
    match read(&table, 0, 72, BSF_LITTLE) {
        (Some(Term::BigInt(b)), 72) => {
            assert_eq!(b.digits, vec![0x12, 0x34, 0x56, 0x78, 0x9A, 0xBC, 0xDE, 0xF0, 0x0F])
        }
        other => panic!("{:?}", other),
    }
    // underflow keeps the cursor
    assert_eq!(read(&table, 64, 9, BSF_NONE), (None, 64));
}

#[test]
fn get_float_fields() {
    let mut table = BinaryTable::new();
    let one = 1.0f64.to_bits().to_be_bytes().to_vec();
    let rc = table.add(Binary::from(one.clone()));
    let mut mb = MatchBuffer::from_binary(&table, rc).unwrap();
    assert_eq!(mb.get_float(&table, 64, Flag::new(BSF_NONE)), Some(Term::Float(1.0f64.to_bits())));
    assert_eq!(mb.offset, 64);

    let mut reversed = one;
    reversed.reverse();
    let rc = table.add(Binary::from(reversed));
    let mut mb = MatchBuffer::from_binary(&table, rc).unwrap();
    assert_eq!(
        mb.get_float(&table, 64, Flag::new(BSF_LITTLE)),
        Some(Term::Float(1.0f64.to_bits()))
    );

    for value in [0.0f32, -0.0, 1.5, -2.75, 3.0e-39, 1.0e-45, f32::MAX, f32::MIN_POSITIVE, 0.1] {
        let rc = table.add(Binary::from(value.to_bits().to_be_bytes().to_vec()));
        let mut mb = MatchBuffer::from_binary(&table, rc).unwrap();
        let got = mb.get_float(&table, 32, Flag::new(BSF_NONE));
        assert_eq!(got, Some(Term::Float((value as f64).to_bits())), "{}", value);
        assert_eq!(mb.offset, 32);
    }
    for bad in [f32::INFINITY, f32::NEG_INFINITY, f32::NAN] {
        let rc = table.add(Binary::from(bad.to_bits().to_be_bytes().to_vec()));
        let mut mb = MatchBuffer::from_binary(&table, rc).unwrap();
        assert_eq!(mb.get_float(&table, 32, Flag::new(BSF_NONE)), None);
        assert_eq!(mb.offset, 0);
    }
    let rc = table.add(Binary::from(f64::INFINITY.to_bits().to_be_bytes().to_vec()));
    let mut mb = MatchBuffer::from_binary(&table, rc).unwrap();
    assert_eq!(mb.get_float(&table, 64, Flag::new(BSF_NONE)), None);
    assert_eq!(mb.get_float(&table, 16, Flag::new(BSF_NONE)), None);
    assert_eq!(mb.get_float(&table, 0, Flag::new(BSF_NONE)), None);
    mb.offset = 8;
    assert_eq!(mb.get_float(&table, 64, Flag::new(BSF_NONE)), None);
}

#[test]
fn get_binary_views() {
    let mut table = BinaryTable::new();
    let rc = table.add(Binary::from(vec![1, 2, 3]));
    let mut mb = MatchBuffer::from_binary(&table, rc).unwrap();
    mb.offset = 3;
    let sb = match mb.get_binary(10, Flag::new(BSF_NONE)).unwrap() {
        Term::SubBinary(sb) => sb,
        other => panic!("{:?}", other),
    };
    assert_eq!((sb.offset, sb.bit_offset, sb.size, sb.bitsize), (0, 3, 1, 2));
    assert!(!sb.is_binary());
    assert_eq!(sb.original, rc);
    assert_eq!(mb.offset, 13);
    assert_eq!(mb.get_binary(12, Flag::new(BSF_NONE)), None);
    assert_eq!(mb.offset, 13);
    let rest = match mb.get_binary_all(Flag::new(BSF_NONE)).unwrap() {
        Term::SubBinary(sb) => sb,
        other => panic!("{:?}", other),
    };
    assert_eq!((rest.offset, rest.bit_offset, rest.size, rest.bitsize), (1, 5, 1, 3));
    assert_eq!(mb.remaining(), 0);
}
