use enigma::atom::{self, AtomTable};
use enigma::bif::dtrace::{
    dt_append_vm_tag_data_1, dt_get_tag_0, dt_get_tag_data_0, dt_prepend_vm_tag_data_1,
    dt_put_tag_1, dt_restore_tag_1, dt_spread_tag_1,
};
use enigma::bif::timer::send_after_3;
use enigma::bitstring::{Binary, MatchBuffer, RcBinary, SubBinary};
use enigma::exception::{badarg, Exception, Reason};
use enigma::immix::block::{
    round_up_to, Allocation, Block, Heap, DEFAULT_BLOCK_ALIGN, DEFAULT_BLOCK_SIZE, HEADER_SIZE,
};
use enigma::process::Process;
use enigma::regex::{list_to_iodata, run_3, run_result};
use enigma::value::integer::{digits_of_u64, integer_term, normalize, twos_digits};
use enigma::exports_table::Export;
use enigma::instr_ptr::InstrPtr;
use enigma::module::{decimal, Module, MFA};
use enigma::value::{duplicate, hash_term, term_eq, Cons, MatchState, Term, WrongBoxError, HAMT};
use enigma::vm::Machine;

#[test]
fn round_up_and_block_layout() {
    assert_eq!(round_up_to(0, 8), 0);
    assert_eq!(round_up_to(1, 8), 8);
    assert_eq!(round_up_to(8, 8), 8);
    assert_eq!(round_up_to(9, 8), 16);
    assert_eq!(round_up_to(17, 1), 17);
    assert_eq!(round_up_to(4097, 4096), 8192);
    assert_eq!(Block::default_block_layout(), (32 * 1024 + HEADER_SIZE, 8));
    assert_eq!(Block::layout_for(10, 4), Some((DEFAULT_BLOCK_SIZE, DEFAULT_BLOCK_ALIGN)));
    assert_eq!(Block::layout_for(10, 64), Some((DEFAULT_BLOCK_SIZE, 64)));
    assert_eq!(Block::layout_for(32 * 1024, 8), Some((DEFAULT_BLOCK_SIZE, 8)));
    // a request that a default block cannot hold gets a block of its own
    assert_eq!(Block::layout_for(32 * 1024 + 1, 8), Some((32 * 1024 + 8 + HEADER_SIZE, 8)));
    assert_eq!(Block::layout_for(100_001, 16), Some((100_008 + HEADER_SIZE, 16)));
    assert_eq!(Block::layout_for(usize::MAX - 8, 8), None);
}

#[test]
fn heap_bumps_forward() {
    let first = Block::new(0x1000, DEFAULT_BLOCK_SIZE, 8);
    let mut heap = Heap::new(first);
    assert_eq!(heap.alloc_layout(3, 1), Allocation::At(0x1000));
    assert_eq!(heap.alloc_layout(8, 8), Allocation::At(0x1008));
    assert_eq!(heap.alloc_layout(1, 1), Allocation::At(0x1010));
    assert_eq!(heap.alloc_layout(4, 4), Allocation::At(0x1014));
    assert_eq!(heap.blocks[0].ptr, 0x1018);
    // what does not fit asks for a new block and changes nothing
    let big = 32 * 1024;
    assert_eq!(
        heap.alloc_layout(big, 8),
        Allocation::NewBlock { size: DEFAULT_BLOCK_SIZE, align: 8 }
    );
    assert_eq!(heap.blocks.len(), 1);
    assert_eq!(heap.blocks[0].ptr, 0x1018);
    let second = Block::new(0x20000, DEFAULT_BLOCK_SIZE, 8);
    assert_eq!(heap.alloc_layout_slow(second, big), 0x20000);
    assert_eq!(heap.blocks.len(), 2);
    assert_eq!(heap.blocks[1].ptr, 0x20000 + big);
    // the block is full to the header
    assert_eq!(
        heap.alloc_layout(1, 1),
        Allocation::NewBlock { size: DEFAULT_BLOCK_SIZE, align: 8 }
    );
    assert_eq!(
        heap.alloc_layout(100_000, 32),
        Allocation::NewBlock { size: 100_000 + HEADER_SIZE, align: 32 }
    );
    assert_eq!(heap.alloc_layout(0, 1), Allocation::At(0x20000 + big));
    assert_eq!(heap.alloc_layout(usize::MAX, 1), Allocation::Overflow);
    assert_eq!(heap.blocks[0].ptr, 0x1018);
}

#[test]
fn send_after_hands_out_references() {
    let mut vm = Machine::new(&[]);
    let process = Process::new(7);
    let args = [Term::small(250), Term::Pid(3), Term::atom(atom::OK)];
    let (reference, timer) = send_after_3(&mut vm, &process, &args).unwrap();
    assert_eq!(reference, Term::Ref(0));
    assert_eq!((timer.delay, timer.from), (250, 7));
    assert_eq!((timer.dest, timer.msg), (Term::Pid(3), Term::atom(atom::OK)));
    let (reference, _) = send_after_3(&mut vm, &process, &args).unwrap();
    assert_eq!(reference, Term::Ref(1));
    for bad in [
        [Term::small(-1), Term::Pid(3), Term::nil()],
        [Term::atom(1), Term::Pid(3), Term::nil()],
        [Term::small(1), Term::small(3), Term::nil()],
    ] {
        match send_after_3(&mut vm, &process, &bad) {
            Err(e) => assert_eq!(e.reason, Reason::EXC_BADARG),
            Ok(_) => panic!(),
        }
    }
    assert_eq!(vm.next_ref, 2);
    vm.next_ref = u64::MAX;
    assert_eq!(vm.next_ref(), u64::MAX);
    assert_eq!(vm.next_ref(), 0);
}

#[test]
fn dtrace_stubs() {
    let vm = Machine::new(&[]);
    let process = Process::new(0);
    let args = [Term::tup2(Term::small(1), Term::nil())];
    let undefined = Ok(Term::atom(atom::UNDEFINED));
    let yes = Ok(Term::atom(atom::TRUE));
    assert_eq!(dt_put_tag_1(&vm, &process, &args), undefined);
    assert_eq!(dt_get_tag_0(&vm, &process, &[]), undefined);
    assert_eq!(dt_get_tag_data_0(&vm, &process, &[]), undefined);
    assert_eq!(dt_spread_tag_1(&vm, &process, &args), yes);
    assert_eq!(dt_restore_tag_1(&vm, &process, &args), yes);
    assert_eq!(dt_prepend_vm_tag_data_1(&vm, &process, &args), Ok(args[0].clone()));
    assert_eq!(dt_append_vm_tag_data_1(&vm, &process, &args), Ok(args[0].clone()));
}

#[test]
fn atoms_are_interned() {
    let mut table = AtomTable::new();
    assert_eq!(table.lookup("nil"), Some(atom::NIL));
    assert_eq!(table.lookup("true"), Some(atom::TRUE));
    assert_eq!(table.lookup("false"), Some(atom::FALSE));
    assert_eq!(table.lookup("undefined"), Some(atom::UNDEFINED));
    assert_eq!(table.lookup("ok"), Some(atom::OK));
    assert_eq!(table.lookup("error"), Some(atom::ERROR));
    assert_eq!(table.lookup("badfile"), Some(atom::BADFILE));
    assert_eq!(table.lookup("nomatch"), Some(atom::NOMATCH));
    assert_eq!(table.lookup("match"), Some(atom::MATCH));
    assert_eq!(table.lookup("global"), Some(atom::GLOBAL));
    assert_eq!(table.lookup("trim"), Some(atom::TRIM));
    assert_eq!(table.lookup("trim_all"), Some(atom::TRIM_ALL));
    assert_eq!(table.lookup("scope"), Some(atom::SCOPE));
    assert_eq!(table.lookup("module"), Some(atom::MODULE));
    assert_eq!(table.lookup("md5"), Some(atom::MD5));
    assert_eq!(table.lookup("exports"), Some(atom::EXPORTS));
    assert_eq!(table.lookup("functions"), Some(atom::FUNCTIONS));
    assert_eq!(table.lookup("nifs"), Some(atom::NIFS));
    assert_eq!(table.lookup("attributes"), Some(atom::ATTRIBUTES));
    assert_eq!(table.lookup("compile"), Some(atom::COMPILE));
    assert_eq!(table.lookup("native_addresses"), Some(atom::NATIVE_ADDRESSES));
    assert_eq!(table.lookup("native"), Some(atom::NATIVE));
    assert_eq!(table.lookup("beam_lib"), Some(atom::BEAM_LIB));
    assert_eq!(table.lookup("lists"), None);
    assert_eq!(table.intern("lists"), Some(atom::FIRST_FREE));
    assert_eq!(table.intern("maps"), Some(atom::FIRST_FREE + 1));
    assert_eq!(table.intern("lists"), Some(atom::FIRST_FREE));
    assert_eq!(table.to_str(atom::FIRST_FREE + 1), Some("maps"));
    assert_eq!(table.to_str(atom::FIRST_FREE + 2), None);
    assert_eq!(AtomTable::empty().lookup("ok"), None);
}

#[test]
fn re_run() {
    let vm = Machine::new(&[]);
    let mut process = Process::new(0);
    let subject =
        Term::Binary(process.context.binaries.add(Binary::from(b"key: a, key: b".to_vec())));
    let pattern = Cons::from_iter(b"key: .".iter().map(|b| Term::small(*b as i32)).collect());
    let res = run_3(&vm, &process, &[subject.clone(), pattern]).unwrap();
    let inner = Cons::from_iter(vec![
        Term::tup2(Term::small(8), Term::small(6)),
        Term::tup2(Term::small(0), Term::small(6)),
    ]);
    assert_eq!(res, Term::tup2(Term::atom(atom::MATCH), Cons::from_iter(vec![inner])));
    let none = Term::Binary(process.context.binaries.add(Binary::from(b"z+".to_vec())));
    assert_eq!(run_3(&vm, &process, &[subject.clone(), none]), Ok(Term::atom(atom::NOMATCH)));
    let broken = Term::Binary(process.context.binaries.add(Binary::from(b"(".to_vec())));
    assert_eq!(run_3(&vm, &process, &[subject.clone(), broken]), Err(badarg()));
    assert_eq!(run_3(&vm, &process, &[subject.clone(), Term::small(1)]), Err(badarg()));
    assert_eq!(run_3(&vm, &process, &[Term::atom(1), subject]), Err(badarg()));

    assert_eq!(run_result(&vec![]), Term::atom(atom::NOMATCH));
    assert_eq!(list_to_iodata(&Term::nil(), &process.context.binaries), Some(vec![]));
    let bad = Cons::from_iter(vec![Term::small(256)]);
    assert_eq!(list_to_iodata(&bad, &process.context.binaries), None);
    let improper = Term::cons(Term::small(1), Term::small(2));
    assert_eq!(list_to_iodata(&improper, &process.context.binaries), None);
}

#[test]
fn terms_are_compared_by_value() {
    let mut map = HAMT::new();
    map.insert(Term::small(1), Term::Regex("a".to_string()));
    let term = Term::Tuple(vec![
        Term::nil(),
        Term::small(-4),
        Term::uint64(u64::MAX),
        Term::atom(3),
        Term::Pid(1),
        Term::Ref(9),
        Term::cons(Term::small(1), Term::small(2)),
        Term::Hamt(map),
        Term::Float(5),
        Term::Module(2),
    ]);
    let copy = duplicate(&term);
    assert_eq!(copy, term);
    assert_eq!(term.clone(), term);
    assert!(term_eq(&copy, &term));
    let parts = match &term {
        Term::Tuple(parts) => parts,
        _ => panic!(),
    };
    for (i, a) in parts.iter().enumerate() {
        for (j, b) in parts.iter().enumerate() {
            assert_eq!(term_eq(a, b), i == j, "{:?} {:?}", a, b);
        }
    }
    assert!(!term_eq(&Term::Tuple(vec![Term::small(1)]), &Term::Tuple(vec![])));
    assert!(!term_eq(
        &Term::Tuple(vec![Term::small(1)]),
        &Term::Tuple(vec![Term::small(2)])
    ));
    assert!(!term_eq(
        &Term::cons(Term::small(1), Term::nil()),
        &Term::cons(Term::small(1), Term::small(1))
    ));
    assert!(Term::nil().is_list() && Term::cons(Term::nil(), Term::nil()).is_list());
    assert!(!Term::small(1).is_list() && !Term::small(1).is_nil());
    assert!(Term::Pid(1).is_pid() && !Term::atom(1).is_pid());
    assert_eq!(Term::small(5).to_uint(), Some(5));
    assert_eq!(Term::small(-5).to_uint(), None);
    assert_eq!(Term::atom(5).to_atom(), Some(5));
    assert_eq!(Term::small(5).to_atom(), None);
    assert_eq!(Exception::new(Reason::EXC_ERROR).value, Term::nil());
    assert_eq!(
        Exception::with_value(Reason::EXC_SYSTEM_LIMIT, Term::small(1)).value,
        Term::small(1)
    );
}

#[test]
fn integers_have_one_form() {
    assert_eq!(Term::uint(7), Term::small(7));
    assert_eq!(Term::uint64(0x7fff_ffff), Term::small(i32::MAX));
    match Term::uint64(0x8000_0000) {
        Term::BigInt(b) => assert_eq!(b.digits, vec![0, 0, 0, 0x80, 0]),
        other => panic!("{:?}", other),
    }
    match Term::uint(u32::MAX) {
        Term::BigInt(b) => assert_eq!(b.digits, vec![0xFF, 0xFF, 0xFF, 0xFF, 0]),
        other => panic!("{:?}", other),
    }
    match Term::uint64(u64::MAX) {
        Term::BigInt(b) => assert_eq!(b.digits, vec![0xFF; 8].into_iter().chain([0]).collect::<Vec<u8>>()),
        other => panic!("{:?}", other),
    }
    assert_eq!(integer_term(vec![]), Term::small(0));
    assert_eq!(integer_term(vec![0xFF, 0xFF, 0xFF, 0xFF, 0xFF, 0xFF]), Term::small(-1));
    assert_eq!(integer_term(vec![0, 0, 0, 0x80]), Term::small(i32::MIN));
    assert_eq!(integer_term(vec![0xFF, 0xFF, 0xFF, 0x7F, 0, 0]), Term::small(i32::MAX));
    match integer_term(vec![0xFF, 0xFF, 0xFF, 0x7F, 0xFF, 0xFF]) {
        Term::BigInt(b) => assert_eq!(b.digits, vec![0xFF, 0xFF, 0xFF, 0x7F, 0xFF]),
        other => panic!("{:?}", other),
    }
    let mut digits = vec![1, 0x80, 0xFF, 0xFF];
    normalize(&mut digits);
    assert_eq!(digits, vec![1, 0x80]);
    let mut digits = vec![1, 0x80, 0, 0];
    normalize(&mut digits);
    assert_eq!(digits, vec![1, 0x80, 0]);
    assert_eq!(digits_of_u64(0x0102), vec![2, 1, 0, 0, 0, 0, 0, 0, 0]);
    assert_eq!(twos_digits(-2, 6).0, vec![0xFE, 0xFF, 0xFF, 0xFF, 0xFF, 0xFF]);
    assert_eq!(twos_digits(0x01020304, 2).0, vec![4, 3]);
    assert_eq!(twos_digits(5, 0).0, Vec::<u8>::new());
}

#[test]
fn accessors_go_by_the_kind_of_term() {
    let rc = RcBinary(3);
    let sb = SubBinary::new(rc, 12, 4, false);
    let ms = MatchState { mb: MatchBuffer { original: rc, offset: 1, size: 9 }, saved_offsets: vec![0] };
    let list = Term::cons(Term::small(1), Term::nil());
    let export = Term::Export(MFA(1, 2, 3));
    let pattern = Term::Regex("a|b".to_string());

    assert_eq!(RcBinary::try_from(&Term::Binary(rc)), Ok(&rc));
    assert_eq!(RcBinary::try_from(&Term::SubBinary(sb)), Err(WrongBoxError));
    assert_eq!(SubBinary::try_from(&Term::SubBinary(sb)), Ok(&sb));
    assert_eq!(SubBinary::try_from(&Term::Binary(rc)), Err(WrongBoxError));
    assert_eq!(MatchState::try_from(&Term::MatchState(ms.clone())), Ok(&ms));
    assert_eq!(MatchState::try_from(&Term::nil()), Err(WrongBoxError));
    match Cons::try_from(&list) {
        Ok(cell) => {
            assert_eq!(cell.head, Term::small(1));
            assert_eq!(cell.tail, Term::nil());
        }
        Err(e) => panic!("{:?}", e),
    }
    assert!(Cons::try_from(&Term::nil()).is_err());
    assert_eq!(MFA::cast_from(&export), Ok(&MFA(1, 2, 3)));
    assert_eq!(MFA::cast_from(&Term::atom(1)), Err(WrongBoxError));
    assert_eq!(Module::cast_from(&Term::Module(4)), Ok(4));
    assert_eq!(Module::cast_from(&export), Err(WrongBoxError));
    assert_eq!(enigma::regex::cast_from(&pattern), Ok(&"a|b".to_string()));
    assert_eq!(enigma::regex::cast_from(&list), Err(WrongBoxError));

    // an export is a value like any other
    assert!(term_eq(&export, &export.clone()));
    assert!(!term_eq(&export, &Term::Export(MFA(1, 2, 4))));
    assert_eq!(hash_term(&export), hash_term(&duplicate(&export)));
    assert_ne!(hash_term(&export), hash_term(&Term::Export(MFA(1, 3, 2))));
}

#[test]
fn names_are_written_out() {
    let atoms = AtomTable::new();
    assert_eq!(MFA(atom::BEAM_LIB, atom::MD5, 1).to_string(&atoms), "beam_lib:md5/1");
    assert_eq!(MFA(atom::OK, atom::ERROR, 4_000_000_123).to_string(&atoms), "ok:error/4000000123");
    assert_eq!(decimal(0), "0");
    assert_eq!(decimal(7), "7");
    assert_eq!(decimal(10), "10");
    assert_eq!(decimal(909), "909");
    assert_eq!(decimal(u32::MAX), "4294967295");
    assert_eq!(Export::Fun(InstrPtr { module: 1, ptr: 2 }).to_string(), "Export(fn)");
    assert_eq!(Export::Bif(3).to_string(), "Export(bif)");
}
