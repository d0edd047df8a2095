use enigma::atom::{
    ATTRIBUTES, BADFILE, BEAM_LIB, ERROR, EXPORTS, FALSE, FUNCTIONS, MD5, MODULE, NATIVE, OK, TRUE,
};
use enigma::bif::load::{
    erts_internal_purge_module_2, finish_loading_1, get_module_info, get_module_info_1,
    get_module_info_2, has_prepared_code_on_load_1, maybe_uncompress, pre_loaded_0,
    prepare_loading_2, prepared, Prepare,
};
use enigma::bitstring::{Binary, BinaryTable};
use enigma::exception::Reason;
use enigma::exports_table::{Export, ExportsTable};
use enigma::instr_ptr::InstrPtr;
use enigma::module::{
    finish_loading_modules, load_decoded, Instruction, Module, NifError, Source, MFA,
};
use enigma::process::Process;
use enigma::value::{Cons, Term};
use enigma::vm::Machine;
use std::io::Write;

const FOO: u32 = 100;
const BAR: u32 = 101;
const BAZ: u32 = 102;
const LISTS: u32 = 103;

fn module(name: u32, exports: Vec<MFA>, funs: Vec<((u32, u32), u32)>) -> Module {
    let mut m = Module {
        imports: vec![],
        exports,
        constants: vec![Term::atom(FOO), Term::atom(BAR)],
        literals: vec![],
        literal_heap: BinaryTable::new(),
        lambdas: vec![],
        funs: enigma::exports_table::table_of(&[]),
        instructions: vec![
            Instruction::FuncInfo { function: Source::Constant(0), arity: 1 },
            Instruction::Other(1),
            Instruction::FuncInfo { function: Source::Constant(1), arity: 2 },
            Instruction::Other(2),
            Instruction::FuncInfo { function: Source::Constant(1), arity: 3 },
        ],
        lines: vec![],
        name,
        on_load: None,
        attrs: Term::nil(),
    };
    let entries: Vec<((u32, u32, u32), (u32, u32, u32))> =
        funs.iter().map(|((f, a), o)| ((*f, *a, 0), (*o, 0, 0))).collect();
    m.funs = enigma::exports_table::table_of(&entries);
    m
}

fn items(list: &Term) -> Vec<Term> {
    let mut out = Vec::new();
    let mut cur = list;
    while let Term::Cons(cell) = cur {
        out.push(cell.head.clone());
        cur = &cell.tail;
    }
    assert_eq!(cur, &Term::Nil);
    out
}

fn gzip(data: &[u8]) -> Vec<u8> {
    let mut encoder = libflate::gzip::Encoder::new(Vec::new()).unwrap();
    encoder.write_all(data).unwrap();
    encoder.finish().into_result().unwrap()
}

#[test]
fn gzip_is_detected() {
    let beam = b"FOR1\x00\x00\x00\x04BEAM and what follows".to_vec();
    assert_eq!(maybe_uncompress(beam.clone()), Some(beam.clone()));
    let packed = gzip(&beam);
    assert_eq!(packed[0..2], [0x1f, 0x8b]);
    assert_ne!(packed, beam);
    assert_eq!(maybe_uncompress(packed.clone()), Some(beam.clone()));
    // what starts like a gzip stream and is none
    assert_eq!(maybe_uncompress(vec![0x1f, 0x8b, 1, 2, 3]), None);
    // too short to be one
    assert_eq!(maybe_uncompress(vec![0x1f, 0x8b]), Some(vec![0x1f, 0x8b]));
    assert_eq!(maybe_uncompress(vec![]), Some(vec![]));

    let vm = Machine::new(&[]);
    let mut process = Process::new(0);
    let plain = Term::Binary(process.context.binaries.add(Binary::from(beam.clone())));
    let zipped = Term::Binary(process.context.binaries.add(Binary::from(packed)));
    let broken = Term::Binary(process.context.binaries.add(Binary::from(vec![0x1f, 0x8b, 0])));
    let name = Term::atom(FOO);
    for code in [plain, zipped] {
        match prepare_loading_2(&vm, &process, &[name.clone(), code]).unwrap() {
            Prepare::Decode(bytes) => assert_eq!(bytes, beam),
            other => panic!("{:?}", other),
        }
    }
    match prepare_loading_2(&vm, &process, &[name.clone(), broken]).unwrap() {
        Prepare::Answer(t) => assert_eq!(t, Term::tup2(Term::atom(ERROR), Term::atom(BADFILE))),
        other => panic!("{:?}", other),
    }
    match prepare_loading_2(&vm, &process, &[name.clone(), name]) {
        Err(e) => assert_eq!(e.reason, Reason::EXC_BADARG),
        Ok(other) => panic!("{:?}", other),
    }
}

#[test]
fn prepared_modules_are_loaded() {
    let mut vm = Machine::new(&[(MFA(FOO, BAR, 2), 9)]);
    let process = Process::new(0);
    assert_eq!(
        prepared(&mut vm, None),
        Term::tup2(Term::atom(ERROR), Term::atom(BADFILE))
    );
    let mut with_on_load = module(FOO, vec![MFA(FOO, 1, 0), MFA(BAR, 2, 0)], vec![
        ((FOO, 1), 10),
        ((BAR, 2), 20),
    ]);
    with_on_load.on_load = Some(4);
    let first = prepared(&mut vm, Some(with_on_load));
    let second = prepared(&mut vm, Some(module(LISTS, vec![MFA(BAZ, 0, 0)], vec![((BAZ, 0), 7)])));
    assert_eq!(first, Term::Module(0));
    assert_eq!(second, Term::Module(1));
    assert_eq!(
        has_prepared_code_on_load_1(&vm, &process, &[first.clone()]),
        Ok(Term::atom(TRUE))
    );
    assert_eq!(
        has_prepared_code_on_load_1(&vm, &process, &[second.clone()]),
        Ok(Term::atom(FALSE))
    );
    assert!(has_prepared_code_on_load_1(&vm, &process, &[Term::Module(2)]).is_err());
    assert!(has_prepared_code_on_load_1(&vm, &process, &[Term::atom(FOO)]).is_err());

    // nothing is loaded where the list is bad
    let bad = Cons::from_iter(vec![first.clone(), Term::atom(FOO)]);
    assert!(finish_loading_1(&mut vm, &process, &[bad]).is_err());
    let twice = Cons::from_iter(vec![first.clone(), first.clone()]);
    assert!(finish_loading_1(&mut vm, &process, &[twice]).is_err());
    assert!(finish_loading_1(&mut vm, &process, &[Term::atom(FOO)]).is_err());
    assert_eq!(vm.modules.slots.len(), 0);
    assert!(vm.prepared[0].is_some());

    let both = Cons::from_iter(vec![first.clone(), second]);
    assert_eq!(finish_loading_1(&mut vm, &process, &[both]), Ok(Term::atom(OK)));
    assert_eq!(vm.modules.slots.len(), 2);
    assert!(vm.prepared[0].is_none() && vm.prepared[1].is_none());
    // a module is loaded once
    let again = Cons::from_iter(vec![first]);
    assert!(finish_loading_1(&mut vm, &process, &[again]).is_err());

    // export precedence: the built-in function stays, the bytecode is registered
    assert_eq!(vm.exports.lookup(&MFA(FOO, BAR, 2)), Some(Export::Bif(9)));
    assert_eq!(
        vm.exports.lookup(&MFA(FOO, FOO, 1)),
        Some(Export::Fun(InstrPtr { module: FOO, ptr: 10 }))
    );
    assert_eq!(
        vm.exports.lookup(&MFA(LISTS, BAZ, 0)),
        Some(Export::Fun(InstrPtr { module: LISTS, ptr: 7 }))
    );
    assert_eq!(vm.exports.lookup(&MFA(LISTS, BAZ, 1)), None);
}

#[test]
fn exports_without_an_offset_are_left_out() {
    let mut exports = ExportsTable::new();
    let m = module(FOO, vec![MFA(FOO, 1, 0), MFA(BAR, 2, 0)], vec![((FOO, 1), 3)]);
    m.process_exports(&mut exports);
    assert_eq!(
        exports.lookup(&MFA(FOO, FOO, 1)),
        Some(Export::Fun(InstrPtr { module: FOO, ptr: 3 }))
    );
    assert_eq!(exports.lookup(&MFA(FOO, BAR, 2)), None);
}

#[test]
fn module_info() {
    let mut vm = Machine::new(&[]);
    let process = Process::new(0);
    let mut m = module(FOO, vec![MFA(FOO, 1, 0), MFA(BAR, 2, 0)], vec![
        ((FOO, 1), 10),
        ((BAR, 2), 20),
        ((BAZ, 0), 30),
    ]);
    m.attrs = Cons::from_iter(vec![Term::small(1)]);
    finish_loading_modules(&mut vm, vec![m]);
    let name = Term::atom(FOO);
    let info = |key: u32| get_module_info_2(&vm, &process, &[name.clone(), Term::atom(key)]);
    assert_eq!(info(MODULE), Ok(Term::atom(FOO)));
    assert_eq!(info(NATIVE), Ok(Term::atom(FALSE)));
    assert_eq!(info(ATTRIBUTES), Ok(Cons::from_iter(vec![Term::small(1)])));
    assert_eq!(
        items(&info(EXPORTS).unwrap()),
        vec![
            Term::tup2(Term::atom(FOO), Term::small(1)),
            Term::tup2(Term::atom(BAR), Term::small(2))
        ]
    );
    let mut functions = items(&info(FUNCTIONS).unwrap());
    functions.sort_by_key(|t| format!("{:?}", t));
    assert_eq!(
        functions,
        vec![
            Term::tup2(Term::atom(FOO), Term::small(1)),
            Term::tup2(Term::atom(BAR), Term::small(2)),
            Term::tup2(Term::atom(BAZ), Term::small(0))
        ]
    );
    // unknown keys fail
    assert!(info(MD5).is_err());
    assert!(info(OK).is_err());
    assert!(get_module_info_2(&vm, &process, &[name.clone(), Term::small(1)]).is_err());
    assert!(get_module_info_2(&vm, &process, &[Term::atom(BAR), Term::atom(MODULE)]).is_err());
    assert!(get_module_info_2(&vm, &process, &[Term::small(1), Term::atom(MODULE)]).is_err());
    assert!(get_module_info(&vm.modules.slots[0], &Term::nil()).is_err());

    let all = items(&get_module_info_1(&vm, &process, &[name.clone()]).unwrap());
    assert_eq!(all.len(), 4);
    assert_eq!(all[0], Term::tup2(Term::atom(MODULE), Term::atom(FOO)));
    assert_eq!(all[1], Term::tup2(Term::atom(EXPORTS), info(EXPORTS).unwrap()));
    assert_eq!(all[2], Term::tup2(Term::atom(ATTRIBUTES), info(ATTRIBUTES).unwrap()));
    assert_eq!(all[3], Term::tup2(Term::atom(NATIVE), Term::atom(FALSE)));
    assert!(get_module_info_1(&vm, &process, &[Term::atom(BAR)]).is_err());
    assert!(get_module_info_1(&vm, &process, &[Term::nil()]).is_err());

}

#[test]
fn the_module_registered_last_counts() {
    let mut vm = Machine::new(&[]);
    let process = Process::new(0);
    finish_loading_modules(&mut vm, vec![module(FOO, vec![MFA(FOO, 1, 0)], vec![])]);
    finish_loading_modules(&mut vm, vec![module(FOO, vec![], vec![])]);
    assert_eq!(
        get_module_info_2(&vm, &process, &[Term::atom(FOO), Term::atom(EXPORTS)]),
        Ok(Term::nil())
    );
}

#[test]
fn native_functions_are_patched_in() {
    let mut m = module(BEAM_LIB, vec![], vec![]);
    assert_eq!(m.load_nifs(&[(BAR, 2, 77)]), Ok(()));
    assert_eq!(m.instructions[3], Instruction::CallBifOnly { arity: 2, bif: 77 });
    assert_eq!(m.instructions[1], Instruction::Other(1));
    assert_eq!(m.imports, vec![MFA(BEAM_LIB, BAR, 2)]);
    assert_eq!(m.load_nif(BAZ, 0, 1), Err(NifError::StubNotFound));
    assert_eq!(m.load_nif(FOO, 2, 1), Err(NifError::StubNotFound));
    // the head of bar/3 is the last instruction
    assert_eq!(m.load_nif(BAR, 3, 1), Err(NifError::NoBody));
    assert_eq!(m.load_nifs(&[(FOO, 1, 5), (BAZ, 9, 6), (BAR, 2, 7)]), Err(NifError::StubNotFound));
    assert_eq!(m.instructions[1], Instruction::CallBifOnly { arity: 1, bif: 5 });
    assert_eq!(m.instructions[3], Instruction::CallBifOnly { arity: 2, bif: 77 });
    assert_eq!(m.imports.len(), 2);

    // loading beam_lib patches the native functions that the machine knows
    let mut vm = Machine::new(&[]);
    vm.beam_lib_nifs = vec![(FOO, 1, 42)];
    finish_loading_modules(&mut vm, vec![module(BEAM_LIB, vec![], vec![]), module(FOO, vec![], vec![])]);
    assert_eq!(
        vm.modules.slots[0].instructions[1],
        Instruction::CallBifOnly { arity: 1, bif: 42 }
    );
    assert_eq!(vm.modules.slots[1].instructions[1], Instruction::Other(1));
}

#[test]
fn pre_loaded_and_purge() {
    let mut vm = Machine::new(&[]);
    let process = Process::new(0);
    assert_eq!(pre_loaded_0(&vm, &process, &[]), Ok(Term::nil()));
    vm.pre_loaded = vec![FOO, BAR];
    assert_eq!(
        pre_loaded_0(&vm, &process, &[]),
        Ok(Cons::from_iter(vec![Term::atom(FOO), Term::atom(BAR)]))
    );
    assert_eq!(
        erts_internal_purge_module_2(&vm, &process, &[Term::atom(FOO), Term::atom(OK)]),
        Ok(Term::atom(TRUE))
    );
}

#[test]
fn a_loaded_module_leaves_the_built_in_functions() {
    let mut vm = Machine::new(&[(MFA(FOO, BAR, 2), 9)]);
    vm.beam_lib_nifs = vec![(FOO, 1, 42)];
    let m = module(FOO, vec![MFA(FOO, 1, 0), MFA(BAR, 2, 0)], vec![((FOO, 1), 10), ((BAR, 2), 20)]);
    assert_eq!(load_decoded(&mut vm, m), 0);
    assert_eq!(load_decoded(&mut vm, module(BEAM_LIB, vec![], vec![])), 1);
    assert_eq!(vm.modules.slots.len(), 2);
    assert_eq!(vm.modules.slots[0].name, FOO);
    assert_eq!(vm.exports.lookup(&MFA(FOO, BAR, 2)), Some(Export::Bif(9)));
    assert_eq!(
        vm.exports.lookup(&MFA(FOO, FOO, 1)),
        Some(Export::Fun(InstrPtr { module: FOO, ptr: 10 }))
    );
    // native functions are patched in when loading is finished, not here
    assert_eq!(vm.modules.slots[1].instructions[1], Instruction::Other(1));
}

#[test]
fn functions_are_listed_once() {
    let mut m = module(FOO, vec![], vec![((FOO, 1), 10), ((BAR, 2), 20)]);
    // what is kept beside the functions is no function
    m.funs = enigma::exports_table::table_of(&[
        ((FOO, 1, 0), (10, 0, 0)),
        ((FOO, 1, 7), (11, 0, 0)),
        ((BAR, 2, 0), (20, 0, 0)),
        ((BAR, 2, 0), (21, 0, 0)),
        ((BAZ, 0, 1), (30, 0, 0)),
    ]);
    let mut functions = items(&get_module_info(&m, &Term::atom(FUNCTIONS)).unwrap());
    functions.sort_by_key(|t| format!("{:?}", t));
    assert_eq!(
        functions,
        vec![
            Term::tup2(Term::atom(FOO), Term::small(1)),
            Term::tup2(Term::atom(BAR), Term::small(2)),
        ]
    );
}
