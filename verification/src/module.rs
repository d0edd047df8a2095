//! Loaded modules and how they enter the exports table.
use crate::atom::{self, AtomTable};
use crate::bitstring::BinaryTable;
use crate::exports_table::{contents, table_get, Export, ExportsTable, Table};
use crate::instr_ptr::InstrPtr;
use crate::value::{Term, WrongBoxError};
use crate::vm::Machine;
use vstd::prelude::*;
use vstd::string::StringExecFns;

verus! {

/// Module, function and arity: the name under which a function is called.
#[derive(Debug, Copy, Clone, PartialEq, Eq, Hash, Ord, PartialOrd, Structural)]
pub struct MFA(pub u32, pub u32, pub u32);

/// The character of a decimal digit.
pub open spec fn digit_char(d: int) -> char {
    if d == 0 {
        '0'
    } else if d == 1 {
        '1'
    } else if d == 2 {
        '2'
    } else if d == 3 {
        '3'
    } else if d == 4 {
        '4'
    } else if d == 5 {
        '5'
    } else if d == 6 {
        '6'
    } else if d == 7 {
        '7'
    } else if d == 8 {
        '8'
    } else {
        '9'
    }
}

/// The decimal digits of a number, without leading zeros.
pub open spec fn decimal_digits(n: nat) -> Seq<char>
    decreases n,
{
    if n < 10 {
        seq![digit_char(n as int)]
    } else {
        decimal_digits(n / 10).push(digit_char((n % 10) as int))
    }
}

fn digit(d: u32) -> (r: &'static str)
    requires
        d < 10,
    ensures
        r@ == seq![digit_char(d as int)],
{
    proof {
        reveal_strlit("0");
        reveal_strlit("1");
        reveal_strlit("2");
        reveal_strlit("3");
        reveal_strlit("4");
        reveal_strlit("5");
        reveal_strlit("6");
        reveal_strlit("7");
        reveal_strlit("8");
        reveal_strlit("9");
    }
    let r: &'static str = if d == 0 {
        "0"
    } else if d == 1 {
        "1"
    } else if d == 2 {
        "2"
    } else if d == 3 {
        "3"
    } else if d == 4 {
        "4"
    } else if d == 5 {
        "5"
    } else if d == 6 {
        "6"
    } else if d == 7 {
        "7"
    } else if d == 8 {
        "8"
    } else {
        "9"
    };
    assert(r@ =~= seq![digit_char(d as int)]);
    r
}

/// The number in decimal.
pub fn decimal(n: u32) -> (r: String)
    ensures
        r@ == decimal_digits(n as nat),
    decreases n,
{
    if n < 10 {
        String::from_str(digit(n))
    } else {
        let mut r = decimal(n / 10);
        r.append(digit(n % 10));
        assert(r@ =~= decimal_digits(n as nat));
        r
    }
}

impl MFA {
    /// The name as it is written: `module:function/arity`, with the names
    /// of the two atoms.
    pub fn to_string(&self, atoms: &AtomTable) -> (r: String)
        requires
            self.0 < atoms.names.len(),
            self.1 < atoms.names.len(),
        ensures
            r@ == atoms.names[self.0 as int]@ + seq![':'] + atoms.names[self.1 as int]@ + seq![
                '/',
            ] + decimal_digits(self.2 as nat),
    {
        proof {
            reveal_strlit(":");
            reveal_strlit("/");
            assert(":"@ =~= seq![':']);
            assert("/"@ =~= seq!['/']);
        }
        let mut r = String::from_str(atoms.names[self.0 as usize].as_str());
        r.append(":");
        r.append(atoms.names[self.1 as usize].as_str());
        r.append("/");
        r.append(decimal(self.2).as_str());
        r
    }

    /// The name that an export term holds.
    pub fn cast_from(value: &Term) -> (r: Result<&MFA, WrongBoxError>)
        ensures
            match r {
                Ok(mfa) => *value == Term::Export(*mfa),
                Err(_) => !(value is Export),
            },
    {
        match value {
            Term::Export(mfa) => Ok(mfa),
            _ => Err(WrongBoxError),
        }
    }
}

/// What a closure is made from.
#[derive(Debug, Copy, Clone, PartialEq, Eq, Structural)]
pub struct Lambda {
    pub name: u32,
    pub arity: u32,
    pub offset: u32,
    pub index: u32,
    /// frozen values for closures
    pub nfree: u32,
    pub ouniq: u32,
}

/// Where an instruction takes an operand from.
#[derive(Debug, Copy, Clone, PartialEq, Eq, Structural)]
pub enum Source {
    /// The constant of the module with this index.
    Constant(u32),
    /// A register, known by its number.
    Register(u32),
}

/// An instruction, as far as loading looks at it.
#[derive(Debug, Copy, Clone, PartialEq, Eq, Structural)]
pub enum Instruction {
    /// The head of a function: its name and its arity.
    FuncInfo { function: Source, arity: u8 },
    /// A call of a built-in function that returns to the caller's caller.
    CallBifOnly { arity: u8, bif: u32 },
    /// Any other instruction, known by its opcode.
    Other(u32),
}

/// A line of the source, for messages.
#[derive(Debug, Copy, Clone, PartialEq, Eq, Structural)]
pub struct Line {
    pub file: u32,
    pub line: u32,
}

/// A module as the loader decoded it.
pub struct Module {
    /// mod, func, arity
    pub imports: Vec<MFA>,
    /// func, arity, label
    pub exports: Vec<MFA>,
    /// Like the literals, but immediates.
    pub constants: Vec<Term>,
    pub literals: Vec<Term>,
    /// The binaries that the literals view.
    pub literal_heap: BinaryTable,
    pub lambdas: Vec<Lambda>,
    /// (fun name as atom, arity) -> offset
    pub funs: Table,
    pub instructions: Vec<Instruction>,
    /// debugging info
    pub lines: Vec<Line>,
    /// Atom name of the module.
    pub name: u32,
    pub on_load: Option<u32>,
    /// The attributes of the module, a term.
    pub attrs: Term,
}

/// The key under which a module keeps the offset of a function.
pub open spec fn fun_key(function: u32, arity: u32) -> (u32, u32, u32) {
    (function, arity, 0u32)
}

/// The exports table after one export of a module was processed: a function
/// that is no built-in function, and whose offset the module knows, runs the
/// module's bytecode. A built-in function stays what it is.
pub open spec fn with_export(
    table: Map<MFA, Export>,
    name: u32,
    funs: Map<(u32, u32, u32), (u32, u32, u32)>,
    export: MFA,
) -> Map<MFA, Export> {
    let mfa = MFA(name, export.0, export.1);
    let key = fun_key(export.0, export.1);
    if (table.dom().contains(mfa) && table[mfa] is Bif) || !funs.dom().contains(key) {
        table
    } else {
        table.insert(mfa, Export::Fun(InstrPtr { module: name, ptr: funs[key].0 }))
    }
}

/// The exports table after the exports of a module were processed, one
/// after the other.
pub open spec fn with_exports(
    table: Map<MFA, Export>,
    name: u32,
    funs: Map<(u32, u32, u32), (u32, u32, u32)>,
    exports: Seq<MFA>,
) -> Map<MFA, Export>
    decreases exports.len(),
{
    if exports.len() == 0 {
        table
    } else {
        with_export(with_exports(table, name, funs, exports.drop_last()), name, funs, exports.last())
    }
}

/// Processing exports never touches a built-in function.
pub proof fn lemma_bif_precedence(
    table: Map<MFA, Export>,
    name: u32,
    funs: Map<(u32, u32, u32), (u32, u32, u32)>,
    exports: Seq<MFA>,
    mfa: MFA,
)
    requires
        table.dom().contains(mfa),
        table[mfa] is Bif,
    ensures
        with_exports(table, name, funs, exports).dom().contains(mfa),
        with_exports(table, name, funs, exports)[mfa] == table[mfa],
    decreases exports.len(),
{
    if exports.len() > 0 {
        lemma_bif_precedence(table, name, funs, exports.drop_last(), mfa);
    }
}

/// The instruction is the head of the function with this name and arity.
pub open spec fn is_stub(ins: Instruction, constants: Seq<Term>, name: u32, arity: u32) -> bool {
    ins matches Instruction::FuncInfo { function: Source::Constant(n), arity: a } && n
        < constants.len() && constants[n as int] == Term::Atom(name) && a as u32 == arity
}

/// Why native functions could not be patched into a module.
#[derive(Debug, Copy, Clone, PartialEq, Eq, Structural)]
pub enum NifError {
    /// The module has no function of this name and arity.
    StubNotFound,
    /// No instruction follows the head of the function.
    NoBody,
    /// A call instruction cannot hold the arity.
    ArityTooLarge,
}

/// Where the head of the function with this name and arity stands among
/// the instructions from `from` on: the first such instruction.
pub open spec fn first_stub(
    instructions: Seq<Instruction>,
    constants: Seq<Term>,
    name: u32,
    arity: u32,
    from: int,
) -> Option<int>
    decreases instructions.len() - from,
{
    if from < 0 || from >= instructions.len() {
        None
    } else if is_stub(instructions[from], constants, name, arity) {
        Some(from)
    } else {
        first_stub(instructions, constants, name, arity, from + 1)
    }
}

/// The instructions with one native function patched in: the instruction
/// after the head of the function is a call of the native function.
pub open spec fn patched(
    instructions: Seq<Instruction>,
    constants: Seq<Term>,
    name: u32,
    arity: u32,
    fun: u32,
) -> Result<Seq<Instruction>, NifError> {
    match first_stub(instructions, constants, name, arity, 0) {
        None => Err(NifError::StubNotFound),
        Some(i) => if arity > 255 {
            Err(NifError::ArityTooLarge)
        } else if i + 1 >= instructions.len() {
            Err(NifError::NoBody)
        } else {
            Ok(instructions.update(i + 1, Instruction::CallBifOnly { arity: arity as u8, bif: fun }))
        },
    }
}

/// The instructions with native functions patched in, one after the other,
/// up to the first that cannot be patched; how many were patched; and why
/// the next one could not be, if one could not.
pub open spec fn patched_all(
    instructions: Seq<Instruction>,
    constants: Seq<Term>,
    nifs: Seq<(u32, u32, u32)>,
) -> (Seq<Instruction>, int, Option<NifError>)
    decreases nifs.len(),
{
    if nifs.len() == 0 {
        (instructions, 0, None)
    } else {
        match patched(instructions, constants, nifs[0].0, nifs[0].1, nifs[0].2) {
            Ok(next) => {
                let rest = patched_all(next, constants, nifs.drop_first());
                (rest.0, rest.1 + 1, rest.2)
            },
            Err(e) => (instructions, 0, Some(e)),
        }
    }
}

/// The imports that patching the first `n` native functions adds.
pub open spec fn nif_imports(module: u32, nifs: Seq<(u32, u32, u32)>, n: int) -> Seq<MFA> {
    Seq::new(n as nat, |i: int| MFA(module, nifs[i].0, nifs[i].1))
}

impl Module {
    /// The slot of the prepared module that a term names.
    pub fn cast_from(value: &Term) -> (r: Result<usize, WrongBoxError>)
        ensures
            match r {
                Ok(slot) => *value == Term::Module(slot),
                Err(_) => !(value is Module),
            },
    {
        match value {
            Term::Module(slot) => Ok(*slot),
            _ => Err(WrongBoxError),
        }
    }

    /// Enters the exports of the module into the exports table. A built-in
    /// function of the same name overrides the bytecode: its entry stays.
    pub fn process_exports(&self, exports: &mut ExportsTable)
        ensures
            final(exports)@ == with_exports(
                old(exports)@,
                self.name,
                contents(self.funs),
                self.exports@,
            ),
    {
        let mut i: usize = 0;
        assert(self.exports@.subrange(0, 0) =~= Seq::<MFA>::empty());
        while i < self.exports.len()
            invariant
                i <= self.exports.len(),
                exports@ == with_exports(
                    old(exports)@,
                    self.name,
                    contents(self.funs),
                    self.exports@.subrange(0, i as int),
                ),
            decreases self.exports.len() - i,
        {
            // a bit awkward, export is (func, arity, label),
            // we need (module, func, arity).
            let export: MFA = self.exports[i];
            let mfa = MFA(self.name, export.0, export.1);
            let is_bif: bool = match exports.lookup(&mfa) {
                Some(Export::Bif(_)) => true,
                _ => false,
            };
            if !is_bif {
                // only export if there's no bif override
                match table_get(&self.funs, (export.0, export.1, 0)) {
                    Some(offset) => {
                        exports.register(mfa, InstrPtr { module: self.name, ptr: offset.0 });
                    },
                    None => {},
                }
            }
            assert(self.exports@.subrange(0, i + 1).drop_last() =~= self.exports@.subrange(
                0,
                i as int,
            ));
            i = i + 1;
        }
        assert(self.exports@.subrange(0, self.exports.len() as int) =~= self.exports@);
    }

    /// Where the head of the function with this name and arity stands among
    /// the instructions: the first such instruction.
    fn find_stub(&self, name: u32, arity: u32) -> (r: Option<usize>)
        ensures
            r matches Some(i) ==> i < self.instructions.len(),
            first_stub(self.instructions@, self.constants@, name, arity, 0) == (match r {
                Some(i) => Some(i as int),
                None => None,
            }),
    {
        let mut i: usize = 0;
        while i < self.instructions.len()
            invariant
                i <= self.instructions.len(),
                first_stub(self.instructions@, self.constants@, name, arity, 0) == first_stub(
                    self.instructions@,
                    self.constants@,
                    name,
                    arity,
                    i as int,
                ),
            decreases self.instructions.len() - i,
        {
            let found: bool = match self.instructions[i] {
                Instruction::FuncInfo { function: Source::Constant(n), arity: a } => {
                    (n as usize) < self.constants.len() && (match &self.constants[n as usize] {
                        Term::Atom(x) => *x == name,
                        _ => false,
                    }) && a as u32 == arity
                },
                _ => false,
            };
            if found {
                return Some(i);
            }
            i = i + 1;
        }
        None
    }

    /// Patches one native function into the module: the instruction after
    /// the head of the function becomes a call of the native function, and
    /// the function joins the imports.
    pub fn load_nif(&mut self, name: u32, arity: u32, fun: u32) -> (r: Result<(), NifError>)
        ensures
            match patched(old(self).instructions@, old(self).constants@, name, arity, fun) {
                Ok(next) => r is Ok && final(self).instructions@ == next && final(self).imports@
                    == old(self).imports@.push(MFA(old(self).name, name, arity)),
                Err(e) => r == Err::<(), NifError>(e) && final(self).instructions == old(self).instructions && final(self).imports == old(self).imports,
            },
            final(self).name == old(self).name,
            final(self).constants == old(self).constants,
            final(self).exports == old(self).exports,
            final(self).funs == old(self).funs,
            final(self).literals == old(self).literals,
            final(self).lambdas == old(self).lambdas,
            final(self).lines == old(self).lines,
            final(self).on_load == old(self).on_load,
            final(self).attrs == old(self).attrs,
    {
        // find func_info
        match self.find_stub(name, arity) {
            Some(i) => {
                if arity > 255 {
                    return Err(NifError::ArityTooLarge);
                }
                if i + 1 >= self.instructions.len() {
                    return Err(NifError::NoBody);
                }
                let mfa = MFA(self.name, name, arity);
                self.imports.push(mfa);
                // replace instruction immediately after with call_nif
                self.instructions.set(
                    i + 1,
                    Instruction::CallBifOnly { arity: arity as u8, bif: fun },
                );
                Ok(())
            },
            None => Err(NifError::StubNotFound),
        }
    }

    /// Patches native functions into the module, one after the other, and
    /// stops at the first that cannot be patched.
    pub fn load_nifs(&mut self, nifs: &[(u32, u32, u32)]) -> (r: Result<(), NifError>)
        ensures
            ({
                let all = patched_all(old(self).instructions@, old(self).constants@, nifs@);
                &&& final(self).instructions@ == all.0
                &&& final(self).imports@ == old(self).imports@ + nif_imports(
                    old(self).name,
                    nifs@,
                    all.1,
                )
                &&& r == (match all.2 {
                    Some(e) => Err::<(), NifError>(e),
                    None => Ok::<(), NifError>(()),
                })
            }),
            final(self).name == old(self).name,
            final(self).constants == old(self).constants,
            final(self).exports == old(self).exports,
            final(self).funs == old(self).funs,
            final(self).literals == old(self).literals,
            final(self).lambdas == old(self).lambdas,
            final(self).lines == old(self).lines,
            final(self).on_load == old(self).on_load,
            final(self).attrs == old(self).attrs,
    {
        let mut i: usize = 0;
        let ghost start = self.instructions@;
        let ghost consts = self.constants@;
        proof {
            assert(nifs@.subrange(0, nifs@.len() as int) =~= nifs@);
            assert(self.imports@ =~= old(self).imports@ + nif_imports(old(self).name, nifs@, 0));
        }
        while i < nifs.len()
            invariant
                i <= nifs.len(),
                start == old(self).instructions@,
                consts == old(self).constants@,
                self.name == old(self).name,
                self.constants == old(self).constants,
                self.exports == old(self).exports,
                self.funs == old(self).funs,
                self.literals == old(self).literals,
                self.lambdas == old(self).lambdas,
                self.lines == old(self).lines,
                self.on_load == old(self).on_load,
                self.attrs == old(self).attrs,
                self.imports@ == old(self).imports@ + nif_imports(old(self).name, nifs@, i as int),
                ({
                    let rest = patched_all(
                        self.instructions@,
                        consts,
                        nifs@.subrange(i as int, nifs@.len() as int),
                    );
                    patched_all(start, consts, nifs@) == (rest.0, rest.1 + i, rest.2)
                }),
            decreases nifs.len() - i,
        {
            let (name, arity, fun) = nifs[i];
            let ghost tail = nifs@.subrange(i as int, nifs@.len() as int);
            proof {
                assert(tail[0] == nifs@[i as int]);
                assert(tail.drop_first() =~= nifs@.subrange(i + 1, nifs@.len() as int));
            }
            match self.load_nif(name, arity, fun) {
                Ok(_) => {
                    proof {
                        assert(self.imports@ =~= old(self).imports@ + nif_imports(
                            old(self).name,
                            nifs@,
                            i + 1,
                        ));
                    }
                },
                Err(e) => {
                    return Err(e);
                },
            }
            i = i + 1;
        }
        proof {
            assert(nifs@.subrange(nifs@.len() as int, nifs@.len() as int) =~= Seq::<
                (u32, u32, u32),
            >::empty());
        }
        Ok(())
    }
}

/// Every built-in function of `before` is in `after` what it was.
pub open spec fn bifs_kept(before: Map<MFA, Export>, after: Map<MFA, Export>) -> bool {
    forall|mfa: MFA|
        before.dom().contains(mfa) && (#[trigger] before[mfa]) is Bif ==> after.dom().contains(mfa)
            && after[mfa] == before[mfa]
}

/// Export precedence: a table that kept the built-in functions keeps them
/// when the exports of one more module are processed.
pub proof fn lemma_bifs_kept(
    before: Map<MFA, Export>,
    current: Map<MFA, Export>,
    name: u32,
    funs: Map<(u32, u32, u32), (u32, u32, u32)>,
    exports: Seq<MFA>,
)
    requires
        bifs_kept(before, current),
    ensures
        bifs_kept(before, with_exports(current, name, funs, exports)),
{
    assert forall|mfa: MFA|
        before.dom().contains(mfa) && (#[trigger] before[mfa]) is Bif implies with_exports(
        current,
        name,
        funs,
        exports,
    ).dom().contains(mfa) && with_exports(current, name, funs, exports)[mfa] == before[mfa] by {
        lemma_bif_precedence(current, name, funs, exports, mfa);
    }
}

/// Loads a decoded module: it enters the registry under its name, in a new
/// slot, and its exports enter the exports table. A built-in function of
/// the same name keeps its entry. The slot comes back.
pub fn load_decoded(vm: &mut Machine, module: Module) -> (slot: usize)
    ensures
        slot == old(vm).modules.slots.len(),
        final(vm).modules.slots@ == old(vm).modules.slots@.push(module),
        final(vm).exports@ == with_exports(
            old(vm).exports@,
            module.name,
            contents(module.funs),
            module.exports@,
        ),
        bifs_kept(old(vm).exports@, final(vm).exports@),
        final(vm).next_ref == old(vm).next_ref,
        final(vm).prepared == old(vm).prepared,
        final(vm).pre_loaded == old(vm).pre_loaded,
        final(vm).beam_lib_nifs == old(vm).beam_lib_nifs,
{
    module.process_exports(&mut vm.exports);
    proof {
        lemma_bifs_kept(
            old(vm).exports@,
            old(vm).exports@,
            module.name,
            contents(module.funs),
            module.exports@,
        );
    }
    vm.modules.add_module(module)
}

/// The exports table after the exports of the modules were processed, one
/// module after the other.
pub open spec fn exports_after(table: Map<MFA, Export>, modules: Seq<Module>) -> Map<MFA, Export>
    decreases modules.len(),
{
    if modules.len() == 0 {
        table
    } else {
        with_exports(
            exports_after(table, modules.drop_last()),
            modules.last().name,
            contents(modules.last().funs),
            modules.last().exports@,
        )
    }
}

/// The tables of all the modules keep the built-in functions.
pub proof fn lemma_exports_after(table: Map<MFA, Export>, modules: Seq<Module>)
    ensures
        bifs_kept(table, exports_after(table, modules)),
    decreases modules.len(),
{
    if modules.len() > 0 {
        lemma_exports_after(table, modules.drop_last());
        lemma_bifs_kept(
            table,
            exports_after(table, modules.drop_last()),
            modules.last().name,
            contents(modules.last().funs),
            modules.last().exports@,
        );
    }
}

/// The module as the registry holds it after loading: what was loaded, with
/// the native functions patched in where the module is `beam_lib`.
pub open spec fn is_loaded_form(slot: Module, module: Module, nifs: Seq<(u32, u32, u32)>) -> bool {
    &&& slot.name == module.name
    &&& slot.exports == module.exports
    &&& slot.funs == module.funs
    &&& slot.constants == module.constants
    &&& slot.on_load == module.on_load
    &&& slot.attrs == module.attrs
    &&& slot.instructions@ == (if module.name == atom::BEAM_LIB {
        patched_all(module.instructions@, module.constants@, nifs).0
    } else {
        module.instructions@
    })
}

/// Registers the modules, one after the other: each enters the registry
/// under its name and its exports enter the exports table. The module
/// `beam_lib` gets its native functions patched in.
pub fn finish_loading_modules(vm: &mut Machine, modules: Vec<Module>)
    ensures
        final(vm).next_ref == old(vm).next_ref,
        final(vm).prepared == old(vm).prepared,
        final(vm).pre_loaded == old(vm).pre_loaded,
        final(vm).beam_lib_nifs == old(vm).beam_lib_nifs,
        final(vm).exports@ == exports_after(old(vm).exports@, modules@),
        bifs_kept(old(vm).exports@, final(vm).exports@),
        final(vm).modules.slots.len() == old(vm).modules.slots.len() + modules.len(),
        forall|i: int|
            0 <= i < old(vm).modules.slots.len() ==> #[trigger] final(vm).modules.slots[i] == old(vm).modules.slots[i],
        forall|i: int|
            0 <= i < modules.len() ==> is_loaded_form(
                #[trigger] final(vm).modules.slots[old(vm).modules.slots.len() + i],
                modules[i],
                old(vm).beam_lib_nifs@,
            ),
{
    let mut modules = modules;
    let ghost all = modules@;
    let ghost before = vm.exports@;
    let ghost slots0 = vm.modules.slots@;
    let mut done: usize = 0;
    let total: usize = modules.len();
    proof {
        assert(all.subrange(0, 0) =~= Seq::<Module>::empty());
    }
    while modules.len() > 0
        invariant
            vm.next_ref == old(vm).next_ref,
            vm.prepared == old(vm).prepared,
            vm.pre_loaded == old(vm).pre_loaded,
            vm.beam_lib_nifs == old(vm).beam_lib_nifs,
            total == all.len(),
            done + modules.len() == total,
            modules@ == all.subrange(done as int, total as int),
            before == old(vm).exports@,
            slots0 == old(vm).modules.slots@,
            vm.exports@ == exports_after(before, all.subrange(0, done as int)),
            vm.modules.slots.len() == slots0.len() + done,
            forall|i: int| 0 <= i < slots0.len() ==> #[trigger] vm.modules.slots[i] == slots0[i],
            forall|i: int|
                0 <= i < done ==> is_loaded_form(
                    #[trigger] vm.modules.slots[slots0.len() + i],
                    all[i],
                    vm.beam_lib_nifs@,
                ),
        decreases modules.len(),
    {
        let mut module: Module = modules.remove(0);
        proof {
            assert(module == all[done as int]);
            assert(modules@ =~= all.subrange(done + 1, total as int));
            assert(all.subrange(0, done + 1).drop_last() =~= all.subrange(0, done as int));
            assert(all.subrange(0, done + 1).last() == all[done as int]);
        }
        module.process_exports(&mut vm.exports);
        if module.name == atom::BEAM_LIB {
            let _ = module.load_nifs(vm.beam_lib_nifs.as_slice());
        }
        let ghost slots = vm.modules.slots@;
        vm.modules.add_module(module);
        proof {
            assert forall|i: int| 0 <= i < done + 1 implies is_loaded_form(
                #[trigger] vm.modules.slots[slots0.len() + i],
                all[i],
                vm.beam_lib_nifs@,
            ) by {
                if i < done {
                    assert(vm.modules.slots[slots0.len() + i] == slots[slots0.len() + i]);
                }
            }
            assert forall|i: int| 0 <= i < slots0.len() implies #[trigger] vm.modules.slots[i]
                == slots0[i] by {
                assert(vm.modules.slots[i] == slots[i]);
            }
        }
        done = done + 1;
    }
    proof {
        assert(all.subrange(0, total as int) =~= all);
        lemma_exports_after(before, all);
    }
}

} // verus!
