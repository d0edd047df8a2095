//! Built-in functions for loading modules.
use crate::atom;
use crate::bif::binary::{binary_bytes, readable, to_bytes};
use crate::exception::{badarg, Exception, Reason};
use crate::exports_table::{contents, table_keys};
use crate::module::{bifs_kept, exports_after, finish_loading_modules, fun_key, Module, MFA};
use crate::process::Process;
use crate::value::cons::{is_proper, lemma_list_of, list_items, list_of, proper_list};
use crate::value::integer::is_integer;
use crate::value::{Cons, Term, TermView};
use crate::vm::Machine;
use std::io::Read;
use vstd::prelude::*;

verus! {

/// What `libflate::gzip::Decoder` makes of the bytes: the data that they
/// hold compressed, where they are a gzip stream.
pub uninterp spec fn gunzipped(bytes: Seq<u8>) -> Option<Seq<u8>>;

/// `libflate::gzip::Decoder::new` followed by `read_to_end`: the data of a
/// gzip stream, `None` where the bytes are no gzip stream.
#[verifier::external_body]
fn gunzip(bytes: &[u8]) -> (r: Option<Vec<u8>>)
    ensures
        r is Some <==> gunzipped(bytes@) is Some,
        r matches Some(data) ==> gunzipped(bytes@) == Some(data@),
{
    let mut data = Vec::new();
    match libflate::gzip::Decoder::new(bytes) {
        Ok(mut decoder) => match decoder.read_to_end(&mut data) {
            Ok(_) => Some(data),
            Err(_) => None,
        },
        Err(_) => None,
    }
}

/// The bytes start with the two bytes that every gzip stream starts with.
pub open spec fn is_gzip(bytes: Seq<u8>) -> bool {
    bytes.len() > 2 && bytes[0] == 0x1f && bytes[1] == 0x8b
}

/// The bytes of a module file as the loader is to read them: what a gzip
/// stream holds where the bytes are one, the bytes themselves where they do
/// not start like one. `None` for bytes that start like a gzip stream and
/// are none.
pub open spec fn uncompressed(bytes: Seq<u8>) -> Option<Seq<u8>> {
    if is_gzip(bytes) {
        gunzipped(bytes)
    } else {
        Some(bytes)
    }
}

/// Decompresses the bytes of a module file where they are compressed.
pub fn maybe_uncompress(bytes: Vec<u8>) -> (r: Option<Vec<u8>>)
    ensures
        r is Some <==> uncompressed(bytes@) is Some,
        r matches Some(data) ==> uncompressed(bytes@) == Some(data@),
{
    // check for gzip magic header
    if bytes.len() > 2 && bytes[0] == 0x1f && bytes[1] == 0x8b {
        gunzip(bytes.as_slice())
    } else {
        Some(bytes)
    }
}

/// Gzip autodetect: a module file and a gzip stream that holds the file are
/// read as the same bytes, so loading the one succeeds where loading the
/// other does, and gives the same module. This is so for a file that does
/// not itself start like a gzip stream.
pub proof fn lemma_gzip_autodetect(file: Seq<u8>, stream: Seq<u8>)
    requires
        is_gzip(stream),
        gunzipped(stream) == Some(file),
        !is_gzip(file),
    ensures
        uncompressed(stream) == uncompressed(file),
        uncompressed(file) == Some(file),
{
}

/// `erlang:pre_loaded()`: the names of the modules that are loaded before
/// the machine starts.
pub fn pre_loaded_0(vm: &Machine, _process: &Process, _args: &[Term]) -> (r: Result<
    Term,
    Exception,
>)
    ensures
        r matches Ok(t) && t == list_of(
            Seq::new(vm.pre_loaded.len() as nat, |i: int| Term::Atom(vm.pre_loaded[i])),
        ),
{
    let mut names: Vec<Term> = Vec::new();
    let mut i: usize = 0;
    while i < vm.pre_loaded.len()
        invariant
            i <= vm.pre_loaded.len(),
            names.len() == i,
            forall|k: int| 0 <= k < i ==> #[trigger] names@[k] == Term::Atom(vm.pre_loaded[k]),
        decreases vm.pre_loaded.len() - i,
    {
        names.push(Term::Atom(vm.pre_loaded[i]));
        i = i + 1;
    }
    assert(names@ =~= Seq::new(vm.pre_loaded.len() as nat, |i: int| Term::Atom(vm.pre_loaded[i])));
    Ok(Cons::from_iter(names))
}

/// What `prepare_loading_2` asks of its caller.
#[derive(Debug)]
pub enum Prepare {
    /// These are the bytes of the module: decode them, and hand the module
    /// to `prepared`.
    Decode(Vec<u8>),
    /// The answer is known without decoding.
    Answer(Term),
}

/// The answer of a loading function that failed: `{error, badfile}`.
pub open spec fn is_badfile(t: Term) -> bool {
    t@ == TermView::Tuple(seq![TermView::Atom(atom::ERROR), TermView::Atom(atom::BADFILE)])
}

/// `erts_internal:prepare_loading(Module, Code)`: the bytes that the loader
/// is to decode, decompressed where the code is compressed. Code that
/// starts like a gzip stream and is none is answered with
/// `{error, badfile}`.
pub fn prepare_loading_2(_vm: &Machine, process: &Process, args: &[Term]) -> (r: Result<
    Prepare,
    Exception,
>)
    requires
        args.len() >= 2,
    ensures
        r is Ok <==> readable(args[1], &process.context.binaries),
        r matches Err(e) ==> e.reason == Reason::EXC_BADARG,
        r matches Ok(p) ==> (match uncompressed(binary_bytes(args[1], &process.context.binaries)) {
            Some(data) => p matches Prepare::Decode(bytes) && bytes@ == data,
            None => p matches Prepare::Answer(t) && is_badfile(t),
        }),
{
    // arg[0] module name atom, arg[1] raw bytecode bytes
    match to_bytes(&args[1], &process.context.binaries) {
        None => Err(badarg()),
        Some(bytes) => match maybe_uncompress(bytes) {
            Some(data) => Ok(Prepare::Decode(data)),
            None => Ok(
                Prepare::Answer(Term::tup2(Term::Atom(atom::ERROR), Term::Atom(atom::BADFILE))),
            ),
        },
    }
}

/// What `prepare_loading` answers once the loader has decoded the bytes:
/// the module in a slot of its own, as a term that `finish_loading` takes,
/// or `{error, badfile}` where the loader failed.
pub fn prepared(vm: &mut Machine, decoded: Option<Module>) -> (t: Term)
    ensures
        decoded is None ==> is_badfile(t) && *final(vm) == *old(vm),
        decoded matches Some(module) ==> t == Term::Module(old(vm).prepared.len()) && final(vm).prepared@ == old(vm).prepared@.push(Some(module)) && final(vm).modules == old(vm).modules && final(vm).exports == old(vm).exports && final(vm).next_ref == old(vm).next_ref,
{
    match decoded {
        Some(module) => {
            let slot: usize = vm.prepared.len();
            vm.prepared.push(Some(module));
            Term::Module(slot)
        },
        None => Term::tup2(Term::Atom(atom::ERROR), Term::Atom(atom::BADFILE)),
    }
}

/// The slot of a prepared module that a term names, where the slot holds a
/// module.
pub open spec fn prepared_slot(vm: &Machine, t: Term) -> Option<int> {
    match t {
        Term::Module(slot) => if slot < vm.prepared.len() && vm.prepared[slot as int] is Some {
            Some(slot as int)
        } else {
            None
        },
        _ => None,
    }
}

/// `erts_internal:has_prepared_code_on_load(Module)`: whether the prepared
/// module has a function to run when it is loaded.
pub fn has_prepared_code_on_load_1(vm: &Machine, _process: &Process, args: &[Term]) -> (r: Result<
    Term,
    Exception,
>)
    requires
        args.len() >= 1,
    ensures
        r is Ok <==> prepared_slot(vm, args[0]) is Some,
        r matches Err(e) ==> e.reason == Reason::EXC_BADARG,
        r matches Ok(t) ==> t == Term::Atom(
            if vm.prepared[prepared_slot(vm, args[0])->0]->0.on_load is Some {
                atom::TRUE
            } else {
                atom::FALSE
            },
        ),
{
    match &args[0] {
        Term::Module(slot) => {
            if *slot >= vm.prepared.len() {
                return Err(badarg());
            }
            match &vm.prepared[*slot] {
                Some(module) => Ok(Term::boolean(module.on_load.is_some())),
                None => Err(badarg()),
            }
        },
        _ => Err(badarg()),
    }
}

/// The term is a proper list of prepared modules, each once.
pub open spec fn loadable(vm: &Machine, t: Term) -> bool {
    &&& is_proper(t)
    &&& forall|i: int|
        0 <= i < list_items(t).len() ==> (#[trigger] prepared_slot(vm, list_items(t)[i])) is Some
    &&& forall|i: int, j: int|
        0 <= i < j < list_items(t).len() ==> (#[trigger] list_items(t)[i]) != (
        #[trigger] list_items(t)[j])
}

/// The prepared modules that the items of a list name, in the order of the
/// list.
pub open spec fn named_modules(vm: &Machine, items: Seq<Term>) -> Seq<Module> {
    Seq::new(items.len(), |i: int| vm.prepared[items[i]->Module_0 as int]->0)
}

/// `erts_internal:finish_loading(PreparedModules)`: registers every
/// prepared module of the list and processes its exports. All the modules
/// are checked before the first is registered; the slots of the modules
/// that are loaded are emptied.
pub fn finish_loading_1(vm: &mut Machine, _process: &Process, args: &[Term]) -> (r: Result<
    Term,
    Exception,
>)
    requires
        args.len() >= 1,
    ensures
        r is Ok <==> loadable(old(vm), args[0]),
        r matches Err(e) ==> e.reason == Reason::EXC_BADARG && *final(vm) == *old(vm),
        r matches Ok(t) ==> {
            let items = list_items(args[0]);
            &&& t == Term::Atom(atom::OK)
            &&& final(vm).exports@ == exports_after(
                old(vm).exports@,
                named_modules(old(vm), items),
            )
            &&& bifs_kept(old(vm).exports@, final(vm).exports@)
            &&& final(vm).modules.slots.len() == old(vm).modules.slots.len() + items.len()
            &&& final(vm).next_ref == old(vm).next_ref
            &&& final(vm).prepared.len() == old(vm).prepared.len()
            &&& forall|s: int|
                0 <= s < old(vm).prepared.len() ==> #[trigger] final(vm).prepared[s] == (
                if items.contains(Term::Module(s as usize)) {
                    None::<Module>
                } else {
                    old(vm).prepared[s]
                })
        },
{
    let items: Vec<&Term> = match proper_list(&args[0]) {
        Some(items) => items,
        None => {
            return Err(badarg());
        },
    };
    let ghost all = list_items(args[0]);
    // Check the whole list before any module leaves its slot.
    let mut slots: Vec<usize> = Vec::new();
    let mut i: usize = 0;
    while i < items.len()
        invariant
            i <= items.len(),
            items.len() == all.len(),
            all == list_items(args[0]),
            forall|k: int| 0 <= k < items.len() ==> *(#[trigger] items[k]) == all[k],
            slots.len() == i,
            *vm == *old(vm),
            is_proper(args[0]),
            forall|k: int|
                0 <= k < i ==> (#[trigger] slots@[k]) < vm.prepared.len()
                    && vm.prepared[slots@[k] as int] is Some,
            forall|k: int| 0 <= k < i ==> all[k] == Term::Module(#[trigger] slots@[k]),
            forall|a: int, b: int| 0 <= a < b < i ==> slots@[a] != slots@[b],
        decreases items.len() - i,
    {
        match items[i] {
            Term::Module(slot) => {
                if *slot >= vm.prepared.len() || vm.prepared[*slot].is_none() {
                    assert(prepared_slot(vm, all[i as int]) is None);
                    return Err(badarg());
                }
                let mut seen: bool = false;
                let mut j: usize = 0;
                while j < slots.len()
                    invariant
                        j <= slots.len(),
                        seen == exists|k: int| 0 <= k < j && #[trigger] slots@[k] == *slot,
                    decreases slots.len() - j,
                {
                    if slots[j] == *slot {
                        seen = true;
                    }
                    j = j + 1;
                }
                if seen {
                    proof {
                        let k = choose|k: int| 0 <= k < i && #[trigger] slots@[k] == *slot;
                        assert(all[k] == all[i as int]);
                    }
                    return Err(badarg());
                }
                slots.push(*slot);
            },
            _ => {
                assert(prepared_slot(vm, all[i as int]) is None);
                return Err(badarg());
            },
        }
        i = i + 1;
    }
    proof {
        assert forall|a: int| 0 <= a < all.len() implies (#[trigger] prepared_slot(vm, all[a]))
            is Some by {
            assert(all[a] == Term::Module(slots@[a]));
        }
        assert forall|a: int, b: int| 0 <= a < b < all.len() implies (#[trigger] all[a]) != (
        #[trigger] all[b]) by {
            assert(slots@[a] != slots@[b]);
        }
    }
    let ghost wanted = named_modules(vm, all);
    let ghost prepared0 = vm.prepared@;
    let mut mods: Vec<Module> = Vec::new();
    let mut k: usize = 0;
    while k < slots.len()
        invariant
            k <= slots.len(),
            slots.len() == all.len(),
            mods.len() == k,
            prepared0 == old(vm).prepared@,
            wanted == named_modules(old(vm), all),
            vm.prepared.len() == prepared0.len(),
            vm.modules == old(vm).modules,
            vm.exports == old(vm).exports,
            vm.next_ref == old(vm).next_ref,
            vm.pre_loaded == old(vm).pre_loaded,
            vm.beam_lib_nifs == old(vm).beam_lib_nifs,
            forall|a: int| 0 <= a < slots.len() ==> all[a] == Term::Module(#[trigger] slots@[a]),
            forall|a: int, b: int| 0 <= a < b < slots.len() ==> slots@[a] != slots@[b],
            forall|a: int|
                0 <= a < slots.len() ==> (#[trigger] slots@[a]) < prepared0.len()
                    && prepared0[slots@[a] as int] is Some,
            forall|a: int| 0 <= a < k ==> #[trigger] mods@[a] == wanted[a],
            forall|s: int|
                0 <= s < prepared0.len() ==> #[trigger] vm.prepared[s] == (if exists|a: int|
                    0 <= a < k && slots@[a] == s {
                    None::<Module>
                } else {
                    prepared0[s]
                }),
        decreases slots.len() - k,
    {
        let slot: usize = slots[k];
        let mut taken: Option<Module> = None;
        let ghost held = vm.prepared@;
        proof {
            assert(!(exists|a: int| 0 <= a < k && slots@[a] == slot as int)) by {
                if exists|a: int| 0 <= a < k && slots@[a] == slot as int {
                    let a = choose|a: int| 0 <= a < k && slots@[a] == slot as int;
                    assert(slots@[a] != slots@[k as int]);
                }
            }
            assert(held[slot as int] == prepared0[slot as int]);
        }
        core::mem::swap(&mut vm.prepared[slot], &mut taken);
        match taken {
            Some(module) => {
                mods.push(module);
            },
            None => {},
        }
        proof {
            assert(all[k as int] == Term::Module(slot));
            assert forall|s: int| 0 <= s < prepared0.len() implies #[trigger] vm.prepared[s] == (
            if exists|a: int| 0 <= a < k + 1 && slots@[a] == s {
                None::<Module>
            } else {
                prepared0[s]
            }) by {
                if s == slot as int {
                    assert(slots@[k as int] == s);
                } else {
                    assert(vm.prepared[s] == held[s]);
                    if exists|a: int| 0 <= a < k + 1 && slots@[a] == s {
                        let a = choose|a: int| 0 <= a < k + 1 && slots@[a] == s;
                        assert(a < k);
                    }
                }
            }
        }
        k = k + 1;
    }
    proof {
        assert(mods@ =~= wanted);
        assert forall|s: int| 0 <= s < prepared0.len() implies #[trigger] vm.prepared[s] == (
        if all.contains(Term::Module(s as usize)) {
            None::<Module>
        } else {
            prepared0[s]
        }) by {
            if all.contains(Term::Module(s as usize)) {
                let a = choose|a: int| 0 <= a < all.len() && all[a] == Term::Module(s as usize);
                assert(slots@[a] == s);
            }
            if exists|a: int| 0 <= a < slots.len() && slots@[a] == s {
                let a = choose|a: int| 0 <= a < slots.len() && slots@[a] == s;
                assert(all[a] == Term::Module(s as usize));
            }
        }
    }
    finish_loading_modules(vm, mods);
    Ok(Term::Atom(atom::OK))
}

/// The term is the pair of a function's name and its arity.
pub open spec fn is_fun_pair(t: Term, function: u32, arity: u32) -> bool {
    t matches Term::Tuple(v) && v.len() == 2 && v[0] == Term::Atom(function) && is_integer(
        v[1],
        arity as int,
    )
}

fn fun_pair(function: u32, arity: u32) -> (t: Term)
    ensures
        is_fun_pair(t, function, arity),
{
    Term::tup2(Term::Atom(function), Term::uint(arity))
}

/// The list of the exports of a module, each as `{Function, Arity}`, in
/// their order.
pub fn exports_info(module: &Module) -> (t: Term)
    ensures
        is_exports_info(t, module),
{
    let mut pairs: Vec<Term> = Vec::new();
    let mut i: usize = 0;
    while i < module.exports.len()
        invariant
            i <= module.exports.len(),
            pairs.len() == i,
            forall|k: int|
                0 <= k < i ==> is_fun_pair(
                    #[trigger] pairs@[k],
                    module.exports@[k].0,
                    module.exports@[k].1,
                ),
        decreases module.exports.len() - i,
    {
        let mfa: MFA = module.exports[i];
        pairs.push(fun_pair(mfa.0, mfa.1));
        i = i + 1;
    }
    proof {
        lemma_list_of(pairs@);
    }
    Cons::from_iter(pairs)
}

/// The function of this name and arity is one of the module: the module
/// keeps an offset for it.
pub open spec fn has_function(
    funs: Map<(u32, u32, u32), (u32, u32, u32)>,
    function: u32,
    arity: u32,
) -> bool {
    funs.dom().contains(fun_key(function, arity))
}

/// The term is the pair `{Function, Arity}` of a function of the module.
pub open spec fn is_function_of(t: Term, funs: Map<(u32, u32, u32), (u32, u32, u32)>) -> bool {
    exists|function: u32, arity: u32| #[trigger]
        has_function(funs, function, arity) && is_fun_pair(t, function, arity)
}

/// The list has the pair of the function.
pub open spec fn lists_function(items: Seq<Term>, function: u32, arity: u32) -> bool {
    exists|i: int| 0 <= i < items.len() && is_fun_pair(#[trigger] items[i], function, arity)
}

/// The term is the list of the functions of a module: each function of the
/// module once as `{Function, Arity}`, and nothing else.
pub open spec fn is_functions_info(t: Term, funs: Map<(u32, u32, u32), (u32, u32, u32)>) -> bool {
    &&& is_proper(t)
    &&& forall|i: int|
        0 <= i < list_items(t).len() ==> is_function_of(#[trigger] list_items(t)[i], funs)
    &&& forall|function: u32, arity: u32| #[trigger]
        has_function(funs, function, arity) ==> lists_function(list_items(t), function, arity)
    &&& forall|i: int, j: int|
        0 <= i < j < list_items(t).len() ==> (#[trigger] list_items(t)[i])@ != (
        #[trigger] list_items(t)[j])@
}

/// Pairs of different functions are different terms.
proof fn lemma_fun_pairs_differ(a: Term, b: Term, f: u32, x: u32, g: u32, y: u32)
    requires
        is_fun_pair(a, f, x),
        is_fun_pair(b, g, y),
        f != g || x != y,
    ensures
        a@ != b@,
{
    let v = a->Tuple_0;
    let w = b->Tuple_0;
    assert(a@->Tuple_0[0] == v[0]@);
    assert(b@->Tuple_0[0] == w[0]@);
    assert(a@->Tuple_0[1] == v[1]@);
    assert(b@->Tuple_0[1] == w[1]@);
    if f == g {
        assert(v[1]@ != w[1]@);
    }
}

/// The list of the functions of a module, each once as
/// `{Function, Arity}`, in an order that the module chooses.
pub fn functions_info(module: &Module) -> (t: Term)
    ensures
        is_functions_info(t, contents(module.funs)),
{
    let keys: Vec<(u32, u32, u32)> = table_keys(&module.funs);
    let ghost funs = contents(module.funs);
    let mut pairs: Vec<Term> = Vec::new();
    let ghost mut from: Seq<int> = Seq::empty();
    let mut i: usize = 0;
    while i < keys.len()
        invariant
            i <= keys.len(),
            pairs.len() == from.len(),
            forall|k: int| 0 <= k < from.len() ==> 0 <= #[trigger] from[k] < i,
            forall|k: int, l: int| 0 <= k < l < from.len() ==> #[trigger] from[k] < #[trigger] from[l],
            forall|k: int| 0 <= k < from.len() ==> keys@[#[trigger] from[k]].2 == 0,
            forall|k: int|
                0 <= k < pairs.len() ==> is_fun_pair(
                    #[trigger] pairs@[k],
                    keys@[from[k]].0,
                    keys@[from[k]].1,
                ),
            forall|j: int|
                0 <= j < i && (#[trigger] keys@[j]).2 == 0 ==> lists_function(
                    pairs@,
                    keys@[j].0,
                    keys@[j].1,
                ),
        decreases keys.len() - i,
    {
        let key: (u32, u32, u32) = keys[i];
        // a function is kept under its name and arity alone
        if key.2 == 0 {
            let ghost before = pairs@;
            pairs.push(fun_pair(key.0, key.1));
            proof {
                let sources = from;
                from = from.push(i as int);
                assert forall|k: int| 0 <= k < pairs.len() implies is_fun_pair(
                    #[trigger] pairs@[k],
                    keys@[from[k]].0,
                    keys@[from[k]].1,
                ) by {
                    if k < before.len() {
                        assert(pairs@[k] == before[k]);
                        assert(from[k] == sources[k]);
                    }
                }
                assert forall|k: int| 0 <= k < from.len() implies keys@[#[trigger] from[k]].2
                    == 0 by {
                    if k < sources.len() {
                        assert(from[k] == sources[k]);
                    }
                }
                assert forall|j: int| 0 <= j <= i && (#[trigger] keys@[j]).2 == 0 implies lists_function(
                    pairs@,
                    keys@[j].0,
                    keys@[j].1,
                ) by {
                    if j < i {
                        let w = choose|w: int|
                            0 <= w < before.len() && is_fun_pair(
                                #[trigger] before[w],
                                keys@[j].0,
                                keys@[j].1,
                            );
                        assert(pairs@[w] == before[w]);
                    } else {
                        assert(is_fun_pair(pairs@[pairs.len() - 1], key.0, key.1));
                    }
                }
            }
        }
        i = i + 1;
    }
    proof {
        lemma_list_of(pairs@);
        keys@.unique_seq_to_set();
        assert forall|k: int| 0 <= k < pairs.len() implies is_function_of(
            #[trigger] pairs@[k],
            funs,
        ) by {
            let key = keys@[from[k]];
            assert(key.2 == 0);
            assert(keys@.to_set().contains(key));
            assert(funs.dom().contains(key));
            assert(key == fun_key(key.0, key.1));
            assert(has_function(funs, key.0, key.1));
        }
        assert forall|function: u32, arity: u32| #[trigger]
            has_function(funs, function, arity) implies lists_function(
            pairs@,
            function,
            arity,
        ) by {
            let key = fun_key(function, arity);
            assert(keys@.to_set().contains(key));
            let j = choose|j: int| 0 <= j < keys@.len() && keys@[j] == key;
            assert(keys@[j].2 == 0);
        }
        assert forall|k: int, l: int| 0 <= k < l < pairs.len() implies (#[trigger] pairs@[k])@ != (
        #[trigger] pairs@[l])@ by {
            let x = keys@[from[k]];
            let y = keys@[from[l]];
            assert(from[k] < from[l]);
            assert(x != y);
            lemma_fun_pairs_differ(pairs@[k], pairs@[l], x.0, x.1, y.0, y.1);
        }
    }
    Cons::from_iter(pairs)
}

/// The key is one that `get_module_info` knows.
pub open spec fn is_info_key(what: Term) -> bool {
    what matches Term::Atom(a) && (a == atom::MODULE || a == atom::EXPORTS || a == atom::FUNCTIONS
        || a == atom::ATTRIBUTES || a == atom::NATIVE)
}

/// The term is the list of the exports of the module, each as
/// `{Function, Arity}`, in their order.
pub open spec fn is_exports_info(t: Term, module: &Module) -> bool {
    &&& is_proper(t)
    &&& list_items(t).len() == module.exports.len()
    &&& forall|i: int|
        0 <= i < module.exports.len() ==> is_fun_pair(
            #[trigger] list_items(t)[i],
            module.exports@[i].0,
            module.exports@[i].1,
        )
}

/// The term is what `get_module_info` knows of the module under the key.
pub open spec fn is_info(t: Term, module: &Module, key: u32) -> bool {
    &&& key == atom::MODULE ==> t == Term::Atom(module.name)
    &&& key == atom::NATIVE ==> t == Term::Atom(atom::FALSE)
    &&& key == atom::ATTRIBUTES ==> t@ == module.attrs@
    &&& key == atom::EXPORTS ==> is_exports_info(t, module)
    &&& key == atom::FUNCTIONS ==> is_functions_info(t, contents(module.funs))
}

/// What `get_module_info` knows of a module under a key: the name for
/// `module`, the exports for `exports`, the functions for `functions`, the
/// attributes for `attributes`, and `false` for `native`. Any other key is
/// a bad argument.
pub fn get_module_info(module: &Module, what: &Term) -> (r: Result<Term, Exception>)
    ensures
        r is Ok <==> is_info_key(*what),
        r matches Err(e) ==> e.reason == Reason::EXC_BADARG,
        r matches Ok(t) ==> is_info(t, module, what->Atom_0),
{
    match what {
        Term::Atom(a) => {
            if *a == atom::MODULE {
                Ok(Term::Atom(module.name))
            } else if *a == atom::EXPORTS {
                Ok(exports_info(module))
            } else if *a == atom::FUNCTIONS {
                Ok(functions_info(module))
            } else if *a == atom::ATTRIBUTES {
                Ok(module.attrs.clone())
            } else if *a == atom::NATIVE {
                Ok(Term::Atom(atom::FALSE))
            } else {
                Err(badarg())
            }
        },
        _ => Err(badarg()),
    }
}

/// The module is registered under the name.
pub open spec fn is_loaded(vm: &Machine, name: Term) -> bool {
    name matches Term::Atom(a) && exists|i: int|
        0 <= i < vm.modules.slots.len() && (#[trigger] vm.modules.slots[i]).name == a
}

/// The slot holds the module that was registered last under the name.
pub open spec fn is_current(vm: &Machine, name: u32, i: int) -> bool {
    &&& 0 <= i < vm.modules.slots.len()
    &&& vm.modules.slots[i].name == name
    &&& forall|j: int| i < j < vm.modules.slots.len() ==> (#[trigger] vm.modules.slots[j]).name != name
}

/// `erlang:get_module_info(Module, Key)`.
pub fn get_module_info_2(vm: &Machine, _process: &Process, args: &[Term]) -> (r: Result<
    Term,
    Exception,
>)
    requires
        args.len() >= 2,
    ensures
        r is Ok <==> is_loaded(vm, args[0]) && is_info_key(args[1]),
        r matches Err(e) ==> e.reason == Reason::EXC_BADARG,
        r matches Ok(t) ==> exists|i: int|
            #[trigger] is_current(vm, args[0]->Atom_0, i) && is_info(
                t,
                &vm.modules.slots[i],
                args[1]->Atom_0,
            ),
{
    let name: u32 = match &args[0] {
        Term::Atom(i) => *i,
        _ => {
            return Err(badarg());
        },
    };
    match vm.modules.lookup(name) {
        Some(module) => {
            let r = get_module_info(module, &args[1]);
            proof {
                let i = choose|i: int|
                    0 <= i < vm.modules.slots.len() && *module == #[trigger] vm.modules.slots[i]
                        && forall|j: int|
                        i < j < vm.modules.slots.len() ==> (#[trigger] vm.modules.slots[j]).name
                            != name;
                assert(is_current(vm, name, i));
            }
            r
        },
        None => Err(badarg()),
    }
}

/// `erlang:get_module_info(Module)`: the list of what is known of the
/// module, each as `{Key, Value}`, for the keys `module`, `exports`,
/// `attributes` and `native`.
pub fn get_module_info_1(vm: &Machine, _process: &Process, args: &[Term]) -> (r: Result<
    Term,
    Exception,
>)
    requires
        args.len() >= 1,
    ensures
        r is Ok <==> is_loaded(vm, args[0]),
        r matches Err(e) ==> e.reason == Reason::EXC_BADARG,
        r matches Ok(t) ==> {
            let items = list_items(t);
            &&& is_proper(t)
            &&& items.len() == 4
            &&& items[0]@ == TermView::Tuple(
                seq![TermView::Atom(atom::MODULE), TermView::Atom(args[0]->Atom_0)],
            )
            &&& items[1] matches Term::Tuple(v) && v.len() == 2 && v[0] == Term::Atom(
                atom::EXPORTS,
            ) && exists|i: int|
                #[trigger] is_current(vm, args[0]->Atom_0, i) && is_exports_info(
                    v[1],
                    &vm.modules.slots[i],
                )
            &&& items[2] matches Term::Tuple(v) && v.len() == 2 && v[0] == Term::Atom(
                atom::ATTRIBUTES,
            ) && exists|i: int|
                #[trigger] is_current(vm, args[0]->Atom_0, i) && v[1]@
                    == vm.modules.slots[i].attrs@
            &&& items[3]@ == TermView::Tuple(
                seq![TermView::Atom(atom::NATIVE), TermView::Atom(atom::FALSE)],
            )
        },
{
    let name: u32 = match &args[0] {
        Term::Atom(i) => *i,
        _ => {
            return Err(badarg());
        },
    };
    let module: &Module = match vm.modules.lookup(name) {
        Some(module) => module,
        None => {
            return Err(badarg());
        },
    };
    proof {
        let i = choose|i: int|
            0 <= i < vm.modules.slots.len() && *module == #[trigger] vm.modules.slots[i]
                && forall|j: int|
                i < j < vm.modules.slots.len() ==> (#[trigger] vm.modules.slots[j]).name != name;
        assert(is_current(vm, name, i));
    }
    let mut items: Vec<Term> = Vec::new();
    items.push(Term::tup2(Term::Atom(atom::MODULE), Term::Atom(module.name)));
    items.push(Term::tup2(Term::Atom(atom::EXPORTS), exports_info(module)));
    items.push(Term::tup2(Term::Atom(atom::ATTRIBUTES), module.attrs.clone()));
    items.push(Term::tup2(Term::Atom(atom::NATIVE), Term::Atom(atom::FALSE)));
    proof {
        lemma_list_of(items@);
    }
    Ok(Cons::from_iter(items))
}

/// `erts_internal:purge_module(Module, Stage)`: purging is not done; the
/// answer is `true`.
pub fn erts_internal_purge_module_2(_vm: &Machine, _process: &Process, _args: &[Term]) -> (r:
    Result<Term, Exception>)
    ensures
        r == Ok::<Term, Exception>(Term::Atom(atom::TRUE)),
{
    // prepare / prepare_on_load
    // abort
    // complete
    Ok(Term::Atom(atom::TRUE))
}

} // verus!
