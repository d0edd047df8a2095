//! The exports table: what a call of `module:function/arity` runs.
use crate::instr_ptr::InstrPtr;
use crate::module::MFA;
use vstd::prelude::*;
use vstd::string::StringExecFns;

verus! {

/// A table of the `hashbrown` crate, keyed and filled with triples of
/// numbers.
#[verifier::external_body]
pub struct Table {
    inner: hashbrown::HashMap<(u32, u32, u32), (u32, u32, u32)>,
}

/// What a table holds: each key with its value.
pub uninterp spec fn contents(table: Table) -> Map<(u32, u32, u32), (u32, u32, u32)>;

/// The map without entries.
pub open spec fn nothing() -> Map<(u32, u32, u32), (u32, u32, u32)> {
    Map::empty()
}

/// `hashbrown::HashMap::new`: a table that holds nothing.
#[verifier::external_body]
pub(crate) fn table_new() -> (t: Table)
    ensures
        contents(t) == nothing(),
{
    Table { inner: hashbrown::HashMap::new() }
}

/// `hashbrown::HashMap::insert`: the key has the value afterwards, whether
/// the table held the key or not; the other keys are untouched.
#[verifier::external_body]
pub(crate) fn table_insert(t: &mut Table, key: (u32, u32, u32), value: (u32, u32, u32))
    ensures
        contents(*final(t)) == contents(*old(t)).insert(key, value),
{
    t.inner.insert(key, value);
}

/// `hashbrown::HashMap::get`: the value of the key, if the table holds the
/// key.
#[verifier::external_body]
pub(crate) fn table_get(t: &Table, key: (u32, u32, u32)) -> (r: Option<(u32, u32, u32)>)
    ensures
        r == (if contents(*t).dom().contains(key) {
            Some(contents(*t)[key])
        } else {
            None
        }),
{
    t.inner.get(&key).copied()
}

/// `hashbrown::HashMap::keys`: every key of the table once, in an order that
/// the table chooses.
#[verifier::external_body]
pub(crate) fn table_keys(t: &Table) -> (r: Vec<(u32, u32, u32)>)
    ensures
        r@.no_duplicates(),
        r@.to_set() == contents(*t).dom(),
{
    t.inner.keys().copied().collect()
}

/// The map of the entries, one after the other; an entry that comes later
/// wins.
pub open spec fn entries_map(
    entries: Seq<((u32, u32, u32), (u32, u32, u32))>,
) -> Map<(u32, u32, u32), (u32, u32, u32)>
    decreases entries.len(),
{
    if entries.len() == 0 {
        Map::empty()
    } else {
        entries_map(entries.drop_last()).insert(entries.last().0, entries.last().1)
    }
}

/// A table with the entries, one after the other.
pub fn table_of(entries: &[((u32, u32, u32), (u32, u32, u32))]) -> (t: Table)
    ensures
        contents(t) == entries_map(entries@),
{
    let mut t = table_new();
    let mut i: usize = 0;
    assert(entries@.subrange(0, 0) =~= Seq::<((u32, u32, u32), (u32, u32, u32))>::empty());
    while i < entries.len()
        invariant
            i <= entries.len(),
            contents(t) == entries_map(entries@.subrange(0, i as int)),
        decreases entries.len() - i,
    {
        let (key, value) = entries[i];
        table_insert(&mut t, key, value);
        assert(entries@.subrange(0, i + 1).drop_last() =~= entries@.subrange(0, i as int));
        i = i + 1;
    }
    assert(entries@.subrange(0, entries.len() as int) =~= entries@);
    t
}

/// What a call runs: bytecode at an entry point, or a built-in function,
/// which is known by its number.
#[derive(Copy, Clone, Debug, PartialEq, Eq, Structural)]
pub enum Export {
    Fun(InstrPtr),
    Bif(u32),
}

impl Export {
    /// What the export is, in a word: bytecode or a built-in function.
    pub fn to_string(&self) -> (r: String)
        ensures
            r@ == (match *self {
                Export::Fun(_) => "Export(fn)"@,
                Export::Bif(_) => "Export(bif)"@,
            }),
    {
        match self {
            Export::Fun(_) => String::from_str("Export(fn)"),
            Export::Bif(_) => String::from_str("Export(bif)"),
        }
    }
}

/// The key under which the table keeps a function.
pub open spec fn key_of(mfa: MFA) -> (u32, u32, u32) {
    (mfa.0, mfa.1, mfa.2)
}

/// The triple that stands for an export in the table.
pub open spec fn encoded(export: Export) -> (u32, u32, u32) {
    match export {
        Export::Fun(ptr) => (0u32, ptr.module, ptr.ptr),
        Export::Bif(f) => (1u32, f, 0u32),
    }
}

/// The export that a triple of the table stands for.
pub open spec fn decoded(value: (u32, u32, u32)) -> Export {
    if value.0 == 0 {
        Export::Fun(InstrPtr { module: value.1, ptr: value.2 })
    } else {
        Export::Bif(value.1)
    }
}

fn encode(export: Export) -> (r: (u32, u32, u32))
    ensures
        r == encoded(export),
        decoded(r) == export,
{
    match export {
        Export::Fun(ptr) => (0, ptr.module, ptr.ptr),
        Export::Bif(f) => (1, f, 0),
    }
}

fn decode(value: (u32, u32, u32)) -> (r: Export)
    ensures
        r == decoded(value),
{
    if value.0 == 0 {
        Export::Fun(InstrPtr { module: value.1, ptr: value.2 })
    } else {
        Export::Bif(value.1)
    }
}

/// The exports of all the modules, and the built-in functions.
pub struct ExportsTable {
    exports: Table,
}

impl View for ExportsTable {
    type V = Map<MFA, Export>;

    closed spec fn view(&self) -> Map<MFA, Export> {
        Map::new(
            |mfa: MFA| contents(self.exports).dom().contains(key_of(mfa)),
            |mfa: MFA| decoded(contents(self.exports)[key_of(mfa)]),
        )
    }
}

impl ExportsTable {
    /// A table without exports.
    pub fn new() -> (t: ExportsTable)
        ensures
            t@ == Map::<MFA, Export>::empty(),
    {
        let t = ExportsTable { exports: table_new() };
        assert(t@ =~= Map::<MFA, Export>::empty());
        t
    }

    /// Makes bytecode at `ptr` what a call of `mfa` runs.
    pub fn register(&mut self, mfa: MFA, ptr: InstrPtr)
        ensures
            final(self)@ == old(self)@.insert(mfa, Export::Fun(ptr)),
    {
        self.insert(mfa, Export::Fun(ptr));
    }

    /// Makes `export` what a call of `mfa` runs.
    pub fn insert(&mut self, mfa: MFA, export: Export)
        ensures
            final(self)@ == old(self)@.insert(mfa, export),
    {
        table_insert(&mut self.exports, (mfa.0, mfa.1, mfa.2), encode(export));
        proof {
            assert forall|m: MFA| key_of(m) == key_of(mfa) implies m == mfa by {}
            assert(self@ =~= old(self)@.insert(mfa, export));
        }
    }

    /// What a call of `mfa` runs, if anything.
    pub fn lookup(&self, mfa: &MFA) -> (r: Option<Export>)
        ensures
            r == (if self@.dom().contains(*mfa) {
                Some(self@[*mfa])
            } else {
                None
            }),
    {
        match table_get(&self.exports, (mfa.0, mfa.1, mfa.2)) {
            Some(value) => Some(decode(value)),
            None => None,
        }
    }

    /// A table with the built-in functions: each of them under its name,
    /// with its number. Where a name is given twice, the later one counts.
    pub fn with_bifs(bifs: &[(MFA, u32)]) -> (t: ExportsTable)
        ensures
            t@ == bif_exports(bifs@),
    {
        let mut t = ExportsTable::new();
        let mut i: usize = 0;
        assert(bifs@.subrange(0, 0) =~= Seq::<(MFA, u32)>::empty());
        while i < bifs.len()
            invariant
                i <= bifs.len(),
                t@ == bif_exports(bifs@.subrange(0, i as int)),
            decreases bifs.len() - i,
        {
            // load all the bif exports
            let (key, val) = bifs[i];
            t.insert(key, Export::Bif(val));
            assert(bifs@.subrange(0, i + 1).drop_last() =~= bifs@.subrange(0, i as int));
            i = i + 1;
        }
        assert(bifs@.subrange(0, bifs.len() as int) =~= bifs@);
        t
    }
}

/// The exports of the built-in functions alone.
pub open spec fn bif_exports(bifs: Seq<(MFA, u32)>) -> Map<MFA, Export>
    decreases bifs.len(),
{
    if bifs.len() == 0 {
        Map::empty()
    } else {
        bif_exports(bifs.drop_last()).insert(bifs.last().0, Export::Bif(bifs.last().1))
    }
}

} // verus!
