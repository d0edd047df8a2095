//! Atoms: interned names, known to the runtime by their index.
use vstd::prelude::*;
use vstd::string::StringExecFns;

verus! {

pub const NIL: u32 = 0;

pub const TRUE: u32 = 1;

pub const FALSE: u32 = 2;

pub const UNDEFINED: u32 = 3;

pub const OK: u32 = 4;

pub const ERROR: u32 = 5;

pub const BADFILE: u32 = 6;

pub const NOMATCH: u32 = 7;

pub const MATCH: u32 = 8;

pub const GLOBAL: u32 = 9;

pub const TRIM: u32 = 10;

pub const TRIM_ALL: u32 = 11;

pub const SCOPE: u32 = 12;

pub const MODULE: u32 = 13;

pub const MD5: u32 = 14;

pub const EXPORTS: u32 = 15;

pub const FUNCTIONS: u32 = 16;

pub const NIFS: u32 = 17;

pub const ATTRIBUTES: u32 = 18;

pub const COMPILE: u32 = 19;

pub const NATIVE_ADDRESSES: u32 = 20;

pub const NATIVE: u32 = 21;

pub const BEAM_LIB: u32 = 22;

/// The first index that is free for names interned at run time.
pub const FIRST_FREE: u32 = 23;

/// The names of the atoms: an atom is the index of its name.
#[derive(Debug)]
pub struct AtomTable {
    pub names: Vec<String>,
}

impl AtomTable {
    /// No name occurs twice.
    pub open spec fn wf(&self) -> bool {
        forall|i: int, j: int|
            0 <= i < j < self.names.len() ==> (#[trigger] self.names[i])@ != (
            #[trigger] self.names[j])@
    }

    /// The name is one of the names of the first 2^32 atoms.
    pub open spec fn knows(&self, name: Seq<char>) -> bool {
        exists|i: int| 0 <= i < self.names.len() && i <= u32::MAX && (#[trigger] self.names[i])@ == name
    }

    /// A table without names.
    pub fn empty() -> (t: AtomTable)
        ensures
            t.wf(),
            t.names.len() == 0,
    {
        AtomTable { names: Vec::new() }
    }

    /// A table with the names that the runtime itself uses, each at the
    /// index that its constant gives.
    pub fn new() -> (t: AtomTable)
        ensures
            t.wf(),
            t.names.len() == FIRST_FREE,
            t.names[NIL as int]@ == "nil"@,
            t.names[TRUE as int]@ == "true"@,
            t.names[FALSE as int]@ == "false"@,
            t.names[UNDEFINED as int]@ == "undefined"@,
            t.names[OK as int]@ == "ok"@,
            t.names[ERROR as int]@ == "error"@,
            t.names[BADFILE as int]@ == "badfile"@,
            t.names[NOMATCH as int]@ == "nomatch"@,
            t.names[MATCH as int]@ == "match"@,
            t.names[GLOBAL as int]@ == "global"@,
            t.names[TRIM as int]@ == "trim"@,
            t.names[TRIM_ALL as int]@ == "trim_all"@,
            t.names[SCOPE as int]@ == "scope"@,
            t.names[MODULE as int]@ == "module"@,
            t.names[MD5 as int]@ == "md5"@,
            t.names[EXPORTS as int]@ == "exports"@,
            t.names[FUNCTIONS as int]@ == "functions"@,
            t.names[NIFS as int]@ == "nifs"@,
            t.names[ATTRIBUTES as int]@ == "attributes"@,
            t.names[COMPILE as int]@ == "compile"@,
            t.names[NATIVE_ADDRESSES as int]@ == "native_addresses"@,
            t.names[NATIVE as int]@ == "native"@,
            t.names[BEAM_LIB as int]@ == "beam_lib"@,
    {
        proof {
            reveal_strlit("nil");
            assert("nil"@.len() == 3 && "nil"@[0] == 'n' && "nil"@[2] == 'l');
            reveal_strlit("true");
            assert("true"@.len() == 4 && "true"@[0] == 't' && "true"@[2] == 'u');
            reveal_strlit("false");
            assert("false"@.len() == 5 && "false"@[0] == 'f' && "false"@[2] == 'l');
            reveal_strlit("undefined");
            assert("undefined"@.len() == 9 && "undefined"@[0] == 'u' && "undefined"@[2] == 'd');
            reveal_strlit("ok");
            assert("ok"@.len() == 2);
            reveal_strlit("error");
            assert("error"@.len() == 5 && "error"@[0] == 'e' && "error"@[2] == 'r');
            reveal_strlit("badfile");
            assert("badfile"@.len() == 7 && "badfile"@[0] == 'b' && "badfile"@[2] == 'd');
            reveal_strlit("nomatch");
            assert("nomatch"@.len() == 7 && "nomatch"@[0] == 'n' && "nomatch"@[2] == 'm');
            reveal_strlit("match");
            assert("match"@.len() == 5 && "match"@[0] == 'm' && "match"@[2] == 't');
            reveal_strlit("global");
            assert("global"@.len() == 6 && "global"@[0] == 'g' && "global"@[2] == 'o');
            reveal_strlit("trim");
            assert("trim"@.len() == 4 && "trim"@[0] == 't' && "trim"@[2] == 'i');
            reveal_strlit("trim_all");
            assert("trim_all"@.len() == 8 && "trim_all"@[0] == 't' && "trim_all"@[2] == 'i');
            reveal_strlit("scope");
            assert("scope"@.len() == 5 && "scope"@[0] == 's' && "scope"@[2] == 'o');
            reveal_strlit("module");
            assert("module"@.len() == 6 && "module"@[0] == 'm' && "module"@[2] == 'd');
            reveal_strlit("md5");
            assert("md5"@.len() == 3 && "md5"@[0] == 'm' && "md5"@[2] == '5');
            reveal_strlit("exports");
            assert("exports"@.len() == 7 && "exports"@[0] == 'e' && "exports"@[2] == 'p');
            reveal_strlit("functions");
            assert("functions"@.len() == 9 && "functions"@[0] == 'f' && "functions"@[2] == 'n');
            reveal_strlit("nifs");
            assert("nifs"@.len() == 4 && "nifs"@[0] == 'n' && "nifs"@[2] == 'f');
            reveal_strlit("attributes");
            assert("attributes"@.len() == 10 && "attributes"@[0] == 'a' && "attributes"@[2] == 't');
            reveal_strlit("compile");
            assert("compile"@.len() == 7 && "compile"@[0] == 'c' && "compile"@[2] == 'm');
            reveal_strlit("native_addresses");
            assert("native_addresses"@.len() == 16 && "native_addresses"@[0] == 'n' && "native_addresses"@[2] == 't');
            reveal_strlit("native");
            assert("native"@.len() == 6 && "native"@[0] == 'n' && "native"@[2] == 't');
            reveal_strlit("beam_lib");
            assert("beam_lib"@.len() == 8 && "beam_lib"@[0] == 'b' && "beam_lib"@[2] == 'a');
        }
        let mut t = AtomTable::empty();
        let _ = t.intern("nil");
        assert(t.names.len() == 1 && t.names[0]@ == "nil"@);
        let _ = t.intern("true");
        assert(t.names.len() == 2 && t.names[1]@ == "true"@);
        let _ = t.intern("false");
        assert(t.names.len() == 3 && t.names[2]@ == "false"@);
        let _ = t.intern("undefined");
        assert(t.names.len() == 4 && t.names[3]@ == "undefined"@);
        let _ = t.intern("ok");
        assert(t.names.len() == 5 && t.names[4]@ == "ok"@);
        let _ = t.intern("error");
        assert(t.names.len() == 6 && t.names[5]@ == "error"@);
        let _ = t.intern("badfile");
        assert(t.names.len() == 7 && t.names[6]@ == "badfile"@);
        let _ = t.intern("nomatch");
        assert(t.names.len() == 8 && t.names[7]@ == "nomatch"@);
        let _ = t.intern("match");
        assert(t.names.len() == 9 && t.names[8]@ == "match"@);
        let _ = t.intern("global");
        assert(t.names.len() == 10 && t.names[9]@ == "global"@);
        let _ = t.intern("trim");
        assert(t.names.len() == 11 && t.names[10]@ == "trim"@);
        let _ = t.intern("trim_all");
        assert(t.names.len() == 12 && t.names[11]@ == "trim_all"@);
        let _ = t.intern("scope");
        assert(t.names.len() == 13 && t.names[12]@ == "scope"@);
        let _ = t.intern("module");
        assert(t.names.len() == 14 && t.names[13]@ == "module"@);
        let _ = t.intern("md5");
        assert(t.names.len() == 15 && t.names[14]@ == "md5"@);
        let _ = t.intern("exports");
        assert(t.names.len() == 16 && t.names[15]@ == "exports"@);
        let _ = t.intern("functions");
        assert(t.names.len() == 17 && t.names[16]@ == "functions"@);
        let _ = t.intern("nifs");
        assert(t.names.len() == 18 && t.names[17]@ == "nifs"@);
        let _ = t.intern("attributes");
        assert(t.names.len() == 19 && t.names[18]@ == "attributes"@);
        let _ = t.intern("compile");
        assert(t.names.len() == 20 && t.names[19]@ == "compile"@);
        let _ = t.intern("native_addresses");
        assert(t.names.len() == 21 && t.names[20]@ == "native_addresses"@);
        let _ = t.intern("native");
        assert(t.names.len() == 22 && t.names[21]@ == "native"@);
        let _ = t.intern("beam_lib");
        assert(t.names.len() == 23 && t.names[22]@ == "beam_lib"@);
        t
    }

    /// The atom of the name, where the table knows the name.
    pub fn lookup(&self, name: &str) -> (r: Option<u32>)
        ensures
            r matches Some(a) ==> a < self.names.len() && self.names[a as int]@ == name@,
            r is None ==> forall|i: int|
                0 <= i < self.names.len() && i <= u32::MAX ==> (#[trigger] self.names[i])@
                    != name@,
    {
        let wanted: String = String::from_str(name);
        let mut i: usize = 0;
        while i < self.names.len() && i <= u32::MAX as usize
            invariant
                i <= self.names.len(),
                wanted@ == name@,
                forall|j: int| 0 <= j < i ==> (#[trigger] self.names[j])@ != name@,
            decreases self.names.len() - i,
        {
            if self.names[i] == wanted {
                return Some(i as u32);
            }
            i = i + 1;
        }
        None
    }

    /// The atom of the name: the one that the name has, or a new one.
    /// `None` where the table is full.
    pub fn intern(&mut self, name: &str) -> (r: Option<u32>)
        requires
            old(self).wf(),
        ensures
            final(self).wf(),
            old(self).names@.is_prefix_of(final(self).names@),
            r matches Some(a) ==> a < final(self).names.len() && final(self).names[a as int]@
                == name@,
            r is None ==> old(self).names.len() > u32::MAX && *final(self) == *old(self),
            old(self).knows(name@) ==> *final(self) == *old(self),
            !old(self).knows(name@) && r is Some ==> r == Some(old(self).names.len() as u32)
                && final(self).names.len() == old(self).names.len() + 1,
    {
        match self.lookup(name) {
            Some(a) => Some(a),
            None => {
                if self.names.len() > u32::MAX as usize {
                    return None;
                }
                let a: u32 = self.names.len() as u32;
                self.names.push(String::from_str(name));
                Some(a)
            },
        }
    }

    /// The name of the atom.
    pub fn to_str(&self, a: u32) -> (r: Option<&str>)
        ensures
            r is Some <==> a < self.names.len(),
            r matches Some(name) ==> name@ == self.names[a as int]@,
    {
        if (a as usize) < self.names.len() {
            Some(self.names[a as usize].as_str())
        } else {
            None
        }
    }
}

} // verus!
