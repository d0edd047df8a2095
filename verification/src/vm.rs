//! The machine: what all the processes share.
use crate::exports_table::ExportsTable;
use crate::module::{Module, MFA};
use vstd::prelude::*;

verus! {

/// The modules that are loaded. A module stays in its slot for good, so the
/// number of its slot names it for as long as the machine runs.
pub struct Registry {
    pub slots: Vec<Module>,
}

impl Registry {
    /// A registry without modules.
    pub fn new() -> (r: Registry)
        ensures
            r.slots.len() == 0,
    {
        Registry { slots: Vec::new() }
    }

    /// The module that was registered last under the name.
    pub fn lookup(&self, name: u32) -> (r: Option<&Module>)
        ensures
            r is Some <==> exists|i: int| 0 <= i < self.slots.len() && (#[trigger] self.slots[i]).name == name,
            r matches Some(m) ==> m.name == name && exists|i: int|
                0 <= i < self.slots.len() && *m == #[trigger] self.slots[i] && forall|j: int|
                    i < j < self.slots.len() ==> (#[trigger] self.slots[j]).name != name,
    {
        let mut i: usize = self.slots.len();
        while i > 0
            invariant
                i <= self.slots.len(),
                forall|j: int| i <= j < self.slots.len() ==> (#[trigger] self.slots[j]).name != name,
            decreases i,
        {
            i = i - 1;
            if self.slots[i].name == name {
                return Some(&self.slots[i]);
            }
        }
        None
    }

    /// Registers the module, under its name, in a new slot.
    pub fn add_module(&mut self, module: Module) -> (slot: usize)
        ensures
            slot == old(self).slots.len(),
            final(self).slots@ == old(self).slots@.push(module),
    {
        self.slots.push(module);
        self.slots.len() - 1
    }
}

/// The state that is shared by the processes of one machine.
pub struct Machine {
    /// The modules that are loaded.
    pub modules: Registry,
    /// What the calls run.
    pub exports: ExportsTable,
    /// The modules that are prepared and not yet loaded; a slot is emptied
    /// when its module is loaded.
    pub prepared: Vec<Option<Module>>,
    /// The names of the modules that are loaded before the machine starts.
    pub pre_loaded: Vec<u32>,
    /// The native functions of the module `beam_lib`: name, arity and number.
    pub beam_lib_nifs: Vec<(u32, u32, u32)>,
    /// The number of the next reference that is handed out.
    pub next_ref: u64,
}

impl Machine {
    /// A machine that knows the built-in functions and nothing else.
    pub fn new(bifs: &[(MFA, u32)]) -> (vm: Machine)
        ensures
            vm.next_ref == 0,
            vm.modules.slots.len() == 0,
            vm.prepared.len() == 0,
            vm.exports@ == crate::exports_table::bif_exports(bifs@),
    {
        Machine {
            modules: Registry::new(),
            exports: ExportsTable::with_bifs(bifs),
            prepared: Vec::new(),
            pre_loaded: Vec::new(),
            beam_lib_nifs: Vec::new(),
            next_ref: 0,
        }
    }

    /// Hands out a reference that was not handed out before. The counter
    /// wraps around after the last number.
    pub fn next_ref(&mut self) -> (r: u64)
        ensures
            r == old(self).next_ref,
            final(self).next_ref == (if old(self).next_ref == u64::MAX {
                0
            } else {
                old(self).next_ref + 1
            }),
            final(self).modules == old(self).modules,
            final(self).exports == old(self).exports,
            final(self).prepared == old(self).prepared,
            final(self).pre_loaded == old(self).pre_loaded,
            final(self).beam_lib_nifs == old(self).beam_lib_nifs,
    {
        let r = self.next_ref;
        self.next_ref = if r == u64::MAX {
            0
        } else {
            r + 1
        };
        r
    }
}

} // verus!
