//! Entry points into bytecode.
use vstd::prelude::*;

verus! {

/// An entry point: a module, known by its name, and the offset of an
/// instruction of it.
#[derive(Copy, Clone, Debug, PartialEq, Eq, Structural)]
pub struct InstrPtr {
    /// The name of the module, an atom.
    pub module: u32,
    /// The offset of the instruction.
    pub ptr: u32,
}

} // verus!
