//! The state that a process owns.
use crate::bitstring::builder::Builder;
use crate::bitstring::{BinaryTable, RcBinary};
use vstd::prelude::*;

verus! {

/// What the instructions of a process work on.
#[derive(Debug)]
pub struct Context {
    /// The binaries that the terms of the process view.
    pub binaries: BinaryTable,
    /// The builder of the bitstring under construction.
    pub bs: Builder,
}

/// A process: it owns its binaries and its builder, and nobody else writes
/// to them.
#[derive(Debug)]
pub struct Process {
    pub pid: u32,
    pub context: Context,
}

impl Process {
    /// A process without binaries.
    pub fn new(pid: u32) -> (p: Process)
        ensures
            p.pid == pid,
            p.context.binaries.bins.len() == 0,
    {
        Process {
            pid,
            context: Context { binaries: BinaryTable::new(), bs: Builder::new(RcBinary(0)) },
        }
    }
}

} // verus!
