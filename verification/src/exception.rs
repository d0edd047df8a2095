//! Exceptions that a built-in function raises in the calling process.
use crate::value::Term;
use vstd::prelude::*;

verus! {

/// Why a built-in function failed.
#[allow(non_camel_case_types)]
#[derive(Clone, Copy, Debug, PartialEq, Eq, Structural)]
pub enum Reason {
    /// Badly typed or out-of-range argument.
    EXC_BADARG,
    /// The value is not a map.
    EXC_BADMAP,
    /// The map does not hold the key.
    EXC_BADKEY,
    /// A limit of the system was reached.
    EXC_SYSTEM_LIMIT,
    /// Generic error.
    EXC_ERROR,
}

/// A reason with the term it is about (nil where there is none).
#[derive(Clone, Debug, PartialEq, Eq)]
pub struct Exception {
    pub reason: Reason,
    pub value: Term,
}

impl Exception {
    pub fn new(reason: Reason) -> (e: Exception)
        ensures
            e.reason == reason,
            e.value == Term::Nil,
    {
        Exception { reason, value: Term::Nil }
    }

    pub fn with_value(reason: Reason, value: Term) -> (e: Exception)
        ensures
            e.reason == reason,
            e.value == value,
    {
        Exception { reason, value }
    }
}

/// The exception for a badly typed or out-of-range argument.
pub fn badarg() -> (e: Exception)
    ensures
        e.reason == Reason::EXC_BADARG,
        e.value == Term::Nil,
{
    Exception::new(Reason::EXC_BADARG)
}

} // verus!
