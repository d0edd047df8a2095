//! Built-in functions for dynamic tracing. Tracing is not built in: they
//! are here for the code that calls them.
use crate::atom;
use crate::exception::Exception;
use crate::process::Process;
use crate::value::Term;
use crate::vm::Machine;
use vstd::prelude::*;

verus! {

pub fn dt_put_tag_1(_vm: &Machine, _process: &Process, _args: &[Term]) -> (r: Result<
    Term,
    Exception,
>)
    ensures
        r == Ok::<Term, Exception>(Term::Atom(atom::UNDEFINED)),
{
    Ok(Term::Atom(atom::UNDEFINED))
}

pub fn dt_get_tag_0(_vm: &Machine, _process: &Process, _args: &[Term]) -> (r: Result<
    Term,
    Exception,
>)
    ensures
        r == Ok::<Term, Exception>(Term::Atom(atom::UNDEFINED)),
{
    Ok(Term::Atom(atom::UNDEFINED))
}

pub fn dt_get_tag_data_0(_vm: &Machine, _process: &Process, _args: &[Term]) -> (r: Result<
    Term,
    Exception,
>)
    ensures
        r == Ok::<Term, Exception>(Term::Atom(atom::UNDEFINED)),
{
    Ok(Term::Atom(atom::UNDEFINED))
}

pub fn dt_spread_tag_1(_vm: &Machine, _process: &Process, _args: &[Term]) -> (r: Result<
    Term,
    Exception,
>)
    ensures
        r == Ok::<Term, Exception>(Term::Atom(atom::TRUE)),
{
    Ok(Term::Atom(atom::TRUE))
}

pub fn dt_restore_tag_1(_vm: &Machine, _process: &Process, _args: &[Term]) -> (r: Result<
    Term,
    Exception,
>)
    ensures
        r == Ok::<Term, Exception>(Term::Atom(atom::TRUE)),
{
    Ok(Term::Atom(atom::TRUE))
}

/// Gives its argument back.
pub fn dt_prepend_vm_tag_data_1(_vm: &Machine, _process: &Process, args: &[Term]) -> (r: Result<
    Term,
    Exception,
>)
    requires
        args.len() >= 1,
    ensures
        r matches Ok(t) && t@ == args[0]@,
{
    Ok(args[0].clone())
}

/// Gives its argument back.
pub fn dt_append_vm_tag_data_1(_vm: &Machine, _process: &Process, args: &[Term]) -> (r: Result<
    Term,
    Exception,
>)
    requires
        args.len() >= 1,
    ensures
        r matches Ok(t) && t@ == args[0]@,
{
    Ok(args[0].clone())
}

} // verus!
