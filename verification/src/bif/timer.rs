//! Built-in functions on timers.
use crate::exception::{badarg, Exception, Reason};
use crate::process::Process;
use crate::value::Term;
use crate::vm::Machine;
use vstd::prelude::*;

verus! {

/// A message that is to be sent later. The runtime's timer delivers it.
#[derive(Debug)]
pub struct SendAfter {
    /// After how many milliseconds the message is sent.
    pub delay: u32,
    /// The process that armed the timer.
    pub from: u32,
    /// The process that gets the message.
    pub dest: Term,
    pub msg: Term,
}

/// `erlang:send_after(Time, Dest, Msg)`: a new reference, and the message
/// that the timer of the runtime is to deliver to the process `Dest` after
/// `Time` milliseconds. The caller does not wait.
pub fn send_after_3(vm: &mut Machine, process: &Process, args: &[Term]) -> (r: Result<
    (Term, SendAfter),
    Exception,
>)
    requires
        args.len() >= 3,
    ensures
        r is Ok <==> (args[0] matches Term::Int(i) && i >= 0) && args[1] is Pid,
        r matches Err(e) ==> e.reason == Reason::EXC_BADARG && *final(vm) == *old(vm),
        r matches Ok(p) ==> {
            &&& p.0 == Term::Ref(old(vm).next_ref)
            &&& p.1.delay == args[0]->Int_0
            &&& p.1.from == process.pid
            &&& p.1.dest@ == args[1]@
            &&& p.1.msg@ == args[2]@
            &&& final(vm).next_ref != old(vm).next_ref
            &&& final(vm).modules == old(vm).modules
            &&& final(vm).exports == old(vm).exports
            &&& final(vm).prepared == old(vm).prepared
        },
{
    // time, dest, msg
    let delay: u32 = match args[0].to_uint() {
        Some(i) => i,
        None => {
            return Err(badarg());
        },
    };
    if !args[1].is_pid() {
        return Err(badarg());
    }
    let dest = args[1].clone();
    let msg = args[2].clone();
    let from = process.pid;
    let reference = vm.next_ref();
    Ok((Term::Ref(reference), SendAfter { delay, from, dest, msg }))
}

} // verus!
