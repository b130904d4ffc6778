//! The boundary to the machine.
//!
//! A lock operation that may have to wait is given as a step: one call does
//! one round of the protocol on the lock's state and tells the caller what
//! to do before the next round.

use vstd::prelude::*;

verus! {

/// What the calling CPU has to do after one step of a lock operation.
#[derive(Clone, Copy, Debug, PartialEq, Eq, Structural)]
pub enum Action {
    /// The operation is complete: the lock is held, or has been released.
    Done,
    /// Issue this many pause hints, then step again.
    Pause(u32),
    /// Busy-wait for this many cycles of the timestamp counter, then step again.
    Delay(u64),
    /// Yield the CPU, then step again.
    Yield,
    /// The running CPU already owns the lock it waits for. Report it, then
    /// step again: the wait goes on.
    SelfDeadlock,
    /// The owner has held the lock beyond the hold-time limit. The caller
    /// must raise the kernel's fatal signal and not step again.
    Fatal,
}

impl Action {
    /// Whether the operation that returned this action is complete.
    pub fn is_done(&self) -> (r: bool)
        ensures
            r == (*self == Action::Done),
    {
        match self {
            Action::Done => true,
            _ => false,
        }
    }
}

} // verus!
