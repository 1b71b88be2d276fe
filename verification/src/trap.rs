//! Kernel trap handlers: what is to be done about a trap, decided from
//! the cause register. Reading the register and acting on the decision
//! are the caller's.

use vstd::prelude::*;
use crate::hw::INTERVAL;

verus! {

/// The bit of a cause register that tells an interrupt from an exception:
/// the top bit, so that an interrupt's cause is negative as a signed word.
pub const CAUSE_INTERRUPT: u64 = 0x8000_0000_0000_0000;

/// Cause number of the machine timer.
pub const CAUSE_MACHINE_TIMER: u64 = 7;

/// What to do about a trap.
#[derive(Clone, Copy, Debug, PartialEq, Eq, Structural)]
pub enum TrapAction {
    /// The machine timer went off: set it to go off again after
    /// `interval` ticks.
    RearmTimer { interval: u64 },
    /// Nothing handles the trap: report `cause` and stop the hart.
    Uncaught { cause: u64 },
}

/// The cause register reports an interrupt.
pub open spec fn spec_is_interrupt(cause: u64) -> bool {
    cause >= CAUSE_INTERRUPT
}

#[verifier::when_used_as_spec(spec_is_interrupt)]
pub fn is_interrupt(cause: u64) -> (interrupt: bool)
    ensures
        interrupt == spec_is_interrupt(cause),
{
    cause >= CAUSE_INTERRUPT
}

/// Machine mode trap handler. The trap is the machine timer's when the
/// whole cause register equals the timer's cause number and reports an
/// interrupt; every other trap is uncaught.
pub fn m_handler(cause: u64) -> (action: TrapAction)
    ensures
        action == (if cause == CAUSE_MACHINE_TIMER && spec_is_interrupt(cause) {
            TrapAction::RearmTimer { interval: INTERVAL }
        } else {
            TrapAction::Uncaught { cause }
        }),
{
    if cause == CAUSE_MACHINE_TIMER && is_interrupt(cause) {
        TrapAction::RearmTimer { interval: INTERVAL }
    } else {
        TrapAction::Uncaught { cause }
    }
}

} // verus!
