//! Who reacts to an interrupt: this process, or the child it launched.

use vstd::prelude::*;

verus! {

/// Exit code of a process that ended on an interrupt it handled itself.
pub const INTERRUPTED_EXIT_CODE: i32 = 130;

/// The party that currently owns interrupt handling.
#[derive(Clone, Copy, Debug, PartialEq, Eq, Structural)]
pub enum ControlOwner {
    /// This process reacts to interrupts. The state at startup.
    Parent,
    /// A launched child is the foreground program and reacts to interrupts.
    Shim,
}

/// What the interrupt handler does when an interrupt arrives.
#[derive(Clone, Copy, Debug, PartialEq, Eq, Structural)]
pub enum InterruptAction {
    /// Make the terminal cursor visible again, then exit with the given code.
    RestoreCursorAndExit(i32),
    /// Do nothing: the child receives the interrupt and this process keeps waiting for it.
    Ignore,
}

/// The owner of interrupt handling when the process starts.
pub fn initial_control() -> (owner: ControlOwner)
    ensures
        owner == ControlOwner::Parent,
{
    ControlOwner::Parent
}

/// Hands interrupt handling to the child that is about to be spawned.
/// Control is never handed back: the process ends with the child.
pub fn pass_control_to_shim(owner: &mut ControlOwner)
    ensures
        *final(owner) == ControlOwner::Shim,
{
    *owner = ControlOwner::Shim;
}

/// The handler's decision for an interrupt that arrives while `owner` has control.
pub open spec fn spec_on_interrupt(owner: ControlOwner) -> InterruptAction {
    match owner {
        ControlOwner::Parent => InterruptAction::RestoreCursorAndExit(INTERRUPTED_EXIT_CODE),
        ControlOwner::Shim => InterruptAction::Ignore,
    }
}

/// Decides what to do with an interrupt.
pub fn on_interrupt(owner: ControlOwner) -> (action: InterruptAction)
    ensures
        action == spec_on_interrupt(owner),
{
    match owner {
        ControlOwner::Parent => InterruptAction::RestoreCursorAndExit(INTERRUPTED_EXIT_CODE),
        ControlOwner::Shim => InterruptAction::Ignore,
    }
}

} // verus!
