//! The session state machine around the iteration engine.
//!
//! The engine itself is stateless; a controller owns the `Problem`, calls
//! the engine repeatedly, and must stop once a call ends in a terminal
//! signal.  This module fixes that protocol: the phases a session moves
//! through, how one engine outcome advances the phase, and what a
//! discrete user event may trigger in each phase.

use crate::interior::{InteriorPointError, InteriorPointIteration};
use vstd::prelude::*;

verus! {

/// Where a solving session stands.
#[derive(Clone, Copy, Debug, PartialEq, Eq, Structural)]
pub enum SessionPhase {
    /// A problem may be configured; no iteration has run.
    Ready,
    /// At least one iteration succeeded.
    Iterating,
    /// The last call reported no improving direction; terminal.
    Converged,
    /// The last call failed; terminal.
    Failed,
}

/// A user-visible event driving the session.
#[derive(Clone, Copy, Debug)]
pub enum SessionEvent {
    /// Change the problem dimensions or coefficients being edited.
    Configure,
    /// Build a fresh problem and run its first iteration.
    Start,
    /// Run one more iteration on the current problem.
    Step,
    /// Discard the problem and all snapshots.
    Reset,
}

/// What the surrounding program must do in response to an event.
#[derive(Clone, Copy, Debug, PartialEq, Eq, Structural)]
pub enum SessionAction {
    /// Update the editable settings; the session phase is unchanged.
    UpdateSettings,
    /// Replace the problem and run the first iteration.
    BeginAndIterate,
    /// Run one iteration of the current problem.
    Iterate,
    /// Do nothing: the session is in a terminal phase.
    Ignore,
    /// Drop the problem and snapshots and return to `Ready`.
    Clear,
}

/// A phase on which a well-behaved controller stops calling the engine.
pub open spec fn is_terminal(p: SessionPhase) -> bool {
    p is Converged || p is Failed
}

/// Whether the controller may run another iteration in this phase.
pub fn accepts_step(p: &SessionPhase) -> (r: bool)
    ensures
        r == !is_terminal(*p),
{
    match p {
        SessionPhase::Ready => true,
        SessionPhase::Iterating => true,
        SessionPhase::Converged => false,
        SessionPhase::Failed => false,
    }
}

/// Advances the phase on the outcome of one engine call: success keeps
/// iterating, a stalled step converges, any failure is fatal, and the two
/// terminal phases absorb every outcome.
pub fn next_phase(
    current: &SessionPhase,
    outcome: &Result<InteriorPointIteration, InteriorPointError>,
) -> (next: SessionPhase)
    ensures
        is_terminal(*current) ==> next == *current,
        !is_terminal(*current) && outcome is Ok ==> next is Iterating,
        !is_terminal(*current) && (outcome matches Err(e) && e is NoImprovement) ==> next
            is Converged,
        !is_terminal(*current) && (outcome matches Err(e) && !(e is NoImprovement)) ==> next
            is Failed,
        is_terminal(next) == (is_terminal(*current) || outcome is Err),
{
    match current {
        SessionPhase::Converged => SessionPhase::Converged,
        SessionPhase::Failed => SessionPhase::Failed,
        _ => match outcome {
            Ok(_) => SessionPhase::Iterating,
            Err(InteriorPointError::NoImprovement) => SessionPhase::Converged,
            Err(_) => SessionPhase::Failed,
        },
    }
}

/// What to do on a user event: configuration and reset are always
/// allowed, starting rebuilds the problem, and stepping is refused once
/// the session is terminal.
pub fn plan_event(phase: &SessionPhase, event: &SessionEvent) -> (a: SessionAction)
    ensures
        event is Configure ==> a is UpdateSettings,
        event is Start ==> a is BeginAndIterate,
        event is Reset ==> a is Clear,
        event is Step && !is_terminal(*phase) ==> a is Iterate,
        event is Step && is_terminal(*phase) ==> a is Ignore,
{
    match event {
        SessionEvent::Configure => SessionAction::UpdateSettings,
        SessionEvent::Start => SessionAction::BeginAndIterate,
        SessionEvent::Reset => SessionAction::Clear,
        SessionEvent::Step => {
            if accepts_step(phase) {
                SessionAction::Iterate
            } else {
                SessionAction::Ignore
            }
        },
    }
}

} // verus!
