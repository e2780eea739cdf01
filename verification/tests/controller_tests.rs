use interior_point::controller::{
    accepts_step, next_phase, plan_event, SessionAction, SessionEvent, SessionPhase,
};
use interior_point::interior::{InteriorPointError, InteriorPointIteration};
use interior_point::rational::Rat;

fn empty_snapshot() -> InteriorPointIteration {
    InteriorPointIteration {
        d_matrix: vec![vec![Rat::one()]],
        a_tilde_matrix: vec![vec![Rat::one()]],
        c_tilde_vector: vec![Rat::one()],
        p_matrix: vec![vec![Rat::one()]],
        cp_vector: vec![Rat::one()],
        current_x: vec![Rat::one()],
    }
}

#[test]
fn success_keeps_iterating() {
    let ok: Result<InteriorPointIteration, InteriorPointError> = Ok(empty_snapshot());
    assert_eq!(next_phase(&SessionPhase::Ready, &ok), SessionPhase::Iterating);
    assert_eq!(
        next_phase(&SessionPhase::Iterating, &ok),
        SessionPhase::Iterating
    );
}

#[test]
fn stalling_converges_and_failures_are_fatal() {
    let stalled: Result<InteriorPointIteration, InteriorPointError> =
        Err(InteriorPointError::NoImprovement);
    assert_eq!(
        next_phase(&SessionPhase::Iterating, &stalled),
        SessionPhase::Converged
    );
    let singular: Result<InteriorPointIteration, InteriorPointError> =
        Err(InteriorPointError::SingularMatrix("degenerate".to_owned()));
    assert_eq!(
        next_phase(&SessionPhase::Iterating, &singular),
        SessionPhase::Failed
    );
    let overflow: Result<InteriorPointIteration, InteriorPointError> =
        Err(InteriorPointError::ArithmeticOverflow);
    assert_eq!(
        next_phase(&SessionPhase::Ready, &overflow),
        SessionPhase::Failed
    );
}

#[test]
fn terminal_phases_absorb_every_outcome() {
    let ok: Result<InteriorPointIteration, InteriorPointError> = Ok(empty_snapshot());
    assert_eq!(
        next_phase(&SessionPhase::Converged, &ok),
        SessionPhase::Converged
    );
    assert_eq!(next_phase(&SessionPhase::Failed, &ok), SessionPhase::Failed);
}

#[test]
fn stepping_is_refused_once_terminal() {
    assert!(accepts_step(&SessionPhase::Ready));
    assert!(accepts_step(&SessionPhase::Iterating));
    assert!(!accepts_step(&SessionPhase::Converged));
    assert!(!accepts_step(&SessionPhase::Failed));
    assert_eq!(
        plan_event(&SessionPhase::Converged, &SessionEvent::Step),
        SessionAction::Ignore
    );
    assert_eq!(
        plan_event(&SessionPhase::Iterating, &SessionEvent::Step),
        SessionAction::Iterate
    );
}

#[test]
fn configure_start_and_reset_are_always_allowed() {
    for phase in [
        SessionPhase::Ready,
        SessionPhase::Iterating,
        SessionPhase::Converged,
        SessionPhase::Failed,
    ] {
        assert_eq!(
            plan_event(&phase, &SessionEvent::Configure),
            SessionAction::UpdateSettings
        );
        assert_eq!(
            plan_event(&phase, &SessionEvent::Start),
            SessionAction::BeginAndIterate
        );
        assert_eq!(plan_event(&phase, &SessionEvent::Reset), SessionAction::Clear);
    }
}
