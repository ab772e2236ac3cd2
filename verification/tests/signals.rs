use quickenv::signals::{
    initial_control, on_interrupt, pass_control_to_shim, ControlOwner, InterruptAction,
    INTERRUPTED_EXIT_CODE,
};

#[test]
fn parent_has_control_at_startup() {
    assert_eq!(initial_control(), ControlOwner::Parent);
}

#[test]
fn control_passes_to_the_shim_and_stays_there() {
    let mut owner = initial_control();
    pass_control_to_shim(&mut owner);
    assert_eq!(owner, ControlOwner::Shim);
    pass_control_to_shim(&mut owner);
    assert_eq!(owner, ControlOwner::Shim);
}

#[test]
fn interrupt_ends_the_parent_with_the_interrupted_code() {
    assert_eq!(INTERRUPTED_EXIT_CODE, 130);
    assert_eq!(
        on_interrupt(ControlOwner::Parent),
        InterruptAction::RestoreCursorAndExit(130)
    );
}

#[test]
fn interrupt_is_left_to_the_child_that_has_control() {
    assert_eq!(on_interrupt(ControlOwner::Shim), InterruptAction::Ignore);
    let mut owner = ControlOwner::Parent;
    pass_control_to_shim(&mut owner);
    assert_eq!(on_interrupt(owner), InterruptAction::Ignore);
}
