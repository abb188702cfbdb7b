use health_sync::state::HookState;

#[test]
fn removal_is_permitted_from_the_three_live_states() {
    assert!(HookState::Created.permits_removal());
    assert!(HookState::Enabled.permits_removal());
    assert!(HookState::Disabled.permits_removal());
    assert!(!HookState::Uninstalled.permits_removal());
    assert!(!HookState::Removed.permits_removal());
}

#[test]
fn enabling_is_permitted_from_created_and_disabled() {
    assert!(HookState::Created.permits_enabling());
    assert!(HookState::Disabled.permits_enabling());
    assert!(!HookState::Enabled.permits_enabling());
    assert!(!HookState::Uninstalled.permits_enabling());
    assert!(!HookState::Removed.permits_enabling());
}
