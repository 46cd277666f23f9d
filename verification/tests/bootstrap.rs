use hasse_diagram::bootstrap::{BootstrapState, APP_TITLE, READY_MESSAGE};

#[test]
fn bootstrap_state_reports_readiness_for_matrix_input() {
    let state = BootstrapState::new();

    assert_eq!(state.app_title(), APP_TITLE);
    assert_eq!(state.status_message(), READY_MESSAGE);
    assert!(state.is_ready_for_matrix_input());
}
