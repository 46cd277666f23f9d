use hasse_diagram::gui_state::{BuildState, HasseGuiState};
use hasse_diagram::relation_matrix::HasseCoverEdge;

fn edge(lower: usize, upper: usize) -> HasseCoverEdge {
    HasseCoverEdge { lower, upper }
}

#[test]
fn valid_relation_builds_renderable_diagram() {
    let mut state = HasseGuiState::new("ready");
    state.resize(3);

    state.set_cell(1, 1, true);
    state.set_cell(2, 2, true);
    state.set_cell(3, 3, true);
    state.set_cell(1, 2, true);
    state.set_cell(2, 3, true);
    state.set_cell(1, 3, true);

    state.build_diagram();

    let diagram = state
        .rendered_diagram()
        .expect("valid partial order must render a diagram");

    assert_eq!(diagram.cover_edges, vec![edge(1, 2), edge(2, 3)]);
    assert_eq!(diagram.layout.level_count(), 3);
    assert!(matches!(state.build_state(), BuildState::Valid(_)));
}

#[test]
fn invalid_relation_reports_diagnostics_and_clears_diagram() {
    let mut state = HasseGuiState::new("ready");
    state.resize(3);

    state.set_cell(1, 1, true);
    state.set_cell(2, 2, true);
    state.set_cell(3, 3, true);
    state.set_cell(1, 2, true);
    state.set_cell(2, 3, true);

    state.build_diagram();

    assert!(state.rendered_diagram().is_none());
    let messages = state.result_messages();
    assert!(messages
        .iter()
        .any(|message| message.contains("Транзитивность нарушена")));
    assert!(matches!(state.build_state(), BuildState::Invalid(_)));
}

#[test]
fn resizing_or_editing_matrix_invalidates_previous_build() {
    let mut state = HasseGuiState::new("ready");

    state.set_cell(1, 1, true);
    state.build_diagram();
    assert!(state.rendered_diagram().is_some());

    state.set_cell(1, 1, false);
    assert!(state.rendered_diagram().is_none());
    assert!(matches!(state.build_state(), BuildState::Dirty));

    state.resize(2);
    assert_eq!(state.size(), 2);
    assert!(state.rendered_diagram().is_none());
    assert!(matches!(state.build_state(), BuildState::Dirty));
}
