use hasse_diagram::bootstrap::{contains_text_exec, BootstrapState, READY_MESSAGE};
use hasse_diagram::gui_state::{BuildState, HasseGuiState};
use hasse_diagram::hasse_layout::{HasseLayout, HasseLayoutError, HasseLayoutNode};
use hasse_diagram::relation_matrix::{
    AntisymmetryWitness, HasseCoverEdge, PartialOrderDiagnostics, RelationMatrix, RelationMatrixError,
    TransitivityWitness,
};
use hasse_diagram::rendered_diagram::RenderedDiagram;
use hasse_diagram::text::decimal_string;

fn edge(lower: usize, upper: usize) -> HasseCoverEdge {
    HasseCoverEdge { lower, upper }
}

fn node(label: usize, level: usize, index_in_level: usize) -> HasseLayoutNode {
    HasseLayoutNode { label, level, index_in_level }
}

fn matrix(size: usize, pairs: &[(usize, usize)]) -> RelationMatrix {
    let mut matrix = RelationMatrix::new(size).expect("supported size");
    for &(row, column) in pairs {
        matrix.set(row, column, true).expect("cell in range");
    }
    matrix
}

fn chain(size: usize) -> RelationMatrix {
    let mut pairs = Vec::new();
    for lower in 1..=size {
        for upper in lower..=size {
            pairs.push((lower, upper));
        }
    }
    matrix(size, &pairs)
}

#[test]
fn reading_after_writing_returns_the_written_value_and_leaves_other_cells() {
    let mut m = RelationMatrix::new(4).unwrap();
    m.set(2, 3, true).unwrap();
    assert_eq!(m.get(2, 3), Ok(true));
    assert_eq!(m.get(3, 2), Ok(false));
    m.set(2, 3, false).unwrap();
    assert_eq!(m.get(2, 3), Ok(false));
    for row in 1..=4 {
        for column in 1..=4 {
            assert_eq!(m.get(row, column), Ok(false));
        }
    }
}

#[test]
fn writing_outside_the_matrix_changes_nothing() {
    let mut m = matrix(2, &[(1, 2)]);
    let before = m.clone();
    assert_eq!(
        m.set(1, 3, true),
        Err(RelationMatrixError::ElementOutOfBounds { element: 3, size: 2 })
    );
    assert_eq!(
        m.set(0, 9, true),
        Err(RelationMatrixError::ElementOutOfBounds { element: 0, size: 2 })
    );
    assert_eq!(m, before);
}

#[test]
fn the_row_is_checked_before_the_column() {
    let m = RelationMatrix::new(3).unwrap();
    assert_eq!(
        m.get(5, 0),
        Err(RelationMatrixError::ElementOutOfBounds { element: 5, size: 3 })
    );
    assert_eq!(
        m.get(2, 0),
        Err(RelationMatrixError::ElementOutOfBounds { element: 0, size: 3 })
    );
}

#[test]
fn the_first_witness_of_each_law_is_reported() {
    // 1 and 3 are not reflexive; (1,2) and (2,3) both break antisymmetry;
    // 1 -> 2 -> 3 lacks 1 -> 3.
    let m = matrix(3, &[(2, 2), (1, 2), (2, 1), (2, 3), (3, 2)]);
    let diagnostics = PartialOrderDiagnostics {
        reflexivity_witness: Some(1),
        antisymmetry_witness: Some(AntisymmetryWitness { left: 1, right: 2 }),
        transitivity_witness: Some(TransitivityWitness { source: 1, middle: 2, target: 1 }),
    };
    assert_eq!(m.validate_partial_order(), Err(diagnostics.clone()));
    assert_eq!(m.hasse_cover_edges(), Err(diagnostics.clone()));
    assert!(!diagnostics.is_valid());
}

#[test]
fn diagnostics_without_witnesses_are_valid() {
    let diagnostics = PartialOrderDiagnostics {
        reflexivity_witness: None,
        antisymmetry_witness: None,
        transitivity_witness: None,
    };
    assert!(diagnostics.is_valid());
}

#[test]
fn report_lines_name_every_law() {
    let failing = PartialOrderDiagnostics {
        reflexivity_witness: Some(2),
        antisymmetry_witness: Some(AntisymmetryWitness { left: 1, right: 3 }),
        transitivity_witness: Some(TransitivityWitness { source: 1, middle: 2, target: 10 }),
    };
    assert_eq!(
        failing.report_messages(),
        vec![
            "- Нарушены условия частичного порядка:".to_owned(),
            "  • Рефлексивность нарушена: (2, 2) = 0.".to_owned(),
            "  • Антисимметричность нарушена: (1, 3) = 1 и (3, 1) = 1.".to_owned(),
            "  • Транзитивность нарушена: (1, 2) = 1 и (2, 10) = 1, но (1, 10) = 0.".to_owned(),
        ]
    );
    let passing = PartialOrderDiagnostics {
        reflexivity_witness: None,
        antisymmetry_witness: None,
        transitivity_witness: None,
    };
    assert_eq!(
        passing.report_messages(),
        vec![
            "- Нарушены условия частичного порядка:".to_owned(),
            "  • Рефлексивность: OK.".to_owned(),
            "  • Антисимметричность: OK.".to_owned(),
            "  • Транзитивность: OK.".to_owned(),
        ]
    );
}

#[test]
fn the_cover_of_a_chain_links_neighbours() {
    let m = chain(10);
    let expected: Vec<HasseCoverEdge> = (1..10).map(|l| edge(l, l + 1)).collect();
    assert_eq!(m.hasse_cover_edges(), Ok(expected));
}

#[test]
fn an_antichain_has_no_cover_edges_and_one_level() {
    let m = matrix(3, &[(1, 1), (2, 2), (3, 3)]);
    let edges = m.hasse_cover_edges().unwrap();
    assert!(edges.is_empty());
    let layout = HasseLayout::new(3, &edges).unwrap();
    assert_eq!(layout.level_count(), 1);
    assert_eq!(layout.level_width(0), Some(3));
    assert_eq!(layout.nodes(), &[node(1, 0, 0), node(2, 0, 1), node(3, 0, 2)]);
}

#[test]
fn the_cover_of_a_partial_order_always_has_a_layout() {
    let m = chain(10);
    let edges = m.hasse_cover_edges().unwrap();
    let layout = HasseLayout::new(m.size(), &edges).unwrap();
    assert_eq!(layout.level_count(), 10);
    for label in 1..=10 {
        assert_eq!(layout.node(label), Some(&node(label, label - 1, 0)));
    }
}

#[test]
fn edges_always_rise_in_the_layout() {
    let edges = vec![edge(4, 2), edge(2, 1), edge(4, 1), edge(3, 1)];
    let layout = HasseLayout::new(4, &edges).unwrap();
    for e in &edges {
        let lower = layout.node(e.lower).unwrap();
        let upper = layout.node(e.upper).unwrap();
        assert!(lower.level < upper.level);
    }
    // Label 1 is reached by the longest path 4 -> 2 -> 1.
    assert_eq!(layout.nodes(), &[node(1, 2, 0), node(2, 1, 0), node(3, 0, 0), node(4, 0, 1)]);
    assert_eq!(layout.level_count(), 3);
    assert_eq!(layout.level_width(0), Some(2));
    assert_eq!(layout.level_width(3), None);
}

#[test]
fn repeated_edges_are_accepted() {
    let layout = HasseLayout::new(2, &[edge(1, 2), edge(1, 2)]).unwrap();
    assert_eq!(layout.nodes(), &[node(1, 0, 0), node(2, 1, 0)]);
}

#[test]
fn layout_of_no_labels_is_refused() {
    assert_eq!(
        HasseLayout::new(0, &[]),
        Err(HasseLayoutError::InvalidNodeCount { node_count: 0 })
    );
}

#[test]
fn the_first_edge_out_of_bounds_is_reported() {
    assert_eq!(
        HasseLayout::new(3, &[edge(1, 2), edge(0, 1), edge(4, 1)]),
        Err(HasseLayoutError::EdgeOutOfBounds { edge: edge(0, 1), node_count: 3 })
    );
    assert_eq!(
        HasseLayout::new(3, &[edge(1, 4)]),
        Err(HasseLayoutError::EdgeOutOfBounds { edge: edge(1, 4), node_count: 3 })
    );
}

#[test]
fn cycles_are_detected() {
    assert_eq!(
        HasseLayout::new(3, &[edge(1, 2), edge(2, 3), edge(3, 1)]),
        Err(HasseLayoutError::CycleDetected)
    );
    assert_eq!(
        HasseLayout::new(2, &[edge(2, 2)]),
        Err(HasseLayoutError::CycleDetected)
    );
}

#[test]
fn missing_nodes_read_as_none() {
    let layout = HasseLayout::new(2, &[edge(1, 2)]).unwrap();
    assert_eq!(layout.node(0), None);
    assert_eq!(layout.node(3), None);
    assert_eq!(layout.node(2), Some(&node(2, 1, 0)));
}

#[test]
fn layout_errors_are_written_in_debug_notation() {
    let errors = [
        HasseLayoutError::InvalidNodeCount { node_count: 0 },
        HasseLayoutError::EdgeOutOfBounds { edge: edge(12, 3), node_count: 7 },
        HasseLayoutError::CycleDetected,
    ];
    for error in errors {
        let mut text = String::from(">");
        error.write_debug(&mut text);
        assert_eq!(text, format!(">{:?}", error));
    }
}

#[test]
fn decimals_are_written_without_leading_zeros() {
    assert_eq!(decimal_string(0), "0");
    assert_eq!(decimal_string(7), "7");
    assert_eq!(decimal_string(10), "10");
    assert_eq!(decimal_string(1234567890), "1234567890");
    assert_eq!(decimal_string(usize::MAX), usize::MAX.to_string());
}

#[test]
fn edges_are_written_as_pairs() {
    assert_eq!(edge(3, 10).to_text(), "(3, 10)");
}

#[test]
fn cover_edges_are_listed_with_commas() {
    let layout = HasseLayout::new(3, &[]).unwrap();
    let empty = RenderedDiagram { cover_edges: Vec::new(), layout: layout.clone() };
    assert_eq!(empty.formatted_cover_edges(), "нет");
    let one = RenderedDiagram { cover_edges: vec![edge(1, 2)], layout: layout.clone() };
    assert_eq!(one.formatted_cover_edges(), "(1, 2)");
    let three = RenderedDiagram { cover_edges: vec![edge(1, 2), edge(1, 3), edge(2, 3)], layout };
    assert_eq!(three.formatted_cover_edges(), "(1, 2), (1, 3), (2, 3)");
}

#[test]
fn text_search_finds_pieces_anywhere() {
    assert!(contains_text_exec("ввод на 1..n.", "1..n"));
    assert!(contains_text_exec("1..n", "1..n"));
    assert!(contains_text_exec("abc", ""));
    assert!(!contains_text_exec("1..m", "1..n"));
    assert!(!contains_text_exec("..n", "1..n"));
}

#[test]
fn default_bootstrap_state_is_the_start_up_state() {
    let state = BootstrapState::default();
    assert_eq!(state, BootstrapState::new());
    assert_eq!(state.status_message(), READY_MESSAGE);
    assert!(state.is_ready_for_matrix_input());
}

#[test]
fn a_fresh_editor_holds_the_empty_relation_on_one_element() {
    let state = HasseGuiState::new("ready");
    assert_eq!(state.size(), 1);
    assert!(!state.cell(1, 1));
    assert_eq!(state.status_message(), "ready");
    assert!(matches!(state.build_state(), BuildState::Idle));
    assert_eq!(state.result_messages(), vec!["- Диаграмма ещё не строилась.".to_owned()]);
}

#[test]
fn editing_reports_that_the_diagram_was_dropped() {
    let mut state = HasseGuiState::new("ready");
    state.set_cell(1, 1, true);
    assert!(state.cell(1, 1));
    assert_eq!(
        state.status_message(),
        "Матрица изменена. Нажмите кнопку проверки, чтобы обновить диаграмму."
    );
    assert_eq!(
        state.result_messages(),
        vec!["- Текущая диаграмма сброшена: матрица изменилась.".to_owned()]
    );
    state.resize(4);
    assert_eq!(
        state.status_message(),
        "Размер матрицы изменён. Заполните значения и запустите проверку."
    );
    for row in 1..=4 {
        for column in 1..=4 {
            assert!(!state.cell(row, column));
        }
    }
}

#[test]
fn a_successful_build_reports_its_sizes() {
    let mut state = HasseGuiState::new("ready");
    state.resize(4);
    for &(row, column) in &[(1, 1), (2, 2), (3, 3), (4, 4), (1, 2), (1, 3), (1, 4), (2, 4), (3, 4)] {
        state.set_cell(row, column, true);
    }
    state.build_diagram();
    assert_eq!(
        state.status_message(),
        "Отношение корректно. Построена диаграмма Хассе для n = 4. Узлов: 4, рёбер покрытия: 4, уровней: 3."
    );
    assert_eq!(
        state.result_messages(),
        vec![
            "- Проверка частичного порядка пройдена.".to_owned(),
            "- Рёбра покрытия: (1, 2), (1, 3), (2, 4), (3, 4).".to_owned(),
            "- Уровней layout: 3.".to_owned(),
        ]
    );
}

#[test]
fn a_failed_build_reports_the_diagnostics() {
    let mut state = HasseGuiState::new("ready");
    state.resize(2);
    state.set_cell(1, 1, true);
    state.build_diagram();
    assert_eq!(
        state.status_message(),
        "Отношение не является частичным порядком. Диаграмма не построена."
    );
    assert_eq!(
        state.result_messages(),
        vec![
            "- Нарушены условия частичного порядка:".to_owned(),
            "  • Рефлексивность нарушена: (2, 2) = 0.".to_owned(),
            "  • Антисимметричность: OK.".to_owned(),
            "  • Транзитивность: OK.".to_owned(),
        ]
    );
    match state.build_state() {
        BuildState::Invalid(diagnostics) => assert_eq!(diagnostics.reflexivity_witness, Some(2)),
        _ => panic!("the relation is not reflexive"),
    }
}

#[test]
fn level_widths_are_positive_and_add_up_to_the_labels() {
    for edges in [
        vec![edge(1, 2), edge(1, 3), edge(2, 4), edge(3, 4)],
        vec![edge(4, 2), edge(2, 1), edge(4, 1), edge(3, 1)],
        vec![],
        vec![edge(1, 5), edge(2, 5), edge(5, 6)],
    ] {
        let layout = HasseLayout::new(6, &edges).unwrap();
        let mut total = 0;
        for level in 0..layout.level_count() {
            let width = layout.level_width(level).unwrap();
            assert!(width >= 1);
            total += width;
        }
        assert_eq!(total, 6);
    }
}

#[test]
fn a_partial_order_is_the_closure_of_its_cover_edges() {
    let m = matrix(
        5,
        &[(1, 1), (2, 2), (3, 3), (4, 4), (5, 5), (1, 2), (1, 3), (1, 4), (2, 4), (3, 4), (1, 5), (2, 5), (3, 5), (4, 5)],
    );
    let edges = m.hasse_cover_edges().unwrap();
    for from in 1..=5 {
        let mut reached = vec![false; 6];
        reached[from] = true;
        let mut changed = true;
        while changed {
            changed = false;
            for e in &edges {
                if reached[e.lower] && !reached[e.upper] {
                    reached[e.upper] = true;
                    changed = true;
                }
            }
        }
        for to in 1..=5 {
            assert_eq!(m.get(from, to), Ok(reached[to]));
        }
    }
}
