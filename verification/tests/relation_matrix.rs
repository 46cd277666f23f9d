use hasse_diagram::relation_matrix::{
    AntisymmetryWitness, HasseCoverEdge, PartialOrderDiagnostics, RelationMatrix, RelationMatrixError,
    TransitivityWitness, MAX_RELATION_SIZE, MIN_RELATION_SIZE,
};

#[derive(Debug, Clone, Copy)]
struct RelationCell {
    row: usize,
    column: usize,
}

fn cell(row: usize, column: usize) -> RelationCell {
    RelationCell { row, column }
}

fn edge(lower: usize, upper: usize) -> HasseCoverEdge {
    HasseCoverEdge { lower, upper }
}

fn matrix_with_true_pairs(
    size: usize,
    pairs: &[RelationCell],
) -> Result<RelationMatrix, RelationMatrixError> {
    let mut matrix = RelationMatrix::new(size)?;

    for pair in pairs {
        matrix.set(pair.row, pair.column, true)?;
    }

    Ok(matrix)
}

#[test]
fn relation_matrix_creation_accepts_boundary_sizes() {
    let single = RelationMatrix::new(MIN_RELATION_SIZE).expect("n=1 must be valid");
    let max = RelationMatrix::new(MAX_RELATION_SIZE).expect("n=10 must be valid");

    assert_eq!(single.size(), MIN_RELATION_SIZE);
    assert_eq!(max.size(), MAX_RELATION_SIZE);
    assert_eq!(single.get(1, 1), Ok(false));
    assert_eq!(max.get(MAX_RELATION_SIZE, MAX_RELATION_SIZE), Ok(false));
}

#[test]
fn relation_matrix_creation_rejects_sizes_outside_supported_range() {
    assert_eq!(
        RelationMatrix::new(0),
        Err(RelationMatrixError::InvalidSize {
            size: 0,
            min: MIN_RELATION_SIZE,
            max: MAX_RELATION_SIZE,
        })
    );

    assert_eq!(
        RelationMatrix::new(MAX_RELATION_SIZE + 1),
        Err(RelationMatrixError::InvalidSize {
            size: MAX_RELATION_SIZE + 1,
            min: MIN_RELATION_SIZE,
            max: MAX_RELATION_SIZE,
        })
    );
}

#[test]
fn relation_matrix_get_and_set_work_for_elements_numbered_from_one() {
    let mut matrix = RelationMatrix::new(3).expect("valid size must construct matrix");

    matrix.set(1, 2, true).expect("set within range must succeed");
    matrix.set(3, 1, true).expect("set within range must succeed");

    assert_eq!(matrix.get(1, 2), Ok(true));
    assert_eq!(matrix.get(2, 1), Ok(false));
    assert_eq!(matrix.get(3, 1), Ok(true));
}

#[test]
fn relation_matrix_reports_bounds_errors_for_get_and_set() {
    let mut matrix = RelationMatrix::new(3).expect("valid size must construct matrix");

    assert_eq!(
        matrix.get(0, 1),
        Err(RelationMatrixError::ElementOutOfBounds {
            element: 0,
            size: 3,
        })
    );

    assert_eq!(
        matrix.get(1, 4),
        Err(RelationMatrixError::ElementOutOfBounds {
            element: 4,
            size: 3,
        })
    );

    assert_eq!(
        matrix.set(4, 2, true),
        Err(RelationMatrixError::ElementOutOfBounds {
            element: 4,
            size: 3,
        })
    );
}

#[test]
fn validate_partial_order_accepts_valid_partial_order() {
    let matrix = matrix_with_true_pairs(
        3,
        &[
            cell(1, 1),
            cell(2, 2),
            cell(3, 3),
            cell(1, 2),
            cell(1, 3),
            cell(2, 3),
        ],
    )
    .expect("valid matrix must be created");

    assert_eq!(matrix.validate_partial_order(), Ok(()));
}

#[test]
fn validate_partial_order_reports_reflexivity_witness() {
    let matrix = matrix_with_true_pairs(
        3,
        &[
            cell(1, 1),
            cell(3, 3),
        ],
    )
    .expect("valid matrix must be created");

    assert_eq!(
        matrix.validate_partial_order(),
        Err(PartialOrderDiagnostics {
            reflexivity_witness: Some(2),
            antisymmetry_witness: None,
            transitivity_witness: None,
        })
    );
}

#[test]
fn validate_partial_order_reports_antisymmetry_witness() {
    let matrix = matrix_with_true_pairs(
        3,
        &[
            cell(1, 1),
            cell(2, 2),
            cell(3, 3),
            cell(1, 2),
            cell(2, 1),
        ],
    )
    .expect("valid matrix must be created");

    assert_eq!(
        matrix.validate_partial_order(),
        Err(PartialOrderDiagnostics {
            reflexivity_witness: None,
            antisymmetry_witness: Some(AntisymmetryWitness { left: 1, right: 2 }),
            transitivity_witness: None,
        })
    );
}

#[test]
fn validate_partial_order_reports_transitivity_witness() {
    let matrix = matrix_with_true_pairs(
        3,
        &[
            cell(1, 1),
            cell(2, 2),
            cell(3, 3),
            cell(1, 2),
            cell(2, 3),
        ],
    )
    .expect("valid matrix must be created");

    assert_eq!(
        matrix.validate_partial_order(),
        Err(PartialOrderDiagnostics {
            reflexivity_witness: None,
            antisymmetry_witness: None,
            transitivity_witness: Some(TransitivityWitness {
                source: 1,
                middle: 2,
                target: 3,
            }),
        })
    );
}

#[test]
fn hasse_cover_edges_exclude_transitive_chain_edge() {
    let matrix = matrix_with_true_pairs(
        3,
        &[
            cell(1, 1),
            cell(2, 2),
            cell(3, 3),
            cell(1, 2),
            cell(2, 3),
            cell(1, 3),
        ],
    )
    .expect("valid matrix must be created");

    assert_eq!(
        matrix.hasse_cover_edges(),
        Ok(vec![edge(1, 2), edge(2, 3)])
    );
}

#[test]
fn hasse_cover_edges_keep_branching_cover_edges_in_deterministic_order() {
    let matrix = matrix_with_true_pairs(
        4,
        &[
            cell(1, 1),
            cell(2, 2),
            cell(3, 3),
            cell(4, 4),
            cell(1, 2),
            cell(1, 3),
            cell(1, 4),
            cell(2, 4),
            cell(3, 4),
        ],
    )
    .expect("valid matrix must be created");

    assert_eq!(
        matrix.hasse_cover_edges(),
        Ok(vec![edge(1, 2), edge(1, 3), edge(2, 4), edge(3, 4)])
    );
}

#[test]
fn hasse_cover_edges_return_validation_error_for_invalid_relation() {
    let matrix = matrix_with_true_pairs(
        3,
        &[
            cell(1, 1),
            cell(2, 2),
            cell(3, 3),
            cell(1, 2),
            cell(2, 3),
        ],
    )
    .expect("valid matrix must be created");

    assert_eq!(
        matrix.hasse_cover_edges(),
        Err(PartialOrderDiagnostics {
            reflexivity_witness: None,
            antisymmetry_witness: None,
            transitivity_witness: Some(TransitivityWitness {
                source: 1,
                middle: 2,
                target: 3,
            }),
        })
    );
}
