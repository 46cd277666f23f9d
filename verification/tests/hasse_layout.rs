use hasse_diagram::hasse_layout::{HasseLayout, HasseLayoutNode};
use hasse_diagram::relation_matrix::{HasseCoverEdge, RelationMatrix, RelationMatrixError};

#[derive(Debug, Clone, Copy)]
struct RelationCell {
    row: usize,
    column: usize,
}

fn cell(row: usize, column: usize) -> RelationCell {
    RelationCell { row, column }
}

fn edge(lower: usize, upper: usize) -> HasseCoverEdge {
    HasseCoverEdge { lower, upper }
}

fn matrix_with_true_pairs(
    size: usize,
    pairs: &[RelationCell],
) -> Result<RelationMatrix, RelationMatrixError> {
    let mut matrix = RelationMatrix::new(size)?;

    for pair in pairs {
        matrix.set(pair.row, pair.column, true)?;
    }

    Ok(matrix)
}

#[test]
fn layout_is_deterministic_for_same_cover_edges() {
    let matrix = matrix_with_true_pairs(
        4,
        &[
            cell(1, 1),
            cell(2, 2),
            cell(3, 3),
            cell(4, 4),
            cell(1, 2),
            cell(1, 3),
            cell(1, 4),
            cell(2, 4),
            cell(3, 4),
        ],
    )
    .expect("valid matrix must be created");
    let cover_edges = matrix
        .hasse_cover_edges()
        .expect("valid partial order must yield cover edges");

    let first = HasseLayout::new(matrix.size(), &cover_edges)
        .expect("layout should succeed for valid cover edges");
    let second = HasseLayout::new(matrix.size(), &cover_edges)
        .expect("layout should be repeatable");

    assert_eq!(first, second);
}

#[test]
fn layout_covers_every_node_label_from_one_to_n() {
    let matrix = matrix_with_true_pairs(
        4,
        &[
            cell(1, 1),
            cell(2, 2),
            cell(3, 3),
            cell(4, 4),
            cell(1, 2),
        ],
    )
    .expect("valid matrix must be created");
    let cover_edges = matrix
        .hasse_cover_edges()
        .expect("valid partial order must yield cover edges");

    let layout = HasseLayout::new(matrix.size(), &cover_edges)
        .expect("layout should succeed for valid cover edges");
    let labels: Vec<usize> = layout.nodes().iter().map(|node| node.label).collect();

    assert_eq!(labels, vec![1, 2, 3, 4]);
}

#[test]
fn diamond_layout_uses_stable_levels_and_ordering_inside_level() {
    let matrix = matrix_with_true_pairs(
        4,
        &[
            cell(1, 1),
            cell(2, 2),
            cell(3, 3),
            cell(4, 4),
            cell(1, 2),
            cell(1, 3),
            cell(1, 4),
            cell(2, 4),
            cell(3, 4),
        ],
    )
    .expect("valid matrix must be created");
    let cover_edges = matrix
        .hasse_cover_edges()
        .expect("valid partial order must yield cover edges");

    let layout = HasseLayout::new(matrix.size(), &cover_edges)
        .expect("layout should succeed for valid cover edges");

    assert_eq!(layout.level_count(), 3);
    assert_eq!(layout.level_width(0), Some(1));
    assert_eq!(layout.level_width(1), Some(2));
    assert_eq!(layout.level_width(2), Some(1));
    assert_eq!(
        layout.nodes(),
        &[
            HasseLayoutNode {
                label: 1,
                level: 0,
                index_in_level: 0,
            },
            HasseLayoutNode {
                label: 2,
                level: 1,
                index_in_level: 0,
            },
            HasseLayoutNode {
                label: 3,
                level: 1,
                index_in_level: 1,
            },
            HasseLayoutNode {
                label: 4,
                level: 2,
                index_in_level: 0,
            },
        ]
    );

    assert_eq!(
        cover_edges,
        vec![edge(1, 2), edge(1, 3), edge(2, 4), edge(3, 4)]
    );
}
