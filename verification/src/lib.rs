//! Relations on the set `1..=n`, the partial-order check, the Hasse cover of
//! a partial order and a layered layout of its diagram.
//!
//! - `relation_matrix`: the relation, its partial-order laws and its cover edges;
//! - `graph`: edges between labels, rankings and topological orders;
//! - `hasse_layout`: the layered layout of a graph of labels;
//! - `rendered_diagram`, `gui_state`, `bootstrap`: the state behind the editor window;
//! - `text`: decimal notation, and reading a count back from a text.

pub mod bootstrap;
pub mod graph;
pub mod gui_state;
pub mod hasse_layout;
pub mod relation_matrix;
pub mod rendered_diagram;
pub mod text;
