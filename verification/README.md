# hasse_diagram

Binary relations on the set `1..=n` (for `1 <= n <= 10`), stored as a boolean
matrix; a check of the partial-order laws that reports the first violation of each
law; the covering pairs (Hasse edges) of a partial order; and a layered layout of
the Hasse diagram, each label on the level of the longest path that reaches it.

- `src/` is the library, written in Verus. Every function carries a contract that
  Verus proves, and the library's laws are public proof functions
  (`lemma_read_after_write`, `lemma_diagnostics_are_determined`,
  `lemma_cover_listing_is_determined`, `lemma_cover_edges_fail_like_validation`,
  `lemma_order_is_closure_of_covers`, `lemma_cover_edges_can_be_laid_out`,
  `lemma_least_ready_order_is_least`, `lemma_layout_is_determined`,
  `lemma_level_widths`).
- `app/` is the egui/eframe window around the library: the matrix editor, the
  painter of the diagram and the floating-point node positions.
- `tests/` runs the library on concrete relations.
