use std::collections::BTreeSet;
use vstd::prelude::*;
use vstd::string::StringExecFns;

use crate::graph::{
    all_edges_in_bounds, are_longest_path_levels, edge_in_bounds, is_acyclic,
    is_first_out_of_bounds, is_ranking, is_ready, is_topological_order, label_range,
    lemma_distinct_labels, lemma_edge_is_listed, lemma_label_range_len, lemma_least_rank,
    lemma_listed_successor_is_edge, lemma_no_pending, lemma_no_pending_edge,
    lemma_occurrences_contains, lemma_occurrences_prefix, lemma_occurrences_push,
    lemma_pending_after_emit, lemma_pending_in_bounded, lemma_pending_in_prefix,
    lemma_pending_witness, lemma_successor_occurrences, occurrences, pending_in, same_counts,
    sort_labels, successors_of, takes_least_ready,
};
use crate::relation_matrix::{HasseCoverEdge, RelationMatrix};
use crate::text::{decimal, push_decimal};

verus! {

/// Why no layout could be built.
#[derive(Debug, Clone, PartialEq, Eq)]
pub enum HasseLayoutError {
    InvalidNodeCount { node_count: usize },
    EdgeOutOfBounds { edge: HasseCoverEdge, node_count: usize },
    CycleDetected,
}

impl HasseLayoutError {
    /// The error as its `Debug` notation shows it.
    pub open spec fn debug_text(&self) -> Seq<char> {
        match self {
            HasseLayoutError::InvalidNodeCount { node_count } => "InvalidNodeCount { node_count: "@ + decimal(
                *node_count as nat,
            ) + " }"@,
            HasseLayoutError::EdgeOutOfBounds { edge, node_count } => "EdgeOutOfBounds { edge: HasseCoverEdge { lower: "@
                + decimal(edge.lower as nat) + ", upper: "@ + decimal(edge.upper as nat) + " }, node_count: "@ + decimal(
                *node_count as nat,
            ) + " }"@,
            HasseLayoutError::CycleDetected => "CycleDetected"@,
        }
    }

    /// Appends the `Debug` notation of the error to `text`.
    pub fn write_debug(&self, text: &mut String)
        ensures
            final(text)@ == old(text)@ + self.debug_text(),
    {
        match self {
            HasseLayoutError::InvalidNodeCount { node_count } => {
                text.append("InvalidNodeCount { node_count: ");
                push_decimal(text, *node_count);
                text.append(" }");
            },
            HasseLayoutError::EdgeOutOfBounds { edge, node_count } => {
                text.append("EdgeOutOfBounds { edge: HasseCoverEdge { lower: ");
                push_decimal(text, edge.lower);
                text.append(", upper: ");
                push_decimal(text, edge.upper);
                text.append(" }, node_count: ");
                push_decimal(text, *node_count);
                text.append(" }");
            },
            HasseLayoutError::CycleDetected => {
                text.append("CycleDetected");
            },
        }
        assert(final(text)@ =~= old(text)@ + self.debug_text());
    }
}

/// Where a label stands in the layout: its level, and its rank among the labels of that level.
#[derive(Debug, Clone, PartialEq, Eq)]
pub struct HasseLayoutNode {
    pub label: usize,
    pub level: usize,
    pub index_in_level: usize,
}

/// A layered drawing of a Hasse diagram on the labels `1..=n`.
#[derive(Debug, Clone, PartialEq, Eq)]
pub struct HasseLayout {
    nodes: Vec<HasseLayoutNode>,
    level_widths: Vec<usize>,
}

/// The labels of `1..upto` whose level is `k`, in increasing order.
pub open spec fn labels_at_level(level: spec_fn(int) -> int, k: int, upto: int) -> Seq<usize>
    decreases upto,
{
    if upto <= 1 {
        Seq::empty()
    } else {
        let earlier = labels_at_level(level, k, upto - 1);
        if level(upto - 1) == k {
            earlier.push((upto - 1) as usize)
        } else {
            earlier
        }
    }
}

/// The level of each label as the nodes give it (label `v` is described by `nodes[v - 1]`).
pub open spec fn node_level(nodes: Seq<HasseLayoutNode>) -> spec_fn(int) -> int {
    |v: int| nodes[v - 1].level as int
}

impl HasseLayout {
    /// The node of each label, label `v` at position `v - 1`.
    pub closed spec fn node_seq(&self) -> Seq<HasseLayoutNode> {
        self.nodes@
    }

    /// The number of labels on each level.
    pub closed spec fn width_seq(&self) -> Seq<usize> {
        self.level_widths@
    }

    /// This is the layout of the graph with labels `1..=n` and the given edges: labels in
    /// order, each on the level of the longest path that reaches it, ranked by label inside
    /// its level, with one width per level up to the highest one.
    pub open spec fn lays_out(&self, n: int, edges: Seq<HasseCoverEdge>) -> bool {
        let nodes = self.node_seq();
        let widths = self.width_seq();
        let level = node_level(nodes);
        &&& nodes.len() == n
        &&& forall|i: int| 0 <= i < n ==> #[trigger] nodes[i].label == i + 1
        &&& are_longest_path_levels(n, edges, level)
        &&& forall|i: int| 0 <= i < n ==> #[trigger] nodes[i].index_in_level == labels_at_level(level, nodes[i].level as int, i + 1).len()
        &&& forall|i: int| 0 <= i < n ==> #[trigger] nodes[i].level < widths.len()
        &&& exists|i: int| 0 <= i < n && #[trigger] nodes[i].level + 1 == widths.len()
        &&& forall|k: int| 0 <= k < widths.len() ==> #[trigger] widths[k] == labels_at_level(level, k, n + 1).len()
    }

    /// Lays out the graph on the labels `1..=node_count` with the given edges: each label
    /// goes on the level of the longest path that reaches it, and the labels of a level
    /// are ranked in increasing order.
    pub fn new(node_count: usize, cover_edges: &[HasseCoverEdge]) -> (result: Result<Self, HasseLayoutError>)
        requires
            node_count < usize::MAX,
        ensures
            match result {
                Ok(layout) => {
                    &&& node_count >= 1
                    &&& all_edges_in_bounds(node_count as int, cover_edges@)
                    &&& is_acyclic(cover_edges@)
                    &&& layout.lays_out(node_count as int, cover_edges@)
                },
                Err(HasseLayoutError::InvalidNodeCount { node_count: reported }) => node_count == 0 && reported == 0,
                Err(HasseLayoutError::EdgeOutOfBounds { edge, node_count: reported }) => {
                    &&& node_count >= 1
                    &&& reported == node_count
                    &&& exists|i: int| #[trigger] is_first_out_of_bounds(node_count as int, cover_edges@, i)
                        && cover_edges@[i] == edge
                },
                Err(HasseLayoutError::CycleDetected) => {
                    &&& node_count >= 1
                    &&& all_edges_in_bounds(node_count as int, cover_edges@)
                    &&& !is_acyclic(cover_edges@)
                },
            },
    {
        let builder = HasseLayoutBuilder::new(node_count)?;
        proof {
            assert forall|v: int| 0 <= v <= node_count implies #[trigger] builder.incoming_counts@[v] + pending_in(
                cover_edges@,
                v,
                Seq::empty(),
            ) <= usize::MAX by {
                lemma_pending_in_bounded(cover_edges@, v, Seq::empty());
                assert(builder.incoming_counts@[v] == 0);
                assert(cover_edges.len() == cover_edges@.len());
            }
        }
        let filled = builder.with_cover_edges(cover_edges)?;
        proof {
            assert forall|v: int| 0 <= v <= filled.node_count implies same_counts(
                #[trigger] filled.successors@[v]@,
                successors_of(cover_edges@, v),
            ) by {
                assert(builder.successors@[v]@ == Seq::<usize>::empty());
                assert(builder.successors@[v]@ + successors_of(cover_edges@, v) =~= successors_of(cover_edges@, v));
            }
        }
        filled.build(Ghost(cover_edges@))
    }

    /// The nodes, label `v` at position `v - 1`.
    pub fn nodes(&self) -> (nodes: &[HasseLayoutNode])
        ensures
            nodes@ == self.node_seq(),
    {
        self.nodes.as_slice()
    }

    /// The node of `label`, if the layout has one.
    pub fn node(&self, label: usize) -> (node: Option<&HasseLayoutNode>)
        ensures
            match node {
                Some(found) => 1 <= label <= self.node_seq().len() && *found == self.node_seq()[label - 1],
                None => !(1 <= label <= self.node_seq().len()),
            },
    {
        if label >= 1 && label - 1 < self.nodes.len() {
            Some(&self.nodes[label - 1])
        } else {
            None
        }
    }

    /// The number of levels.
    pub fn level_count(&self) -> (count: usize)
        ensures
            count == self.width_seq().len(),
    {
        self.level_widths.len()
    }

    /// The number of labels on `level`, if that level exists.
    pub fn level_width(&self, level: usize) -> (width: Option<usize>)
        ensures
            match width {
                Some(w) => level < self.width_seq().len() && w == self.width_seq()[level as int],
                None => level >= self.width_seq().len(),
            },
    {
        if level < self.level_widths.len() {
            Some(self.level_widths[level])
        } else {
            None
        }
    }
}

/// Every entry of `labels_at_level(level, k, upto)` is a label below `upto` on level `k`,
/// preceded by exactly the labels of level `k` below it.
proof fn lemma_labels_at_level_entry(level: spec_fn(int) -> int, k: int, upto: int, j: int)
    requires
        0 <= j < labels_at_level(level, k, upto).len(),
        upto <= usize::MAX,
    ensures
        1 <= labels_at_level(level, k, upto)[j] < upto,
        level(labels_at_level(level, k, upto)[j] as int) == k,
        labels_at_level(level, k, labels_at_level(level, k, upto)[j] as int).len() == j,
    decreases upto,
{
    if upto > 1 {
        let earlier = labels_at_level(level, k, upto - 1);
        if j < earlier.len() {
            lemma_labels_at_level_entry(level, k, upto - 1, j);
            if level(upto - 1) == k {
                assert(labels_at_level(level, k, upto)[j] == earlier[j]);
            }
        }
    }
}

/// A label `v < upto` on level `k` stands in `labels_at_level(level, k, upto)` right after
/// the labels of level `k` below it.
proof fn lemma_labels_at_level_position(level: spec_fn(int) -> int, k: int, upto: int, v: int)
    requires
        1 <= v < upto,
        upto <= usize::MAX,
        level(v) == k,
    ensures
        labels_at_level(level, k, v).len() < labels_at_level(level, k, upto).len(),
        labels_at_level(level, k, upto)[labels_at_level(level, k, v).len() as int] == v,
    decreases upto,
{
    if v < upto - 1 {
        lemma_labels_at_level_position(level, k, upto - 1, v);
    } else {
        assert(labels_at_level(level, k, upto) == labels_at_level(level, k, v).push(v as usize));
    }
}

/// `labels_at_level` lists its labels in strictly increasing order.
proof fn lemma_labels_at_level_increasing(level: spec_fn(int) -> int, k: int, upto: int)
    requires
        upto <= usize::MAX,
    ensures
        forall|i: int, j: int| 0 <= i < j < labels_at_level(level, k, upto).len() ==> #[trigger] labels_at_level(level, k, upto)[i]
            < #[trigger] labels_at_level(level, k, upto)[j],
    decreases upto,
{
    if upto > 1 {
        lemma_labels_at_level_increasing(level, k, upto - 1);
        let earlier = labels_at_level(level, k, upto - 1);
        assert forall|i: int| 0 <= i < earlier.len() implies #[trigger] earlier[i] < upto - 1 by {
            lemma_labels_at_level_entry(level, k, upto - 1, i);
        }
    }
}

/// Sorting a strictly increasing list gives the list back: a sorted list with the same
/// labels, counted with repetition, is that list.
proof fn lemma_sorted_increasing_unique(a: Seq<usize>, b: Seq<usize>)
    requires
        forall|i: int, j: int| 0 <= i < j < a.len() ==> #[trigger] a[i] < #[trigger] a[j],
        forall|i: int, j: int| 0 <= i < j < b.len() ==> #[trigger] b[i] <= #[trigger] b[j],
        same_counts(a, b),
        a.len() == b.len(),
    ensures
        a == b,
    decreases a.len(),
{
    if a.len() > 0 {
        let top = a.last();
        let b_top = b.last();
        assert(a.contains(top)) by {
            assert(a[a.len() - 1] == top);
        }
        lemma_occurrences_contains(a, top);
        assert(occurrences(b, top as int) == occurrences(a, top as int));
        lemma_occurrences_contains(b, top);
        let ib = choose|i: int| 0 <= i < b.len() && b[i] == top;
        assert(top <= b_top) by {
            if ib < b.len() - 1 {
                assert(b[ib] <= b[b.len() - 1]);
            }
        }
        assert(b.contains(b_top)) by {
            assert(b[b.len() - 1] == b_top);
        }
        lemma_occurrences_contains(b, b_top);
        assert(occurrences(a, b_top as int) == occurrences(b, b_top as int));
        lemma_occurrences_contains(a, b_top);
        let ia = choose|i: int| 0 <= i < a.len() && a[i] == b_top;
        assert(b_top <= top) by {
            if ia < a.len() - 1 {
                assert(a[ia] < a[a.len() - 1]);
            }
        }
        assert(a =~= a.drop_last().push(top));
        assert(b =~= b.drop_last().push(top));
        assert forall|v: int| #[trigger] occurrences(a.drop_last(), v) == occurrences(b.drop_last(), v) by {
            lemma_occurrences_push(a.drop_last(), top, v);
            lemma_occurrences_push(b.drop_last(), top, v);
        }
        lemma_sorted_increasing_unique(a.drop_last(), b.drop_last());
        assert(a =~= b);
    } else {
        assert(a =~= b);
    }
}

/// `labels_at_level` only looks at the levels of the labels below `upto`.
proof fn lemma_labels_at_level_agree(level1: spec_fn(int) -> int, level2: spec_fn(int) -> int, k: int, upto: int)
    requires
        forall|v: int| 1 <= v < upto ==> #[trigger] level1(v) == level2(v),
    ensures
        labels_at_level(level1, k, upto) == labels_at_level(level2, k, upto),
    decreases upto,
{
    if upto > 1 {
        lemma_labels_at_level_agree(level1, level2, k, upto - 1);
    }
}

proof fn lemma_longest_path_levels_below(
    n: int,
    edges: Seq<HasseCoverEdge>,
    level1: spec_fn(int) -> int,
    level2: spec_fn(int) -> int,
    v: int,
)
    requires
        all_edges_in_bounds(n, edges),
        are_longest_path_levels(n, edges, level1),
        are_longest_path_levels(n, edges, level2),
        1 <= v <= n,
    ensures
        level1(v) <= level2(v),
    decreases level1(v),
{
    if level1(v) > 0 {
        let i = choose|i: int| 0 <= i < edges.len() && edges[i].upper == v && level1(edges[i].lower as int) + 1 == level1(v);
        assert(edge_in_bounds(n, edges[i]));
        lemma_longest_path_levels_below(n, edges, level1, level2, edges[i].lower as int);
        assert(level2(edges[i].lower as int) + 1 <= level2(edges[i].upper as int));
    }
}

/// Law: the longest-path levels of a graph are unique, so the layout of a graph is
/// determined by its labels and edges: any two layouts of the same graph are equal.
pub proof fn lemma_layout_is_determined(n: int, edges: Seq<HasseCoverEdge>, first: HasseLayout, second: HasseLayout)
    requires
        all_edges_in_bounds(n, edges),
        first.lays_out(n, edges),
        second.lays_out(n, edges),
    ensures
        first.node_seq() == second.node_seq(),
        first.width_seq() == second.width_seq(),
{
    let level1 = node_level(first.node_seq());
    let level2 = node_level(second.node_seq());
    assert forall|v: int| 1 <= v <= n implies #[trigger] level1(v) == level2(v) by {
        lemma_longest_path_levels_below(n, edges, level1, level2, v);
        lemma_longest_path_levels_below(n, edges, level2, level1, v);
    }
    assert forall|k: int, upto: int| 0 <= upto <= n + 1 implies #[trigger] labels_at_level(level1, k, upto)
        == labels_at_level(level2, k, upto) by {
        lemma_labels_at_level_agree(level1, level2, k, upto);
    }
    assert forall|i: int| 0 <= i < n implies #[trigger] first.node_seq()[i] == second.node_seq()[i] by {
        assert(level1(i + 1) == level2(i + 1));
        assert(first.node_seq()[i].level == second.node_seq()[i].level);
        assert(first.node_seq()[i].label == second.node_seq()[i].label);
        assert(labels_at_level(level1, first.node_seq()[i].level as int, i + 1) == labels_at_level(
            level2,
            second.node_seq()[i].level as int,
            i + 1,
        ));
        assert(first.node_seq()[i].index_in_level == labels_at_level(level1, first.node_seq()[i].level as int, i + 1).len());
        assert(second.node_seq()[i].index_in_level == labels_at_level(level2, second.node_seq()[i].level as int, i + 1).len());
    }
    assert(first.node_seq() =~= second.node_seq());
    let a = choose|i: int| 0 <= i < n && #[trigger] first.node_seq()[i].level + 1 == first.width_seq().len();
    let b = choose|i: int| 0 <= i < n && #[trigger] second.node_seq()[i].level + 1 == second.width_seq().len();
    assert(second.node_seq()[a].level < second.width_seq().len());
    assert(first.node_seq()[b].level < first.width_seq().len());
    assert forall|k: int| 0 <= k < first.width_seq().len() implies #[trigger] first.width_seq()[k] == second.width_seq()[k] by {
        assert(labels_at_level(level1, k, n + 1) == labels_at_level(level2, k, n + 1));
    }
    assert(first.width_seq() =~= second.width_seq());
}

/// The sum of the widths.
pub open spec fn width_total(widths: Seq<usize>) -> int
    decreases widths.len(),
{
    if widths.len() == 0 {
        0
    } else {
        width_total(widths.drop_last()) + widths.last()
    }
}

/// The number of labels below `upto` on the levels `0..count`.
spec fn labels_below_level(level: spec_fn(int) -> int, count: int, upto: int) -> int
    decreases count,
{
    if count <= 0 {
        0
    } else {
        labels_below_level(level, count - 1, upto) + labels_at_level(level, count - 1, upto).len()
    }
}

proof fn lemma_labels_below_level_step(level: spec_fn(int) -> int, count: int, upto: int)
    requires
        upto >= 2,
    ensures
        labels_below_level(level, count, upto) == labels_below_level(level, count, upto - 1) + if 0 <= level(upto - 1)
            < count {
            1int
        } else {
            0int
        },
    decreases count,
{
    if count > 0 {
        lemma_labels_below_level_step(level, count - 1, upto);
    }
}

proof fn lemma_labels_below_level_all(level: spec_fn(int) -> int, count: int, upto: int)
    requires
        upto >= 1,
        forall|v: int| 1 <= v < upto ==> 0 <= #[trigger] level(v) < count,
    ensures
        labels_below_level(level, count, upto) == upto - 1,
    decreases upto,
{
    if upto == 1 {
        lemma_labels_below_level_empty(level, count);
    } else {
        lemma_labels_below_level_all(level, count, upto - 1);
        lemma_labels_below_level_step(level, count, upto);
    }
}

proof fn lemma_labels_below_level_empty(level: spec_fn(int) -> int, count: int)
    ensures
        labels_below_level(level, count, 1) == 0,
    decreases count,
{
    if count > 0 {
        lemma_labels_below_level_empty(level, count - 1);
    }
}

/// Below every label stands a label on each lower level.
proof fn lemma_every_lower_level_used(n: int, edges: Seq<HasseCoverEdge>, level: spec_fn(int) -> int, v: int, k: int)
    requires
        all_edges_in_bounds(n, edges),
        are_longest_path_levels(n, edges, level),
        1 <= v <= n,
        0 <= k <= level(v),
    ensures
        exists|w: int| 1 <= w <= n && #[trigger] level(w) == k,
    decreases level(v) - k,
{
    if level(v) == k {
        assert(level(v) == k);
    } else {
        let i = choose|i: int| 0 <= i < edges.len() && edges[i].upper == v && level(edges[i].lower as int) + 1 == level(v);
        assert(edge_in_bounds(n, edges[i]));
        lemma_every_lower_level_used(n, edges, level, edges[i].lower as int, k);
    }
}

/// Law: every level of a layout holds at least one label, and the widths of the levels
/// add up to the number of labels.
pub proof fn lemma_level_widths(layout: HasseLayout, n: int, edges: Seq<HasseCoverEdge>)
    requires
        n < usize::MAX,
        all_edges_in_bounds(n, edges),
        layout.lays_out(n, edges),
    ensures
        forall|k: int| 0 <= k < layout.width_seq().len() ==> #[trigger] layout.width_seq()[k] >= 1,
        width_total(layout.width_seq()) == n,
{
    let nodes = layout.node_seq();
    let widths = layout.width_seq();
    let level = node_level(nodes);
    if n >= 1 {
        let top = choose|i: int| 0 <= i < n && #[trigger] nodes[i].level + 1 == widths.len();
        assert forall|k: int| 0 <= k < widths.len() implies #[trigger] widths[k] >= 1 by {
            assert(level(top + 1) == nodes[top].level);
            lemma_every_lower_level_used(n, edges, level, top + 1, k);
            let w = choose|w: int| 1 <= w <= n && #[trigger] level(w) == k;
            lemma_labels_at_level_position(level, k, n + 1, w);
        }
    }
    assert forall|v: int| 1 <= v < n + 1 implies 0 <= #[trigger] level(v) < widths.len() by {
        assert(nodes[v - 1].level < widths.len());
    }
    lemma_labels_below_level_all(level, widths.len() as int, n + 1);
    lemma_width_total_counts(layout, n, edges, widths.len() as int);
    assert(widths.take(widths.len() as int) =~= widths);
}

proof fn lemma_width_total_counts(layout: HasseLayout, n: int, edges: Seq<HasseCoverEdge>, count: int)
    requires
        layout.lays_out(n, edges),
        0 <= count <= layout.width_seq().len(),
    ensures
        width_total(layout.width_seq().take(count)) == labels_below_level(node_level(layout.node_seq()), count, n + 1),
    decreases count,
{
    if count > 0 {
        lemma_width_total_counts(layout, n, edges, count - 1);
        assert(layout.width_seq().take(count).drop_last() =~= layout.width_seq().take(count - 1));
        assert(layout.width_seq()[count - 1] == labels_at_level(node_level(layout.node_seq()), count - 1, n + 1).len());
    }
}

/// The elements of `1..=n` that lie below or at `v`.
pub open spec fn down_set(relation: RelationMatrix, v: int) -> Set<int> {
    Set::new(|w: int| relation.is_element(w) && relation.holds(w, v))
}

/// Law: the cover edges of a partial order always admit a layout: they join labels of
/// `1..=n`, and ranking each element by the number of elements below it makes every
/// cover edge go up.
pub proof fn lemma_cover_edges_can_be_laid_out(relation: RelationMatrix, edges: Seq<HasseCoverEdge>)
    requires
        relation.wf(),
        relation.is_partial_order(),
        relation.is_cover_listing(edges),
    ensures
        relation.spec_size() >= 1,
        all_edges_in_bounds(relation.spec_size() as int, edges),
        is_acyclic(edges),
{
    relation.lemma_wf();
    let n = relation.spec_size() as int;
    assert forall|i: int| 0 <= i < edges.len() implies edge_in_bounds(n, #[trigger] edges[i]) by {
        assert(relation.covers(edges[i].lower as int, edges[i].upper as int));
    }
    let rank = |v: int| down_set(relation, v).len() as int;
    assert forall|i: int| 0 <= i < edges.len() implies rank(edges[i].lower as int) < rank(#[trigger] edges[i].upper as int) by {
        let l = edges[i].lower as int;
        let u = edges[i].upper as int;
        assert(relation.covers(l, u));
        vstd::set_lib::lemma_int_range(1, n + 1);
        assert(down_set(relation, u).subset_of(vstd::set_lib::set_int_range(1, n + 1)));
        vstd::set_lib::lemma_len_subset(down_set(relation, u), vstd::set_lib::set_int_range(1, n + 1));
        assert(relation.holds(u, u));
        assert forall|w: int| #[trigger] down_set(relation, l).contains(w) implies down_set(relation, u).remove(u).contains(w) by {
            assert(relation.holds(w, l) && relation.holds(l, u));
            if w == u {
                assert(relation.holds(u, l) && relation.holds(l, u));
            }
        }
        vstd::set_lib::lemma_len_subset(down_set(relation, l), down_set(relation, u).remove(u));
    }
    assert(is_ranking(edges, rank));
}

struct HasseLayoutBuilder {
    node_count: usize,
    successors: Vec<Vec<usize>>,
    incoming_counts: Vec<usize>,
}

impl HasseLayoutBuilder {
    /// The builder holds the graph on `1..=node_count` with exactly these edges.
    spec fn holds_edges(&self, edges: Seq<HasseCoverEdge>) -> bool {
        &&& self.node_count >= 1
        &&& self.successors@.len() == self.node_count + 1
        &&& self.incoming_counts@.len() == self.node_count + 1
        &&& all_edges_in_bounds(self.node_count as int, edges)
        &&& forall|v: int| 0 <= v <= self.node_count ==> same_counts(#[trigger] self.successors@[v]@, successors_of(edges, v))
        &&& forall|v: int| 0 <= v <= self.node_count ==> #[trigger] self.incoming_counts@[v] == pending_in(edges, v, Seq::empty())
    }

    fn new(node_count: usize) -> (result: Result<Self, HasseLayoutError>)
        requires
            node_count < usize::MAX,
        ensures
            match result {
                Ok(builder) => {
                    &&& node_count >= 1
                    &&& builder.node_count == node_count
                    &&& builder.has_shape()
                    &&& forall|v: int| 0 <= v <= node_count ==> #[trigger] builder.successors@[v]@ == Seq::<usize>::empty()
                    &&& forall|v: int| 0 <= v <= node_count ==> #[trigger] builder.incoming_counts@[v] == 0
                },
                Err(error) => node_count == 0 && error == HasseLayoutError::InvalidNodeCount { node_count },
            },
    {
        if node_count == 0 {
            return Err(HasseLayoutError::InvalidNodeCount { node_count });
        }
        let mut successors: Vec<Vec<usize>> = Vec::new();
        let mut incoming_counts: Vec<usize> = Vec::new();
        let mut i: usize = 0;
        while i <= node_count
            invariant
                i <= node_count + 1,
                node_count < usize::MAX,
                successors@.len() == i,
                incoming_counts@.len() == i,
                forall|v: int| 0 <= v < i ==> #[trigger] successors@[v]@ == Seq::<usize>::empty(),
                forall|v: int| 0 <= v < i ==> #[trigger] incoming_counts@[v] == 0,
            decreases node_count + 1 - i,
        {
            successors.push(Vec::new());
            incoming_counts.push(0);
            i = i + 1;
        }
        Ok(HasseLayoutBuilder { node_count, successors, incoming_counts })
    }
    /// The builder has a successor list and an incoming count for `0..=node_count`.
    spec fn has_shape(&self) -> bool {
        &&& self.successors@.len() == self.node_count + 1
        &&& self.incoming_counts@.len() == self.node_count + 1
    }

    fn add_edge(&mut self, edge: HasseCoverEdge) -> (result: Result<(), HasseLayoutError>)
        requires
            old(self).has_shape(),
            edge_in_bounds(old(self).node_count as int, edge) ==> old(self).incoming_counts@[edge.upper as int] < usize::MAX,
        ensures
            final(self).node_count == old(self).node_count,
            final(self).has_shape(),
            match result {
                Ok(()) => {
                    &&& edge_in_bounds(old(self).node_count as int, edge)
                    &&& final(self).successors@[edge.lower as int]@ == old(self).successors@[edge.lower as int]@.push(edge.upper)
                    &&& forall|v: int| 0 <= v <= old(self).node_count && v != edge.lower ==> #[trigger] final(self).successors@[v]
                        == old(self).successors@[v]
                    &&& final(self).incoming_counts@ == old(self).incoming_counts@.update(
                        edge.upper as int,
                        (old(self).incoming_counts@[edge.upper as int] + 1) as usize,
                    )
                },
                Err(error) => !edge_in_bounds(old(self).node_count as int, edge) && *final(self) == *old(self)
                    && error == HasseLayoutError::EdgeOutOfBounds { edge, node_count: old(self).node_count },
            },
    {
        if !(1 <= edge.lower && edge.lower <= self.node_count && 1 <= edge.upper && edge.upper <= self.node_count) {
            return Err(HasseLayoutError::EdgeOutOfBounds { edge, node_count: self.node_count });
        }
        self.successors[edge.lower].push(edge.upper);
        self.incoming_counts[edge.upper] = self.incoming_counts[edge.upper] + 1;
        Ok(())
    }

    /// Adds the edges one by one, stopping at the first one with an end outside
    /// `1..=node_count`, then sorts the successor list of every label.
    fn with_cover_edges(self, cover_edges: &[HasseCoverEdge]) -> (result: Result<Self, HasseLayoutError>)
        requires
            self.has_shape(),
            self.node_count < usize::MAX,
            forall|v: int| 0 <= v <= self.node_count ==> #[trigger] self.incoming_counts@[v] + pending_in(cover_edges@, v, Seq::empty())
                <= usize::MAX,
        ensures
            match result {
                Ok(filled) => {
                    &&& filled.node_count == self.node_count
                    &&& filled.has_shape()
                    &&& all_edges_in_bounds(self.node_count as int, cover_edges@)
                    &&& forall|v: int| 0 <= v <= self.node_count ==> #[trigger] filled.incoming_counts@[v]
                        == self.incoming_counts@[v] + pending_in(cover_edges@, v, Seq::empty())
                    &&& filled.successors@[0]@ == self.successors@[0]@ + successors_of(cover_edges@, 0)
                    &&& forall|v: int| 1 <= v <= self.node_count ==> same_counts(
                        #[trigger] filled.successors@[v]@,
                        self.successors@[v]@ + successors_of(cover_edges@, v),
                    )
                    &&& forall|v: int, a: int, b: int|
                        1 <= v <= filled.node_count && 0 <= a < b < filled.successors@[v]@.len() ==> #[trigger] filled.successors@[v]@[a]
                            <= #[trigger] filled.successors@[v]@[b]
                },
                Err(error) => exists|i: int| #[trigger] is_first_out_of_bounds(self.node_count as int, cover_edges@, i)
                    && error == HasseLayoutError::EdgeOutOfBounds { edge: cover_edges@[i], node_count: self.node_count },
            },
    {
        let mut builder = self;
        let ghost node_count = builder.node_count;
        let mut i: usize = 0;
        while i < cover_edges.len()
            invariant
                i <= cover_edges@.len(),
                builder.node_count == node_count,
                node_count == self.node_count,
                builder.has_shape(),
                all_edges_in_bounds(node_count as int, cover_edges@.take(i as int)),
                forall|v: int| 0 <= v <= node_count ==> #[trigger] self.incoming_counts@[v] + pending_in(cover_edges@, v, Seq::empty())
                    <= usize::MAX,
                forall|v: int| 0 <= v <= node_count ==> #[trigger] builder.successors@[v]@ == self.successors@[v]@
                    + successors_of(cover_edges@.take(i as int), v),
                forall|v: int| 0 <= v <= node_count ==> #[trigger] builder.incoming_counts@[v] == self.incoming_counts@[v]
                    + pending_in(cover_edges@.take(i as int), v, Seq::empty()),
            decreases cover_edges@.len() - i,
        {
            let edge = cover_edges[i];
            let ghost prefix = cover_edges@.take(i as int);
            let ghost before = builder;
            let ghost extended = cover_edges@.take(i + 1);
            proof {
                assert(extended =~= prefix.push(edge));
                assert(extended.drop_last() =~= prefix);
                if edge_in_bounds(node_count as int, edge) {
                    lemma_pending_in_prefix(cover_edges@, i + 1, edge.upper as int, Seq::empty());
                }
            }
            match builder.add_edge(edge) {
                Ok(()) => {},
                Err(error) => {
                    assert forall|j: int| 0 <= j < i implies edge_in_bounds(node_count as int, #[trigger] cover_edges@[j]) by {
                        assert(prefix[j] == cover_edges@[j]);
                    }
                    assert(is_first_out_of_bounds(node_count as int, cover_edges@, i as int));
                    return Err(error);
                },
            }
            proof {
                assert forall|v: int| 0 <= v <= node_count implies #[trigger] builder.successors@[v]@ == self.successors@[v]@
                    + successors_of(extended, v) by {
                    assert(successors_of(extended, v) == if edge.lower == v {
                        successors_of(prefix, v).push(edge.upper)
                    } else {
                        successors_of(prefix, v)
                    });
                    if edge.lower == v {
                        assert(builder.successors@[v]@ =~= self.successors@[v]@ + successors_of(extended, v));
                    }
                }
                assert forall|v: int| 0 <= v <= node_count implies #[trigger] builder.incoming_counts@[v] == self.incoming_counts@[v]
                    + pending_in(extended, v, Seq::empty()) by {
                    assert(pending_in(extended, v, Seq::empty()) == pending_in(prefix, v, Seq::empty()) + if edge.upper == v {
                        1nat
                    } else {
                        0nat
                    });
                }
                assert forall|j: int| 0 <= j < extended.len() implies edge_in_bounds(node_count as int, #[trigger] extended[j]) by {
                    if j < prefix.len() {
                        assert(extended[j] == prefix[j]);
                    }
                }
            }
            i = i + 1;
        }
        assert(cover_edges@.take(i as int) =~= cover_edges@);

        let mut label: usize = 1;
        while label <= builder.node_count
            invariant
                builder.node_count == node_count,
                node_count == self.node_count,
                node_count < usize::MAX,
                builder.has_shape(),
                1 <= label <= node_count + 1,
                forall|v: int| 0 <= v <= node_count ==> #[trigger] builder.incoming_counts@[v] == self.incoming_counts@[v]
                    + pending_in(cover_edges@, v, Seq::empty()),
                forall|v: int| (v == 0 || label <= v <= node_count) ==> #[trigger] builder.successors@[v]@ == self.successors@[v]@
                    + successors_of(cover_edges@, v),
                forall|v: int| 1 <= v < label ==> same_counts(
                    #[trigger] builder.successors@[v]@,
                    self.successors@[v]@ + successors_of(cover_edges@, v),
                ),
                forall|v: int, a: int, b: int|
                    1 <= v < label && 0 <= a < b < builder.successors@[v]@.len() ==> #[trigger] builder.successors@[v]@[a]
                        <= #[trigger] builder.successors@[v]@[b],
            decreases node_count + 1 - label,
        {
            let ghost before = builder.successors@;
            sort_labels(&mut builder.successors[label]);
            proof {
                assert forall|v: int| 1 <= v < label + 1 implies same_counts(
                    #[trigger] builder.successors@[v]@,
                    self.successors@[v]@ + successors_of(cover_edges@, v),
                ) by {
                    if v == label {
                        assert forall|x: int| #[trigger] occurrences(builder.successors@[v]@, x) == occurrences(
                            self.successors@[v]@ + successors_of(cover_edges@, v),
                            x,
                        ) by {
                            assert(occurrences(builder.successors@[v]@, x) == occurrences(before[v]@, x));
                        }
                    } else {
                        assert(builder.successors@[v] == before[v]);
                    }
                }
                assert forall|v: int| (v == 0 || label + 1 <= v <= node_count) implies #[trigger] builder.successors@[v]@
                    == self.successors@[v]@ + successors_of(cover_edges@, v) by {
                    assert(builder.successors@[v] == before[v]);
                }
            }
            label = label + 1;
        }
        Ok(builder)
    }

    /// Kahn's algorithm, always emitting the smallest ready label.
    fn topological_order(&self, Ghost(edges): Ghost<Seq<HasseCoverEdge>>) -> (result: Result<Vec<usize>, HasseLayoutError>)
        requires
            self.holds_edges(edges),
            self.node_count < usize::MAX,
        ensures
            match result {
                Ok(order) => is_topological_order(self.node_count as int, edges, order@) && takes_least_ready(
                    self.node_count as int,
                    edges,
                    order@,
                ),
                Err(error) => error == HasseLayoutError::CycleDetected && !is_acyclic(edges),
            },
    {
        broadcast use vstd::std_specs::btree::group_btree_axioms;

        proof {
            lemma_labels_are_ordered();
        }
        let n = self.node_count;
        let mut incoming_counts = self.incoming_counts.clone();
        assert(incoming_counts@ =~= self.incoming_counts@);
        let mut ready: BTreeSet<usize> = BTreeSet::new();

        let mut label: usize = 1;
        while label <= n
            invariant
                self.holds_edges(edges),
                n == self.node_count,
                n < usize::MAX,
                1 <= label <= n + 1,
                incoming_counts@ == self.incoming_counts@,
                forall|v: usize| #[trigger] ready@.contains(v) <==> (1 <= v < label && incoming_counts@[v as int] == 0),
            decreases n + 1 - label,
        {
            if incoming_counts[label] == 0 {
                ready.insert(label);
            }
            label = label + 1;
        }

        let mut order: Vec<usize> = Vec::with_capacity(n);
        loop
            invariant
                self.holds_edges(edges),
                n == self.node_count,
                n < usize::MAX,
                incoming_counts@.len() == n + 1,
                forall|v: int| 1 <= v <= n ==> #[trigger] incoming_counts@[v] == pending_in(edges, v, order@),
                forall|v: usize| #[trigger] ready@.contains(v) <==> (1 <= v <= n && !order@.contains(v)
                    && incoming_counts@[v as int] == 0),
                order@.no_duplicates(),
                takes_least_ready(n as int, edges, order@),
                forall|a: int| 0 <= a < order@.len() ==> 1 <= #[trigger] order@[a] <= n,
                order@.len() <= n,
                forall|i: int| 0 <= i < edges.len() && order@.contains(#[trigger] edges[i].upper) ==> order@.contains(edges[i].lower),
                forall|i: int, a: int, b: int|
                    #![trigger edges[i], order@[a], order@[b]]
                    0 <= i < edges.len() && 0 <= a < order@.len() && 0 <= b < order@.len() && order@[a] == edges[i].upper
                        && order@[b] == edges[i].lower ==> b < a,
            ensures
                ready@ == Set::<usize>::empty(),
                incoming_counts@.len() == n + 1,
                forall|v: int| 1 <= v <= n ==> #[trigger] incoming_counts@[v] == pending_in(edges, v, order@),
                forall|v: usize| #[trigger] ready@.contains(v) <==> (1 <= v <= n && !order@.contains(v)
                    && incoming_counts@[v as int] == 0),
                order@.no_duplicates(),
                takes_least_ready(n as int, edges, order@),
                forall|a: int| 0 <= a < order@.len() ==> 1 <= #[trigger] order@[a] <= n,
                forall|i: int, a: int, b: int|
                    #![trigger edges[i], order@[a], order@[b]]
                    0 <= i < edges.len() && 0 <= a < order@.len() && 0 <= b < order@.len() && order@[a] == edges[i].upper
                        && order@[b] == edges[i].lower ==> b < a,
            decreases n - order@.len(),
        {
            let label = match first_ready(&ready) {
                Some(label) => label,
                None => break,
            };
            let ghost done = order@;
            proof {
                assert(pending_in(edges, label as int, done) == 0);
            }
            let ghost ready_before = ready@;
            ready.remove(&label);
            order.push(label);
            proof {
                assert forall|a: int, v: usize| 0 <= a < order@.len() && #[trigger] is_ready(n as int, edges, order@.take(a), v)
                    implies order@[a] <= v by {
                    if a < done.len() {
                        assert(order@.take(a) =~= done.take(a));
                        assert(order@[a] == done[a]);
                        assert(is_ready(n as int, edges, done.take(a), v));
                    } else {
                        assert(order@.take(a) =~= done);
                        lemma_no_pending_edge(edges, v as int, done);
                        assert(ready_before.contains(v));
                    }
                }
                assert(order@.no_duplicates()) by {
                    assert forall|a: int, b: int| 0 <= a < b < order@.len() implies order@[a] != order@[b] by {
                        if b == done.len() {
                            assert(done.contains(done[a]));
                        }
                    }
                }
                lemma_distinct_labels(order@, n as int);
                assert forall|x: usize| #[trigger] order@.contains(x) <==> (done.contains(x) || x == label) by {
                    if order@.contains(x) {
                        let k = choose|k: int| 0 <= k < order@.len() && order@[k] == x;
                        if k < done.len() {
                            assert(done[k] == x);
                        }
                    }
                    if done.contains(x) {
                        let k = choose|k: int| 0 <= k < done.len() && done[k] == x;
                        assert(order@[k] == x);
                    }
                    if x == label {
                        assert(order@[done.len() as int] == x);
                    }
                }
                assert forall|i: int| 0 <= i < edges.len() && order@.contains(#[trigger] edges[i].upper)
                    implies order@.contains(edges[i].lower) by {
                    if edges[i].upper == label {
                        lemma_no_pending(edges, label as int, done, i);
                    }
                }
                assert forall|i: int, a: int, b: int|
                    #![trigger edges[i], order@[a], order@[b]]
                    0 <= i < edges.len() && 0 <= a < order@.len() && 0 <= b < order@.len() && order@[a] == edges[i].upper
                        && order@[b] == edges[i].lower implies b < a by {
                    let last = done.len() as int;
                    if a == last {
                        lemma_no_pending(edges, label as int, done, i);
                        if b == last {
                            assert(done.contains(label));
                        }
                    } else if b == last {
                        assert(done[a] == edges[i].upper);
                        assert(done.contains(edges[i].upper));
                        assert(done.contains(edges[i].lower));
                    } else {
                        assert(done[a] == order@[a] && done[b] == order@[b]);
                    }
                }
                assert forall|v: int| 1 <= v <= n implies pending_in(edges, v, done) == pending_in(edges, v, order@)
                    + occurrences(self.successors@[label as int]@, v) by {
                    lemma_pending_after_emit(edges, v, done, label);
                    lemma_successor_occurrences(edges, label as int, v);
                    assert(occurrences(self.successors@[label as int]@, v) == occurrences(successors_of(edges, label as int), v));
                }
            }

            let successors = &self.successors[label];
            let ghost succ = successors@;
            let mut j: usize = 0;
            while j < successors.len()
                invariant
                    self.holds_edges(edges),
                    n == self.node_count,
                    1 <= label <= n,
                    successors@ == succ,
                    same_counts(succ, successors_of(edges, label as int)),
                    j <= succ.len(),
                    incoming_counts@.len() == n + 1,
                    order@ == done.push(label),
                    !done.contains(label),
                    pending_in(edges, label as int, done) == 0,
                    forall|x: usize| #[trigger] order@.contains(x) <==> (done.contains(x) || x == label),
                    forall|i: int| 0 <= i < edges.len() && done.contains(#[trigger] edges[i].upper) ==> done.contains(edges[i].lower),
                    forall|v: int| 1 <= v <= n ==> pending_in(edges, v, done) == pending_in(edges, v, order@)
                        + occurrences(succ, v),
                    forall|v: int| 1 <= v <= n ==> #[trigger] incoming_counts@[v] + occurrences(succ.take(j as int), v)
                        == pending_in(edges, v, done),
                    forall|v: usize| #[trigger] ready@.contains(v) <==> (1 <= v <= n && !order@.contains(v)
                        && incoming_counts@[v as int] == 0),
                decreases succ.len() - j,
            {
                let upper = successors[j];
                proof {
                    lemma_listed_successor_is_edge(edges, label as int, succ, j as int);
                    let i = choose|i: int| 0 <= i < edges.len() && #[trigger] edges[i].lower == label && edges[i].upper == succ[j as int];
                    assert(edge_in_bounds(n as int, edges[i]));
                    assert(succ.take(j + 1).drop_last() =~= succ.take(j as int));
                    lemma_occurrences_prefix(succ, j + 1, upper as int);
                    if upper == label {
                        lemma_no_pending(edges, label as int, done, i);
                    }
                    if done.contains(upper) {
                        assert(done.contains(edges[i].lower));
                    }
                }
                incoming_counts[upper] = incoming_counts[upper] - 1;
                if incoming_counts[upper] == 0 {
                    ready.insert(upper);
                }
                proof {
                    assert forall|v: int| 1 <= v <= n implies #[trigger] incoming_counts@[v] + occurrences(succ.take(j + 1), v)
                        == pending_in(edges, v, done) by {
                        assert(succ.take(j + 1).drop_last() =~= succ.take(j as int));
                    }
                }
                j = j + 1;
            }
            proof {
                assert(succ.take(j as int) =~= succ);
            }
        }

        if order.len() == n {
            Ok(order)
        } else {
            proof {
                if is_acyclic(edges) {
                    let rank = choose|rank: spec_fn(int) -> int| #[trigger] is_ranking(edges, rank);
                    let waiting = Set::new(|v: usize| 1 <= v <= n && !order@.contains(v));
                    lemma_distinct_labels(order@, n as int);
                    let missing = choose|v: usize| !(1 <= v <= n ==> order@.contains(v));
                    assert(waiting.contains(missing));
                    lemma_label_range_len(n as int);
                    assert(waiting.subset_of(label_range(n as int)));
                    vstd::set_lib::lemma_len_subset(waiting, label_range(n as int));
                    lemma_least_rank(waiting, rank);
                    let v = choose|v: usize| waiting.contains(v) && forall|w: usize| #[trigger] waiting.contains(w)
                        ==> rank(v as int) <= rank(w as int);
                    assert(!ready@.contains(v));
                    lemma_pending_witness(edges, v as int, order@);
                    let i = choose|i: int| 0 <= i < edges.len() && #[trigger] edges[i].upper == v && !order@.contains(edges[i].lower);
                    assert(edge_in_bounds(n as int, edges[i]));
                    assert(waiting.contains(edges[i].lower));
                    assert(rank(edges[i].lower as int) < rank(edges[i].upper as int));
                }
            }
            Err(HasseLayoutError::CycleDetected)
        }
    }
    /// Gives every label the length of the longest path that reaches it, visiting the
    /// labels in topological order.
    fn levels_by_label(&self, topological_order: &Vec<usize>, Ghost(edges): Ghost<Seq<HasseCoverEdge>>) -> (levels: Vec<usize>)
        requires
            self.holds_edges(edges),
            self.node_count < usize::MAX,
            is_topological_order(self.node_count as int, edges, topological_order@),
        ensures
            levels@.len() == self.node_count + 1,
            levels@[0] == 0,
            forall|v: int| 1 <= v <= self.node_count ==> #[trigger] levels@[v] <= self.node_count,
            are_longest_path_levels(self.node_count as int, edges, |v: int| levels@[v] as int),
    {
        let n = self.node_count;
        let ghost order = topological_order@;
        proof {
            lemma_distinct_labels(order, n as int);
        }
        let mut levels: Vec<usize> = vec![0usize; n + 1];
        let mut k: usize = 0;
        while k < topological_order.len()
            invariant
                self.holds_edges(edges),
                n == self.node_count,
                n < usize::MAX,
                order == topological_order@,
                is_topological_order(n as int, edges, order),
                forall|v: usize| 1 <= v <= n ==> #[trigger] order.contains(v),
                k <= n,
                levels@.len() == n + 1,
                levels@[0] == 0,
                forall|v: int| 0 <= v <= n ==> #[trigger] levels@[v] <= k,
                forall|i: int| 0 <= i < edges.len() && order.take(k as int).contains(#[trigger] edges[i].lower)
                    ==> levels@[edges[i].lower as int] + 1 <= levels@[edges[i].upper as int],
                forall|v: int| 1 <= v <= n && #[trigger] levels@[v] > 0 ==> exists|i: int|
                    0 <= i < edges.len() && edges[i].upper == v && order.take(k as int).contains(edges[i].lower)
                        && levels@[edges[i].lower as int] + 1 == levels@[v],
            decreases n - k,
        {
            let lower = topological_order[k];
            let next = levels[lower] + 1;
            let ghost before = levels@;
            let ghost done = order.take(k as int);
            proof {
                let done_next = order.take(k + 1);
                assert forall|x: usize| #[trigger] done_next.contains(x) <==> (done.contains(x) || x == lower) by {
                    if done_next.contains(x) {
                        let b = choose|b: int| 0 <= b < done_next.len() && done_next[b] == x;
                        if b < k {
                            assert(done[b] == x);
                        }
                    }
                    if done.contains(x) {
                        let b = choose|b: int| 0 <= b < done.len() && done[b] == x;
                        assert(done_next[b] == x);
                    }
                    if x == lower {
                        assert(done_next[k as int] == x);
                    }
                }
            }
            let ghost succ = self.successors@[lower as int]@;
            proof {
                assert forall|jj: int| 0 <= jj < succ.len() implies !done.contains(#[trigger] succ[jj]) && succ[jj] != lower
                    && 1 <= succ[jj] <= n by {
                    lemma_listed_successor_is_edge(edges, lower as int, succ, jj);
                    let i = choose|i: int| 0 <= i < edges.len() && #[trigger] edges[i].lower == lower && edges[i].upper == succ[jj];
                    assert(edge_in_bounds(n as int, edges[i]));
                    assert(order.contains(succ[jj]));
                    let a = choose|a: int| 0 <= a < order.len() && order[a] == succ[jj];
                    assert(edges[i] == edges[i] && order[a] == edges[i].upper && order[k as int] == edges[i].lower);
                    if done.contains(succ[jj]) {
                        let b = choose|b: int| 0 <= b < done.len() && done[b] == succ[jj];
                        assert(order[b] == succ[jj]);
                    }
                }
            }
            self.raise_successors(&mut levels, lower, next, Ghost(edges), Ghost(done));
            proof {
                assert forall|v: int| 0 <= v <= n implies #[trigger] levels@[v] <= k + 1 by {
                    assert(levels@[v] == before[v] || levels@[v] == next);
                }
                assert forall|v: int| 1 <= v <= n && #[trigger] levels@[v] > 0 implies exists|i: int|
                    0 <= i < edges.len() && edges[i].upper == v && order.take(k + 1).contains(edges[i].lower)
                        && levels@[edges[i].lower as int] + 1 == levels@[v] by {
                    if levels@[v] == before[v] {
                        let i = choose|i: int| 0 <= i < edges.len() && edges[i].upper == v && done.contains(edges[i].lower)
                            && before[edges[i].lower as int] + 1 == before[v];
                        assert(order.take(k + 1).contains(edges[i].lower));
                    } else {
                        let jj = choose|jj: int| 0 <= jj < succ.len() && #[trigger] succ[jj] == v;
                        lemma_listed_successor_is_edge(edges, lower as int, succ, jj);
                        let i = choose|i: int| 0 <= i < edges.len() && #[trigger] edges[i].lower == lower && edges[i].upper == succ[jj];
                        assert(order.take(k + 1).contains(edges[i].lower));
                    }
                }
            }
            proof {
                assert forall|i: int| 0 <= i < edges.len() && order.take(k + 1).contains(#[trigger] edges[i].lower)
                    implies levels@[edges[i].lower as int] + 1 <= levels@[edges[i].upper as int] by {
                    if edges[i].lower == lower {
                        lemma_edge_is_listed(edges, i, succ);
                        let jj = choose|jj: int| 0 <= jj < succ.len() && succ[jj] == edges[i].upper;
                        assert(next <= levels@[succ[jj] as int]);
                    } else {
                        assert(done.contains(edges[i].lower));
                        assert(!done.contains(edges[i].upper) ==> levels@[edges[i].upper as int] >= before[edges[i].upper as int]);
                    }
                }
            }
            k = k + 1;
        }
        proof {
            assert(order.take(k as int) =~= order);
            assert forall|i: int| 0 <= i < edges.len() implies #[trigger] order.contains(edges[i].lower) by {
                assert(edge_in_bounds(n as int, edges[i]));
            }
        }
        levels
    }
    /// Lifts every successor of `lower` to at least level `next`.
    fn raise_successors(
        &self,
        levels: &mut Vec<usize>,
        lower: usize,
        next: usize,
        Ghost(edges): Ghost<Seq<HasseCoverEdge>>,
        Ghost(done): Ghost<Seq<usize>>,
    )
        requires
            self.holds_edges(edges),
            1 <= lower <= self.node_count,
            old(levels)@.len() == self.node_count + 1,
            forall|jj: int| 0 <= jj < self.successors@[lower as int]@.len()
                ==> !done.contains(#[trigger] self.successors@[lower as int]@[jj])
                    && self.successors@[lower as int]@[jj] != lower
                    && 1 <= self.successors@[lower as int]@[jj] <= self.node_count,
        ensures
            final(levels)@.len() == old(levels)@.len(),
            final(levels)@[0] == old(levels)@[0],
            final(levels)@[lower as int] == old(levels)@[lower as int],
            forall|x: usize| done.contains(x) && x <= self.node_count ==> #[trigger] final(levels)@[x as int] == old(levels)@[x as int],
            forall|v: int| 0 <= v <= self.node_count ==> old(levels)@[v] <= #[trigger] final(levels)@[v],
            forall|v: int| 0 <= v <= self.node_count ==> #[trigger] final(levels)@[v] == old(levels)@[v]
                || final(levels)@[v] == next,
            forall|jj: int| 0 <= jj < self.successors@[lower as int]@.len()
                ==> next <= #[trigger] final(levels)@[self.successors@[lower as int]@[jj] as int],
            forall|v: int| 0 <= v <= self.node_count && #[trigger] final(levels)@[v] != old(levels)@[v]
                ==> exists|jj: int| 0 <= jj < self.successors@[lower as int]@.len()
                    && #[trigger] self.successors@[lower as int]@[jj] == v,
    {
        let successors = &self.successors[lower];
        let ghost succ = successors@;
        let ghost start = levels@;
        let mut j: usize = 0;
        while j < successors.len()
            invariant
                self.holds_edges(edges),
                1 <= lower <= self.node_count,
                successors@ == succ,
                forall|jj: int| 0 <= jj < succ.len() ==> !done.contains(#[trigger] succ[jj]) && succ[jj] != lower
                    && 1 <= succ[jj] <= self.node_count,
                j <= succ.len(),
                levels@.len() == start.len(),
                start.len() == self.node_count + 1,
                levels@[0] == start[0],
                levels@[lower as int] == start[lower as int],
                forall|x: usize| done.contains(x) && x <= self.node_count ==> #[trigger] levels@[x as int] == start[x as int],
                forall|v: int| 0 <= v <= self.node_count ==> start[v] <= #[trigger] levels@[v],
                forall|v: int| 0 <= v <= self.node_count ==> #[trigger] levels@[v] == start[v] || levels@[v] == next,
                forall|jj: int| 0 <= jj < j ==> next <= #[trigger] levels@[succ[jj] as int],
                forall|v: int| 0 <= v <= self.node_count && #[trigger] levels@[v] != start[v]
                    ==> exists|jj: int| 0 <= jj < succ.len() && #[trigger] succ[jj] == v,
            decreases succ.len() - j,
        {
            let upper = successors[j];
            let ghost prev = levels@;
            proof {
                assert(!done.contains(upper) && upper != lower && upper <= self.node_count);
            }
            if levels[upper] < next {
                levels[upper] = next;
            }
            proof {
                assert forall|jj: int| 0 <= jj < j + 1 implies next <= #[trigger] levels@[succ[jj] as int] by {
                    if jj < j {
                        assert(next <= prev[succ[jj] as int]);
                    }
                }
            }
            j = j + 1;
        }
    }
    /// The labels of each level, from level 0 to the highest level, each list increasing.
    fn labels_by_level(&self, levels: &Vec<usize>) -> (lists: Vec<Vec<usize>>)
        requires
            self.node_count >= 1,
            self.node_count < usize::MAX,
            levels@.len() == self.node_count + 1,
            forall|v: int| 1 <= v <= self.node_count ==> #[trigger] levels@[v] <= self.node_count,
        ensures
            forall|v: int| 1 <= v <= self.node_count ==> #[trigger] levels@[v] < lists@.len(),
            exists|v: int| 1 <= v <= self.node_count && #[trigger] levels@[v] + 1 == lists@.len(),
            forall|k: int| 0 <= k < lists@.len() ==> #[trigger] lists@[k]@ == labels_at_level(
                |v: int| levels@[v] as int,
                k,
                self.node_count + 1,
            ),
    {
        let n = self.node_count;
        let ghost level = |v: int| levels@[v] as int;
        let mut highest: usize = levels[1];
        let mut label: usize = 2;
        while label <= n
            invariant
                n == self.node_count,
                n < usize::MAX,
                2 <= label <= n + 1,
                levels@.len() == n + 1,
                forall|v: int| 1 <= v <= n ==> #[trigger] levels@[v] <= n,
                forall|v: int| 1 <= v < label ==> #[trigger] levels@[v] <= highest,
                exists|v: int| 1 <= v < label && #[trigger] levels@[v] == highest,
            decreases n + 1 - label,
        {
            if levels[label] > highest {
                highest = levels[label];
            }
            label = label + 1;
        }
        let level_count = highest + 1;
        let mut lists: Vec<Vec<usize>> = Vec::new();
        let mut k: usize = 0;
        while k < level_count
            invariant
                k <= level_count,
                lists@.len() == k,
                forall|m: int| 0 <= m < k ==> #[trigger] lists@[m]@ == Seq::<usize>::empty(),
            decreases level_count - k,
        {
            lists.push(Vec::new());
            k = k + 1;
        }
        let mut label: usize = 1;
        while label <= n
            invariant
                n == self.node_count,
                n < usize::MAX,
                1 <= label <= n + 1,
                levels@.len() == n + 1,
                level == (|v: int| levels@[v] as int),
                forall|v: int| 1 <= v <= n ==> #[trigger] levels@[v] <= highest,
                lists@.len() == level_count,
                level_count == highest + 1,
                forall|m: int| 0 <= m < lists@.len() ==> #[trigger] lists@[m]@ == labels_at_level(level, m, label as int),
            decreases n + 1 - label,
        {
            let target = levels[label];
            lists[target].push(label);
            proof {
                assert forall|m: int| 0 <= m < lists@.len() implies #[trigger] lists@[m]@ == labels_at_level(level, m, label + 1) by {
                    assert(labels_at_level(level, m, label + 1) == if level(label as int) == m {
                        labels_at_level(level, m, label as int).push(label)
                    } else {
                        labels_at_level(level, m, label as int)
                    });
                }
            }
            label = label + 1;
        }
        lists
    }

    /// Ranks each label inside its level and measures the width of every level.
    fn into_layout(self, levels: Vec<usize>, Ghost(edges): Ghost<Seq<HasseCoverEdge>>) -> (layout: HasseLayout)
        requires
            self.node_count >= 1,
            self.node_count < usize::MAX,
            levels@.len() == self.node_count + 1,
            forall|v: int| 1 <= v <= self.node_count ==> #[trigger] levels@[v] <= self.node_count,
            are_longest_path_levels(self.node_count as int, edges, |v: int| levels@[v] as int),
            all_edges_in_bounds(self.node_count as int, edges),
        ensures
            layout.lays_out(self.node_count as int, edges),
    {
        let n = self.node_count;
        let ghost level = |v: int| levels@[v] as int;
        let mut levels_to_labels = self.labels_by_level(&levels);
        let ghost level_count = levels_to_labels@.len();
        let mut indices_in_level: Vec<usize> = vec![0usize; n + 1];
        let mut k: usize = 0;
        while k < levels_to_labels.len()
            invariant
                n == self.node_count,
                n < usize::MAX,
                k <= levels_to_labels@.len(),
                levels_to_labels@.len() == level_count,
                levels@.len() == n + 1,
                level == (|v: int| levels@[v] as int),
                indices_in_level@.len() == n + 1,
                forall|m: int| 0 <= m < levels_to_labels@.len() ==> #[trigger] levels_to_labels@[m]@ == labels_at_level(level, m, n + 1),
                forall|v: int| 1 <= v <= n && #[trigger] levels@[v] < k ==> indices_in_level@[v] == labels_at_level(level, levels@[v] as int, v).len(),
            decreases levels_to_labels@.len() - k,
        {
            let ghost unsorted = levels_to_labels@;
            sort_labels(&mut levels_to_labels[k]);
            proof {
                lemma_labels_at_level_increasing(level, k as int, n + 1);
                lemma_sorted_increasing_unique(unsorted[k as int]@, levels_to_labels@[k as int]@);
                assert forall|m: int| 0 <= m < levels_to_labels@.len() implies #[trigger] levels_to_labels@[m]@
                    == labels_at_level(level, m, n + 1) by {
                    if m != k {
                        assert(levels_to_labels@[m] == unsorted[m]);
                    }
                }
            }
            let labels = &levels_to_labels[k];
            let ghost list = labels@;
            let mut j: usize = 0;
            while j < labels.len()
                invariant
                    n == self.node_count,
                    n < usize::MAX,
                    k < levels_to_labels@.len(),
                    labels@ == list,
                    list == labels_at_level(level, k as int, n + 1),
                    j <= list.len(),
                    levels@.len() == n + 1,
                    level == (|v: int| levels@[v] as int),
                    indices_in_level@.len() == n + 1,
                    forall|v: int| 1 <= v <= n && #[trigger] levels@[v] < k ==> indices_in_level@[v] == labels_at_level(level, levels@[v] as int, v).len(),
                    forall|jj: int| 0 <= jj < j ==> #[trigger] indices_in_level@[list[jj] as int] == jj,
                decreases list.len() - j,
            {
                let label = labels[j];
                let ghost prev = indices_in_level@;
                proof {
                    lemma_labels_at_level_entry(level, k as int, n + 1, j as int);
                }
                indices_in_level[label] = j;
                proof {
                    assert forall|jj: int| 0 <= jj < j + 1 implies #[trigger] indices_in_level@[list[jj] as int] == jj by {
                        if jj < j {
                            lemma_labels_at_level_entry(level, k as int, n + 1, jj);
                            assert(list[jj] != label);
                            assert(prev[list[jj] as int] == jj);
                        }
                    }
                }
                j = j + 1;
            }
            proof {
                assert forall|v: int| 1 <= v <= n && #[trigger] levels@[v] < k + 1
                    implies indices_in_level@[v] == labels_at_level(level, levels@[v] as int, v).len() by {
                    if levels@[v] == k {
                        lemma_labels_at_level_position(level, k as int, n + 1, v);
                    }
                }
            }
            k = k + 1;
        }

        let mut nodes: Vec<HasseLayoutNode> = Vec::new();
        let mut label: usize = 1;
        while label <= n
            invariant
                n == self.node_count,
                n < usize::MAX,
                1 <= label <= n + 1,
                nodes@.len() == label - 1,
                levels@.len() == n + 1,
                indices_in_level@.len() == n + 1,
                forall|i: int| 0 <= i < nodes@.len() ==> #[trigger] nodes@[i] == (HasseLayoutNode {
                    label: (i + 1) as usize,
                    level: levels@[i + 1],
                    index_in_level: indices_in_level@[i + 1],
                }),
            decreases n + 1 - label,
        {
            nodes.push(HasseLayoutNode {
                label,
                level: levels[label],
                index_in_level: indices_in_level[label],
            });
            label = label + 1;
        }

        let mut level_widths: Vec<usize> = Vec::new();
        let mut k: usize = 0;
        while k < levels_to_labels.len()
            invariant
                k <= levels_to_labels@.len(),
                level_widths@.len() == k,
                forall|m: int| 0 <= m < k ==> #[trigger] level_widths@[m] == levels_to_labels@[m]@.len(),
            decreases levels_to_labels@.len() - k,
        {
            level_widths.push(levels_to_labels[k].len());
            k = k + 1;
        }

        let layout = HasseLayout { nodes, level_widths };
        proof {
            let node_levels = node_level(layout.node_seq());
            assert forall|v: int| 1 <= v <= n implies #[trigger] node_levels(v) == level(v) by {
                assert(layout.node_seq()[v - 1].level == levels@[v]);
            }
            assert forall|k: int, upto: int| 0 <= upto <= n + 1 implies #[trigger] labels_at_level(node_levels, k, upto)
                == labels_at_level(level, k, upto) by {
                lemma_labels_at_level_agree(node_levels, level, k, upto);
            }
            assert forall|i: int| 0 <= i < edges.len() implies node_levels(edges[i].lower as int) + 1 <= node_levels(
                #[trigger] edges[i].upper as int) by {
                assert(edge_in_bounds(n as int, edges[i]));
                assert(level(edges[i].lower as int) + 1 <= level(edges[i].upper as int));
            }
            assert forall|v: int| 1 <= v <= n && #[trigger] node_levels(v) > 0 implies exists|i: int|
                0 <= i < edges.len() && edges[i].upper == v && node_levels(edges[i].lower as int) + 1 == node_levels(v) by {
                assert(level(v) > 0);
                let i = choose|i: int| 0 <= i < edges.len() && edges[i].upper == v && level(edges[i].lower as int) + 1 == level(v);
                assert(edge_in_bounds(n as int, edges[i]));
            }
            assert(are_longest_path_levels(n as int, edges, node_levels));
            assert forall|i: int| 0 <= i < n implies #[trigger] layout.node_seq()[i].index_in_level
                == labels_at_level(node_levels, layout.node_seq()[i].level as int, i + 1).len() by {
                assert(labels_at_level(node_levels, layout.node_seq()[i].level as int, i + 1)
                    == labels_at_level(level, levels@[i + 1] as int, i + 1));
            }
            let v = choose|v: int| 1 <= v <= n && #[trigger] levels@[v] + 1 == levels_to_labels@.len();
            assert(layout.node_seq()[v - 1].level + 1 == layout.width_seq().len());
            assert forall|i: int| 0 <= i < n implies #[trigger] layout.node_seq()[i].level < layout.width_seq().len() by {
                assert(levels@[i + 1] < levels_to_labels@.len());
            }
            assert forall|k: int| 0 <= k < layout.width_seq().len() implies #[trigger] layout.width_seq()[k]
                == labels_at_level(node_levels, k, n + 1).len() by {
                assert(labels_at_level(node_levels, k, n + 1) == labels_at_level(level, k, n + 1));
            }
        }
        layout
    }
    fn build(self, Ghost(edges): Ghost<Seq<HasseCoverEdge>>) -> (result: Result<HasseLayout, HasseLayoutError>)
        requires
            self.holds_edges(edges),
            self.node_count < usize::MAX,
        ensures
            match result {
                Ok(layout) => is_acyclic(edges) && layout.lays_out(self.node_count as int, edges),
                Err(error) => error == HasseLayoutError::CycleDetected && !is_acyclic(edges),
            },
    {
        let topological_order = match self.topological_order(Ghost(edges)) {
            Ok(order) => order,
            Err(error) => {
                return Err(error);
            },
        };
        let levels = self.levels_by_label(&topological_order, Ghost(edges));
        let layout = self.into_layout(levels, Ghost(edges));
        proof {
            let rank = node_level(layout.node_seq());
            assert(is_ranking(edges, rank));
        }
        Ok(layout)
    }
}

/// The standard order on labels obeys the laws that ordered sets rely on.
proof fn lemma_labels_are_ordered()
    ensures
        vstd::laws_cmp::obeys_cmp::<usize>(),
{
    broadcast use vstd::laws_cmp::group_laws_cmp;

}

/// The smallest label that is ready to be emitted, if any.
fn first_ready(ready: &BTreeSet<usize>) -> (first: Option<usize>)
    ensures
        match first {
            Some(label) => ready@.contains(label) && forall|v: usize| #[trigger] ready@.contains(v) ==> label <= v,
            None => ready@ == Set::<usize>::empty(),
        },
{
    broadcast use vstd::std_specs::btree::group_btree_axioms;
    broadcast use vstd::laws_cmp::group_laws_cmp;

    let ghost remaining = vstd::std_specs::iter::IteratorSpec::remaining(&vstd::std_specs::btree::spec_btree_keys_iter(ready));
    let ghost keys = remaining.unref();
    let mut first: Option<usize> = None;
    for label in it: ready.iter()
        invariant
            it.seq().unref() == keys,
            it.index() == 0 ==> first is None,
            it.index() > 0 ==> first == Some(*it.seq()[0]),
    {
        if first.is_none() {
            first = Some(*label);
        }
    }
    proof {
        assert(keys.to_set() == ready@);
        match first {
            Some(label) => {
                assert(keys[0] == label);
                assert(keys.contains(keys[0]));
                assert(vstd::std_specs::btree::increasing_seq(remaining));
                assert forall|v: usize| #[trigger] ready@.contains(v) implies label <= v by {
                    assert(keys.contains(v));
                    let k = choose|k: int| 0 <= k < keys.len() && keys[k] == v;
                    if k > 0 {
                        assert(vstd::std_specs::cmp::OrdSpec::cmp_spec(&remaining[0], &remaining[k]) is Less);
                    }
                }
            },
            None => {
                assert(ready@ =~= Set::<usize>::empty()) by {
                    assert forall|v: usize| !ready@.contains(v) by {
                        if ready@.contains(v) {
                            assert(keys.contains(v));
                        }
                    }
                }
            },
        }
    }
    first
}

} // verus!
