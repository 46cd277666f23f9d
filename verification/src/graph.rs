use vstd::prelude::*;

use crate::relation_matrix::HasseCoverEdge;

verus! {

/// Both ends of `edge` are labels of `1..=n`.
pub open spec fn edge_in_bounds(n: int, edge: HasseCoverEdge) -> bool {
    1 <= edge.lower <= n && 1 <= edge.upper <= n
}

/// Every edge has both ends in `1..=n`.
pub open spec fn all_edges_in_bounds(n: int, edges: Seq<HasseCoverEdge>) -> bool {
    forall|i: int| 0 <= i < edges.len() ==> edge_in_bounds(n, #[trigger] edges[i])
}

/// `edges[i]` is the first edge with an end outside `1..=n`.
pub open spec fn is_first_out_of_bounds(n: int, edges: Seq<HasseCoverEdge>, i: int) -> bool {
    &&& 0 <= i < edges.len()
    &&& !edge_in_bounds(n, edges[i])
    &&& forall|j: int| 0 <= j < i ==> edge_in_bounds(n, #[trigger] edges[j])
}

/// `rank` strictly increases along every edge.
pub open spec fn is_ranking(edges: Seq<HasseCoverEdge>, rank: spec_fn(int) -> int) -> bool {
    forall|i: int| 0 <= i < edges.len() ==> rank(edges[i].lower as int) < rank(#[trigger] edges[i].upper as int)
}

/// Some ranking of the labels makes every edge go up, as it does exactly for a graph
/// without cycles.
pub open spec fn is_acyclic(edges: Seq<HasseCoverEdge>) -> bool {
    exists|rank: spec_fn(int) -> int| #[trigger] is_ranking(edges, rank)
}

/// `level` gives each label of `1..=n` the length of the longest path of edges that ends
/// there: every edge rises by at least one level, and every label above level 0 is
/// reached by an edge that rises by exactly one.
pub open spec fn are_longest_path_levels(n: int, edges: Seq<HasseCoverEdge>, level: spec_fn(int) -> int) -> bool {
    &&& forall|v: int| 1 <= v <= n ==> 0 <= #[trigger] level(v)
    &&& forall|i: int| 0 <= i < edges.len() ==> level(edges[i].lower as int) + 1 <= level(#[trigger] edges[i].upper as int)
    &&& forall|v: int| 1 <= v <= n && #[trigger] level(v) > 0 ==> exists|i: int|
        0 <= i < edges.len() && edges[i].upper == v && level(edges[i].lower as int) + 1 == level(v)
}

/// The upper ends of the edges that leave `v`, in edge order.
pub open spec fn successors_of(edges: Seq<HasseCoverEdge>, v: int) -> Seq<usize>
    decreases edges.len(),
{
    if edges.len() == 0 {
        Seq::empty()
    } else {
        let earlier = successors_of(edges.drop_last(), v);
        if edges.last().lower == v {
            earlier.push(edges.last().upper)
        } else {
            earlier
        }
    }
}

/// The number of edges that enter `v` from a label not yet in `done`.
pub open spec fn pending_in(edges: Seq<HasseCoverEdge>, v: int, done: Seq<usize>) -> nat
    decreases edges.len(),
{
    if edges.len() == 0 {
        0
    } else {
        pending_in(edges.drop_last(), v, done) + if edges.last().upper == v && !done.contains(
            edges.last().lower,
        ) {
            1nat
        } else {
            0nat
        }
    }
}

pub(crate) proof fn lemma_pending_in_bounded(edges: Seq<HasseCoverEdge>, v: int, done: Seq<usize>)
    ensures
        pending_in(edges, v, done) <= edges.len(),
    decreases edges.len(),
{
    if edges.len() > 0 {
        lemma_pending_in_bounded(edges.drop_last(), v, done);
    }
}

pub(crate) proof fn lemma_pending_in_prefix(edges: Seq<HasseCoverEdge>, k: int, v: int, done: Seq<usize>)
    requires
        0 <= k <= edges.len(),
    ensures
        pending_in(edges.take(k), v, done) <= pending_in(edges, v, done),
    decreases edges.len(),
{
    if k < edges.len() {
        assert(edges.drop_last().take(k) =~= edges.take(k));
        lemma_pending_in_prefix(edges.drop_last(), k, v, done);
    } else {
        assert(edges.take(k) =~= edges);
    }
}

/// The number of edges from `lower` to `upper`.
pub open spec fn edge_count(edges: Seq<HasseCoverEdge>, lower: int, upper: int) -> nat
    decreases edges.len(),
{
    if edges.len() == 0 {
        0
    } else {
        edge_count(edges.drop_last(), lower, upper) + if edges.last().lower == lower && edges.last().upper == upper {
            1nat
        } else {
            0nat
        }
    }
}

/// The number of times `v` occurs in `s`.
pub open spec fn occurrences(s: Seq<usize>, v: int) -> nat
    decreases s.len(),
{
    if s.len() == 0 {
        0
    } else {
        occurrences(s.drop_last(), v) + if s.last() == v {
            1nat
        } else {
            0nat
        }
    }
}

pub(crate) proof fn lemma_pending_after_emit(edges: Seq<HasseCoverEdge>, v: int, done: Seq<usize>, label: usize)
    requires
        !done.contains(label),
    ensures
        pending_in(edges, v, done) == pending_in(edges, v, done.push(label)) + edge_count(edges, label as int, v),
    decreases edges.len(),
{
    if edges.len() > 0 {
        lemma_pending_after_emit(edges.drop_last(), v, done, label);
        let e = edges.last();
        assert(done.push(label).contains(e.lower) <==> (done.contains(e.lower) || e.lower == label)) by {
            if done.push(label).contains(e.lower) {
                let k = choose|k: int| 0 <= k < done.push(label).len() && done.push(label)[k] == e.lower;
                if k < done.len() {
                    assert(done[k] == e.lower);
                }
            }
            if done.contains(e.lower) {
                let k = choose|k: int| 0 <= k < done.len() && done[k] == e.lower;
                assert(done.push(label)[k] == e.lower);
            }
            if e.lower == label {
                assert(done.push(label)[done.len() as int] == label);
            }
        }
    }
}

pub(crate) proof fn lemma_successor_occurrences(edges: Seq<HasseCoverEdge>, lower: int, v: int)
    ensures
        occurrences(successors_of(edges, lower), v) == edge_count(edges, lower, v),
    decreases edges.len(),
{
    if edges.len() > 0 {
        lemma_successor_occurrences(edges.drop_last(), lower, v);
        let earlier = successors_of(edges.drop_last(), lower);
        if edges.last().lower == lower {
            assert(earlier.push(edges.last().upper).drop_last() =~= earlier);
        }
    }
}

pub(crate) proof fn lemma_occurrences_prefix(s: Seq<usize>, k: int, v: int)
    requires
        0 <= k <= s.len(),
    ensures
        occurrences(s.take(k), v) <= occurrences(s, v),
    decreases s.len(),
{
    if k < s.len() {
        assert(s.drop_last().take(k) =~= s.take(k));
        lemma_occurrences_prefix(s.drop_last(), k, v);
    } else {
        assert(s.take(k) =~= s);
    }
}

pub(crate) proof fn lemma_pending_witness(edges: Seq<HasseCoverEdge>, v: int, done: Seq<usize>)
    requires
        pending_in(edges, v, done) > 0,
    ensures
        exists|i: int| 0 <= i < edges.len() && #[trigger] edges[i].upper == v && !done.contains(edges[i].lower),
    decreases edges.len(),
{
    let e = edges.last();
    if e.upper == v && !done.contains(e.lower) {
        assert(edges[edges.len() - 1] == e);
    } else {
        lemma_pending_witness(edges.drop_last(), v, done);
        let i = choose|i: int| 0 <= i < edges.drop_last().len() && #[trigger] edges.drop_last()[i].upper == v
            && !done.contains(edges.drop_last()[i].lower);
        assert(edges[i] == edges.drop_last()[i]);
    }
}

pub(crate) proof fn lemma_no_pending(edges: Seq<HasseCoverEdge>, v: int, done: Seq<usize>, i: int)
    requires
        pending_in(edges, v, done) == 0,
        0 <= i < edges.len(),
        edges[i].upper == v,
    ensures
        done.contains(edges[i].lower),
    decreases edges.len(),
{
    if i < edges.len() - 1 {
        assert(edges.drop_last()[i] == edges[i]);
        lemma_no_pending(edges.drop_last(), v, done, i);
    }
}

pub(crate) proof fn lemma_successor_is_edge(edges: Seq<HasseCoverEdge>, lower: int, j: int)
    requires
        0 <= j < successors_of(edges, lower).len(),
    ensures
        exists|i: int| 0 <= i < edges.len() && #[trigger] edges[i].lower == lower && edges[i].upper == successors_of(edges, lower)[j],
    decreases edges.len(),
{
    let earlier = successors_of(edges.drop_last(), lower);
    if edges.last().lower == lower && j == earlier.len() {
        assert(edges[edges.len() - 1] == edges.last());
    } else {
        lemma_successor_is_edge(edges.drop_last(), lower, j);
        let i = choose|i: int| 0 <= i < edges.drop_last().len() && #[trigger] edges.drop_last()[i].lower == lower
            && edges.drop_last()[i].upper == earlier[j];
        assert(edges[i] == edges.drop_last()[i]);
    }
}

pub(crate) proof fn lemma_edge_is_successor(edges: Seq<HasseCoverEdge>, i: int)
    requires
        0 <= i < edges.len(),
    ensures
        successors_of(edges, edges[i].lower as int).contains(edges[i].upper),
    decreases edges.len(),
{
    let lower = edges[i].lower as int;
    let earlier = successors_of(edges.drop_last(), lower);
    if i == edges.len() - 1 {
        assert(successors_of(edges, lower)[earlier.len() as int] == edges[i].upper);
    } else {
        assert(edges.drop_last()[i] == edges[i]);
        lemma_edge_is_successor(edges.drop_last(), i);
        let k = choose|k: int| 0 <= k < earlier.len() && earlier[k] == edges[i].upper;
        if edges.last().lower == lower {
            assert(successors_of(edges, lower)[k] == edges[i].upper);
        }
    }
}

/// `a` and `b` hold the same labels the same number of times.
pub open spec fn same_counts(a: Seq<usize>, b: Seq<usize>) -> bool {
    forall|v: int| #[trigger] occurrences(a, v) == occurrences(b, v)
}

pub(crate) proof fn lemma_occurrences_push(s: Seq<usize>, x: usize, v: int)
    ensures
        occurrences(s.push(x), v) == occurrences(s, v) + if x == v { 1nat } else { 0nat },
{
    assert(s.push(x).drop_last() =~= s);
}

pub(crate) proof fn lemma_occurrences_update(s: Seq<usize>, k: int, x: usize, v: int)
    requires
        0 <= k < s.len(),
    ensures
        occurrences(s.update(k, x), v) + (if s[k] == v { 1nat } else { 0nat }) == occurrences(s, v) + (if x == v {
            1nat
        } else {
            0nat
        }),
    decreases s.len(),
{
    if k < s.len() - 1 {
        assert(s.update(k, x).drop_last() =~= s.drop_last().update(k, x));
        lemma_occurrences_update(s.drop_last(), k, x, v);
    } else {
        assert(s.update(k, x).drop_last() =~= s.drop_last());
    }
}

pub(crate) proof fn lemma_occurrences_contains(s: Seq<usize>, v: usize)
    ensures
        occurrences(s, v as int) > 0 <==> s.contains(v),
    decreases s.len(),
{
    if s.len() > 0 {
        lemma_occurrences_contains(s.drop_last(), v);
        if s.drop_last().contains(v) {
            let k = choose|k: int| 0 <= k < s.drop_last().len() && s.drop_last()[k] == v;
            assert(s[k] == v);
        }
        if s.contains(v) {
            let k = choose|k: int| 0 <= k < s.len() && s[k] == v;
            if k < s.len() - 1 {
                assert(s.drop_last()[k] == v);
            }
        }
    }
}

/// Sorts `labels` into increasing order.
pub(crate) fn sort_labels(labels: &mut Vec<usize>)
    ensures
        final(labels)@.len() == old(labels)@.len(),
        forall|i: int, j: int| 0 <= i < j < final(labels)@.len() ==> final(labels)@[i] <= final(labels)@[j],
        same_counts(final(labels)@, old(labels)@),
{
    let ghost original = labels@;
    let mut i: usize = 1;
    while i < labels.len()
        invariant
            labels@.len() == original.len(),
            1 <= i,
            i <= labels@.len() || labels@.len() == 0,
            forall|a: int, b: int| 0 <= a < b < i && b < labels@.len() ==> labels@[a] <= labels@[b],
            same_counts(labels@, original),
        decreases labels@.len() - i,
    {
        let mut j: usize = i;
        while j > 0 && labels[j - 1] > labels[j]
            invariant
                labels@.len() == original.len(),
                j <= i < labels@.len(),
                forall|a: int, b: int| 0 <= a < b <= i && a != j && b != j ==> labels@[a] <= labels@[b],
                forall|b: int| j < b <= i ==> labels@[j as int] <= labels@[b],
                same_counts(labels@, original),
            decreases j,
        {
            let ghost before = labels@;
            let smaller = labels[j];
            let larger = labels[j - 1];
            labels.set(j - 1, smaller);
            labels.set(j, larger);
            proof {
                assert forall|v: int| #[trigger] occurrences(labels@, v) == occurrences(original, v) by {
                    lemma_occurrences_update(before, j - 1, smaller, v);
                    lemma_occurrences_update(before.update(j - 1, smaller), j as int, larger, v);
                }
            }
            j = j - 1;
        }
        i = i + 1;
    }
}

/// An entry of a list that holds the successors of `lower` is the upper end of an edge
/// that leaves `lower`.
pub(crate) proof fn lemma_listed_successor_is_edge(edges: Seq<HasseCoverEdge>, lower: int, list: Seq<usize>, j: int)
    requires
        same_counts(list, successors_of(edges, lower)),
        0 <= j < list.len(),
    ensures
        exists|i: int| 0 <= i < edges.len() && #[trigger] edges[i].lower == lower && edges[i].upper == list[j],
{
    assert(list.contains(list[j]));
    lemma_occurrences_contains(list, list[j]);
    assert(occurrences(list, list[j] as int) == occurrences(successors_of(edges, lower), list[j] as int));
    lemma_occurrences_contains(successors_of(edges, lower), list[j]);
    let jj = choose|jj: int| 0 <= jj < successors_of(edges, lower).len() && successors_of(edges, lower)[jj] == list[j];
    lemma_successor_is_edge(edges, lower, jj);
}

/// A list that holds the successors of the lower end of an edge holds its upper end.
pub(crate) proof fn lemma_edge_is_listed(edges: Seq<HasseCoverEdge>, i: int, list: Seq<usize>)
    requires
        0 <= i < edges.len(),
        same_counts(list, successors_of(edges, edges[i].lower as int)),
    ensures
        list.contains(edges[i].upper),
{
    lemma_edge_is_successor(edges, i);
    lemma_occurrences_contains(successors_of(edges, edges[i].lower as int), edges[i].upper);
    assert(occurrences(list, edges[i].upper as int) == occurrences(successors_of(edges, edges[i].lower as int), edges[i].upper as int));
    lemma_occurrences_contains(list, edges[i].upper);
}

/// The labels `1..=n`.
pub open spec fn label_range(n: int) -> Set<usize> {
    Set::new(|v: usize| 1 <= v <= n)
}

pub(crate) proof fn lemma_label_range_len(n: int)
    requires
        0 <= n <= usize::MAX,
    ensures
        label_range(n).finite(),
        label_range(n).len() == n,
    decreases n,
{
    if n == 0 {
        assert(label_range(n) =~= Set::empty());
    } else {
        lemma_label_range_len(n - 1);
        assert(label_range(n) =~= label_range(n - 1).insert(n as usize));
    }
}

/// A list of distinct labels of `1..=n` has at most `n` entries, and exactly `n` when
/// every label is listed.
pub(crate) proof fn lemma_distinct_labels(s: Seq<usize>, n: int)
    requires
        0 <= n <= usize::MAX,
        s.no_duplicates(),
        forall|a: int| 0 <= a < s.len() ==> 1 <= #[trigger] s[a] <= n,
    ensures
        s.len() <= n,
        (forall|v: usize| 1 <= v <= n ==> s.contains(v)) ==> s.len() == n,
        s.len() == n ==> forall|v: usize| 1 <= v <= n ==> #[trigger] s.contains(v),
{
    lemma_label_range_len(n);
    s.unique_seq_to_set();
    assert(s.to_set().subset_of(label_range(n)));
    vstd::set_lib::lemma_len_subset(s.to_set(), label_range(n));
    if forall|v: usize| 1 <= v <= n ==> s.contains(v) {
        assert(label_range(n).subset_of(s.to_set()));
        vstd::set_lib::lemma_len_subset(label_range(n), s.to_set());
    }
    if s.len() == n {
        vstd::set_lib::lemma_subset_equality(s.to_set(), label_range(n));
        assert forall|v: usize| 1 <= v <= n implies #[trigger] s.contains(v) by {
            assert(label_range(n).contains(v));
        }
    }
}

/// A nonempty finite set of labels has a label of least rank.
pub(crate) proof fn lemma_least_rank(labels: Set<usize>, rank: spec_fn(int) -> int)
    requires
        labels.finite(),
        labels.len() > 0,
    ensures
        exists|v: usize| labels.contains(v) && forall|w: usize| #[trigger] labels.contains(w) ==> rank(v as int) <= rank(w as int),
    decreases labels.len(),
{
    let x = labels.choose();
    let rest = labels.remove(x);
    if rest.len() == 0 {
        assert forall|w: usize| #[trigger] labels.contains(w) implies rank(x as int) <= rank(w as int) by {
            if w != x {
                assert(rest.contains(w));
            }
        }
    } else {
        lemma_least_rank(rest, rank);
        let m = choose|v: usize| rest.contains(v) && forall|w: usize| #[trigger] rest.contains(w) ==> rank(v as int) <= rank(w as int);
        if rank(x as int) < rank(m as int) {
            assert forall|w: usize| #[trigger] labels.contains(w) implies rank(x as int) <= rank(w as int) by {
                if w != x {
                    assert(rest.contains(w));
                }
            }
        } else {
            assert forall|w: usize| #[trigger] labels.contains(w) implies rank(m as int) <= rank(w as int) by {
                if w != x {
                    assert(rest.contains(w));
                }
            }
        }
    }
}

/// `order` lists every label of `1..=n` once, and every edge goes from an earlier label
/// to a later one.
pub open spec fn is_topological_order(n: int, edges: Seq<HasseCoverEdge>, order: Seq<usize>) -> bool {
    &&& order.len() == n
    &&& order.no_duplicates()
    &&& forall|a: int| 0 <= a < order.len() ==> 1 <= #[trigger] order[a] <= n
    &&& forall|i: int, a: int, b: int|
        #![trigger edges[i], order[a], order[b]]
        0 <= i < edges.len() && 0 <= a < order.len() && 0 <= b < order.len() && order[a] == edges[i].upper
            && order[b] == edges[i].lower ==> b < a
}

/// `v` is a label of `1..=n` not yet in `done` whose every incoming edge starts in `done`.
pub open spec fn is_ready(n: int, edges: Seq<HasseCoverEdge>, done: Seq<usize>, v: usize) -> bool {
    &&& 1 <= v <= n
    &&& !done.contains(v)
    &&& forall|i: int| 0 <= i < edges.len() && #[trigger] edges[i].upper == v ==> done.contains(edges[i].lower)
}

/// Every label of `order` is the smallest label that is ready once the labels before it
/// are placed.
pub open spec fn takes_least_ready(n: int, edges: Seq<HasseCoverEdge>, order: Seq<usize>) -> bool {
    forall|a: int, v: usize| 0 <= a < order.len() && #[trigger] is_ready(n, edges, order.take(a), v) ==> order[a] <= v
}

/// When every edge into `v` starts in `done`, no edge into `v` is pending.
pub(crate) proof fn lemma_no_pending_edge(edges: Seq<HasseCoverEdge>, v: int, done: Seq<usize>)
    requires
        forall|i: int| 0 <= i < edges.len() && #[trigger] edges[i].upper == v ==> done.contains(edges[i].lower),
    ensures
        pending_in(edges, v, done) == 0,
{
    if pending_in(edges, v, done) > 0 {
        lemma_pending_witness(edges, v, done);
    }
}

proof fn lemma_first_difference(first: Seq<usize>, second: Seq<usize>, start: int)
    requires
        first.len() == second.len(),
        first != second,
        0 <= start <= first.len(),
        first.take(start) == second.take(start),
    ensures
        exists|a: int| 0 <= a < first.len() && first.take(a) == second.take(a) && first[a] != second[a],
    decreases first.len() - start,
{
    if start == first.len() {
        assert(first =~= first.take(start));
        assert(second =~= second.take(start));
    } else if first[start] != second[start] {
    } else {
        assert(first.take(start + 1) =~= first.take(start).push(first[start]));
        assert(second.take(start + 1) =~= second.take(start).push(second[start]));
        lemma_first_difference(first, second, start + 1);
    }
}

/// Law: taking the smallest ready label at every step gives the lexicographically least
/// topological order: at the first place where another topological order differs, it
/// holds a larger label.
pub proof fn lemma_least_ready_order_is_least(
    n: int,
    edges: Seq<HasseCoverEdge>,
    order: Seq<usize>,
    other: Seq<usize>,
)
    requires
        0 <= n <= usize::MAX,
        all_edges_in_bounds(n, edges),
        is_topological_order(n, edges, order),
        takes_least_ready(n, edges, order),
        is_topological_order(n, edges, other),
        order != other,
    ensures
        exists|a: int| 0 <= a < n && order.take(a) == other.take(a) && order[a] < other[a],
{
    assert(order.take(0) =~= other.take(0));
    lemma_first_difference(order, other, 0);
    let a = choose|a: int| 0 <= a < order.len() && order.take(a) == other.take(a) && order[a] != other[a];
    let done = other.take(a);
    lemma_distinct_labels(other, n);
    let v = other[a];
    assert(!done.contains(v)) by {
        if done.contains(v) {
            let b = choose|b: int| 0 <= b < done.len() && done[b] == v;
            assert(other[b] == other[a]);
        }
    }
    assert forall|i: int| 0 <= i < edges.len() && #[trigger] edges[i].upper == v implies done.contains(edges[i].lower) by {
        assert(edge_in_bounds(n, edges[i]));
        assert(other.contains(edges[i].lower));
        let b = choose|b: int| 0 <= b < other.len() && other[b] == edges[i].lower;
        assert(edges[i] == edges[i] && other[a] == edges[i].upper && other[b] == edges[i].lower);
        assert(done[b] == edges[i].lower);
    }
    assert(is_ready(n, edges, order.take(a), v));
}

/// `edges` has an edge from `lower` to `upper`.
pub open spec fn has_edge(edges: Seq<HasseCoverEdge>, lower: int, upper: int) -> bool {
    exists|i: int| 0 <= i < edges.len() && #[trigger] edges[i].lower == lower && edges[i].upper == upper
}

/// `walk` starts at `from`, ends at `to` and follows an edge at every step.
pub open spec fn is_walk(edges: Seq<HasseCoverEdge>, walk: Seq<int>, from: int, to: int) -> bool {
    &&& walk.len() >= 1
    &&& walk[0] == from
    &&& walk.last() == to
    &&& forall|t: int| #![trigger walk[t]] 0 <= t < walk.len() - 1 ==> has_edge(edges, walk[t], walk[t + 1])
}

/// Two walks that meet form one walk.
pub(crate) proof fn lemma_walks_join(
    edges: Seq<HasseCoverEdge>,
    first: Seq<int>,
    second: Seq<int>,
    from: int,
    middle: int,
    to: int,
)
    requires
        is_walk(edges, first, from, middle),
        is_walk(edges, second, middle, to),
    ensures
        is_walk(edges, first + second.drop_first(), from, to),
{
    let joined = first + second.drop_first();
    assert forall|t: int| #![trigger joined[t]] 0 <= t < joined.len() - 1 implies has_edge(edges, joined[t], joined[t + 1]) by {
        if t < first.len() - 1 {
            assert(joined[t] == first[t] && joined[t + 1] == first[t + 1]);
        } else {
            let r = t - (first.len() - 1);
            assert(joined[t] == second[r]) by {
                if t == first.len() - 1 {
                    assert(joined[t] == first.last());
                }
            }
            assert(joined[t + 1] == second[r + 1]);
            assert(has_edge(edges, second[r], second[r + 1]));
        }
    }
    if second.len() == 1 {
        assert(joined =~= first);
    } else {
        assert(joined.last() == second.last());
    }
}

} // verus!
