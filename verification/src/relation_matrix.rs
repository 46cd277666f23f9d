use vstd::prelude::*;
use vstd::string::StringExecFns;

use crate::graph::{has_edge, is_walk, lemma_walks_join};
use crate::text::{
    decimal, digits_value, is_digit, is_digits, lemma_decimal_injective, lemma_decimal_reads_back,
    lemma_digits_split_unique, pair_text, push_decimal,
};

verus! {

/// Smallest supported size of the underlying set `1..=n`.
pub const MIN_RELATION_SIZE: usize = 1;

/// Largest supported size of the underlying set `1..=n`.
pub const MAX_RELATION_SIZE: usize = 10;

/// Why a matrix could not be built or a cell could not be reached.
#[derive(Debug, Clone, PartialEq, Eq)]
pub enum RelationMatrixError {
    InvalidSize { size: usize, min: usize, max: usize },
    ElementOutOfBounds { element: usize, size: usize },
}

/// A pair `left < right` related both ways, which breaks antisymmetry.
#[derive(Debug, Clone, Copy, PartialEq, Eq)]
pub struct AntisymmetryWitness {
    pub left: usize,
    pub right: usize,
}

/// A chain `source -> middle -> target` whose shortcut `source -> target` is missing.
#[derive(Debug, Clone, Copy, PartialEq, Eq)]
pub struct TransitivityWitness {
    pub source: usize,
    pub middle: usize,
    pub target: usize,
}

/// An edge of the Hasse diagram: `upper` covers `lower`.
#[derive(Debug, Clone, Copy, PartialEq, Eq)]
pub struct HasseCoverEdge {
    pub lower: usize,
    pub upper: usize,
}

/// The first violation of each partial-order law, if any.
#[derive(Debug, Clone, PartialEq, Eq)]
pub struct PartialOrderDiagnostics {
    pub reflexivity_witness: Option<usize>,
    pub antisymmetry_witness: Option<AntisymmetryWitness>,
    pub transitivity_witness: Option<TransitivityWitness>,
}

impl PartialOrderDiagnostics {
    /// No law is violated.
    pub open spec fn spec_is_valid(&self) -> bool {
        &&& self.reflexivity_witness is None
        &&& self.antisymmetry_witness is None
        &&& self.transitivity_witness is None
    }

    /// Whether no law is violated.
    pub fn is_valid(&self) -> (valid: bool)
        ensures
            valid == self.spec_is_valid(),
    {
        self.reflexivity_witness.is_none() && self.antisymmetry_witness.is_none()
            && self.transitivity_witness.is_none()
    }

    /// The report of the violated laws: a heading, then one line per law.
    pub open spec fn report_lines(&self) -> Seq<Seq<char>> {
        seq![
            "- Нарушены условия частичного порядка:"@,
            match self.reflexivity_witness {
                Some(e) => "  • Рефлексивность нарушена: ("@ + decimal(e as nat) + ", "@ + decimal(e as nat) + ") = 0."@,
                None => "  • Рефлексивность: OK."@,
            },
            match self.antisymmetry_witness {
                Some(w) => "  • Антисимметричность нарушена: ("@ + decimal(w.left as nat) + ", "@ + decimal(w.right as nat)
                    + ") = 1 и ("@ + decimal(w.right as nat) + ", "@ + decimal(w.left as nat) + ") = 1."@,
                None => "  • Антисимметричность: OK."@,
            },
            match self.transitivity_witness {
                Some(w) => "  • Транзитивность нарушена: ("@ + decimal(w.source as nat) + ", "@ + decimal(w.middle as nat)
                    + ") = 1 и ("@ + decimal(w.middle as nat) + ", "@ + decimal(w.target as nat) + ") = 1, но ("@
                    + decimal(w.source as nat) + ", "@ + decimal(w.target as nat) + ") = 0."@,
                None => "  • Транзитивность: OK."@,
            },
        ]
    }

    /// The report of the violated laws, one line per entry.
    pub fn report_messages(&self) -> (messages: Vec<String>)
        ensures
            messages@.map_values(|line: String| line@) == self.report_lines(),
    {
        let mut messages: Vec<String> = Vec::new();
        messages.push("- Нарушены условия частичного порядка:".to_owned());

        match self.reflexivity_witness {
            Some(element) => {
                let mut line = "  • Рефлексивность нарушена: (".to_owned();
                push_decimal(&mut line, element);
                line.append(", ");
                push_decimal(&mut line, element);
                line.append(") = 0.");
                messages.push(line);
            },
            None => messages.push("  • Рефлексивность: OK.".to_owned()),
        }

        match self.antisymmetry_witness {
            Some(witness) => {
                let mut line = "  • Антисимметричность нарушена: (".to_owned();
                push_decimal(&mut line, witness.left);
                line.append(", ");
                push_decimal(&mut line, witness.right);
                line.append(") = 1 и (");
                push_decimal(&mut line, witness.right);
                line.append(", ");
                push_decimal(&mut line, witness.left);
                line.append(") = 1.");
                messages.push(line);
            },
            None => messages.push("  • Антисимметричность: OK.".to_owned()),
        }

        match self.transitivity_witness {
            Some(witness) => {
                let mut line = "  • Транзитивность нарушена: (".to_owned();
                push_decimal(&mut line, witness.source);
                line.append(", ");
                push_decimal(&mut line, witness.middle);
                line.append(") = 1 и (");
                push_decimal(&mut line, witness.middle);
                line.append(", ");
                push_decimal(&mut line, witness.target);
                line.append(") = 1, но (");
                push_decimal(&mut line, witness.source);
                line.append(", ");
                push_decimal(&mut line, witness.target);
                line.append(") = 0.");
                messages.push(line);
            },
            None => messages.push("  • Транзитивность: OK.".to_owned()),
        }

        assert(messages@.map_values(|line: String| line@) =~= self.report_lines());
        messages
    }
}

/// Law: a line of the report reads "OK" exactly when its law has no witness, whatever
/// the other witnesses are.
pub proof fn lemma_report_ok_lines(d: PartialOrderDiagnostics)
    ensures
        d.report_lines().len() == 4,
        d.report_lines()[0] == "- Нарушены условия частичного порядка:"@,
        (d.report_lines()[1] == "  • Рефлексивность: OK."@) <==> d.reflexivity_witness is None,
        (d.report_lines()[2] == "  • Антисимметричность: OK."@) <==> d.antisymmetry_witness is None,
        (d.report_lines()[3] == "  • Транзитивность: OK."@) <==> d.transitivity_witness is None,
{
    reveal_strlit("  • Рефлексивность: OK.");
    reveal_strlit("  • Рефлексивность нарушена: (");
    reveal_strlit("  • Антисимметричность: OK.");
    reveal_strlit("  • Антисимметричность нарушена: (");
    reveal_strlit("  • Транзитивность: OK.");
    reveal_strlit("  • Транзитивность нарушена: (");
    let lines = d.report_lines();
    if d.reflexivity_witness is Some {
        assert(lines[1][18] == ' ');
        assert(("  • Рефлексивность: OK."@)[18] == ':');
    }
    if d.antisymmetry_witness is Some {
        assert(lines[2][22] == ' ');
        assert(("  • Антисимметричность: OK."@)[22] == ':');
    }
    if d.transitivity_witness is Some {
        assert(lines[3][18] == ' ');
        assert(("  • Транзитивность: OK."@)[18] == ':');
    }
}

/// Law: each violation line of the report for a relation names the cells of its witness
/// with their true values in that relation: the reflexivity line the unrelated pair
/// `(e, e) = 0`, the antisymmetry line the pairs `(l, r) = 1` and `(r, l) = 1` of two
/// distinct elements, and the transitivity line the related pairs `(s, m) = 1` and
/// `(m, t) = 1` and then the unrelated shortcut `(s, t) = 0`.
pub proof fn lemma_report_names_violations(relation: RelationMatrix, d: PartialOrderDiagnostics)
    requires
        relation.diagnoses(d),
    ensures
        d.reflexivity_witness is Some ==> exists|e: int|
            #![trigger relation.holds(e, e)]
            e == d.reflexivity_witness.unwrap() && relation.is_element(e) && !relation.holds(e, e) && d.report_lines()[1]
                == "  • Рефлексивность нарушена: "@ + pair_text(e as nat, e as nat) + " = 0."@,
        d.antisymmetry_witness is Some ==> exists|a: int, b: int|
            #![trigger relation.holds(a, b), relation.holds(b, a)]
            a == d.antisymmetry_witness.unwrap().left && b == d.antisymmetry_witness.unwrap().right
                && relation.is_element(a) && relation.is_element(b) && a != b && relation.holds(a, b)
                && relation.holds(b, a) && d.report_lines()[2] == "  • Антисимметричность нарушена: "@
                + pair_text(a as nat, b as nat) + " = 1 и "@ + pair_text(b as nat, a as nat) + " = 1."@,
        d.transitivity_witness is Some ==> exists|source: int, middle: int, target: int|
            #![trigger relation.holds(source, middle), relation.holds(middle, target)]
            source == d.transitivity_witness.unwrap().source && middle == d.transitivity_witness.unwrap().middle
                && target == d.transitivity_witness.unwrap().target && relation.is_element(source)
                && relation.is_element(middle) && relation.is_element(target) && relation.holds(source, middle) && relation.holds(middle, target) && !relation.holds(
                source,
                target,
            ) && d.report_lines()[3] == "  • Транзитивность нарушена: "@ + pair_text(source as nat, middle as nat)
                + " = 1 и "@ + pair_text(middle as nat, target as nat) + " = 1, но "@ + pair_text(
                source as nat,
                target as nat,
            ) + " = 0."@,
{
    match d.reflexivity_witness {
        Some(e) => {
            lemma_reflexivity_line(e);
            assert(relation.holds(e as int, e as int) == false);
        },
        None => {},
    }
    match d.antisymmetry_witness {
        Some(w) => {
            lemma_antisymmetry_line(w);
            assert(relation.holds(w.left as int, w.right as int) && relation.holds(w.right as int, w.left as int));
        },
        None => {},
    }
    match d.transitivity_witness {
        Some(w) => {
            lemma_transitivity_line(w);
            assert(relation.holds(w.source as int, w.middle as int) && relation.holds(
                w.middle as int,
                w.target as int,
            ));
        },
        None => {},
    }
}

proof fn lemma_reflexivity_line(e: usize)
    ensures
        "  • Рефлексивность нарушена: ("@ + decimal(e as nat) + ", "@ + decimal(e as nat) + ") = 0."@
            == "  • Рефлексивность нарушена: "@ + pair_text(e as nat, e as nat) + " = 0."@,
{
    reveal_strlit("(");
    reveal_strlit(")");
    reveal_strlit(", ");
    reveal_strlit("  • Рефлексивность нарушена: (");
    reveal_strlit("  • Рефлексивность нарушена: ");
    reveal_strlit(") = 0.");
    reveal_strlit(" = 0.");
    assert("  • Рефлексивность нарушена: ("@ + decimal(e as nat) + ", "@ + decimal(e as nat) + ") = 0."@
        =~= "  • Рефлексивность нарушена: "@ + pair_text(e as nat, e as nat) + " = 0."@);
}

proof fn lemma_antisymmetry_line(w: AntisymmetryWitness)
    ensures
        "  • Антисимметричность нарушена: ("@ + decimal(w.left as nat) + ", "@ + decimal(w.right as nat)
            + ") = 1 и ("@ + decimal(w.right as nat) + ", "@ + decimal(w.left as nat) + ") = 1."@
            == "  • Антисимметричность нарушена: "@ + pair_text(w.left as nat, w.right as nat) + " = 1 и "@
            + pair_text(w.right as nat, w.left as nat) + " = 1."@,
{
    reveal_strlit("(");
    reveal_strlit(")");
    reveal_strlit(", ");
    reveal_strlit("  • Антисимметричность нарушена: (");
    reveal_strlit("  • Антисимметричность нарушена: ");
    reveal_strlit(") = 1 и (");
    reveal_strlit(" = 1 и ");
    reveal_strlit(") = 1.");
    reveal_strlit(" = 1.");
    assert("  • Антисимметричность нарушена: ("@ + decimal(w.left as nat) + ", "@ + decimal(w.right as nat)
        + ") = 1 и ("@ + decimal(w.right as nat) + ", "@ + decimal(w.left as nat) + ") = 1."@
        =~= "  • Антисимметричность нарушена: "@ + pair_text(w.left as nat, w.right as nat) + " = 1 и "@
        + pair_text(w.right as nat, w.left as nat) + " = 1."@);
}

#[verifier::rlimit(30)]
proof fn lemma_transitivity_line(w: TransitivityWitness)
    ensures
        "  • Транзитивность нарушена: ("@ + decimal(w.source as nat) + ", "@ + decimal(w.middle as nat)
            + ") = 1 и ("@ + decimal(w.middle as nat) + ", "@ + decimal(w.target as nat) + ") = 1, но ("@
            + decimal(w.source as nat) + ", "@ + decimal(w.target as nat) + ") = 0."@
            == "  • Транзитивность нарушена: "@ + pair_text(w.source as nat, w.middle as nat) + " = 1 и "@
            + pair_text(w.middle as nat, w.target as nat) + " = 1, но "@ + pair_text(w.source as nat, w.target as nat)
            + " = 0."@,
{
    reveal_strlit("(");
    reveal_strlit(")");
    reveal_strlit(", ");
    reveal_strlit("  • Транзитивность нарушена: (");
    reveal_strlit("  • Транзитивность нарушена: ");
    reveal_strlit(") = 1 и (");
    reveal_strlit(" = 1 и ");
    reveal_strlit(") = 1, но (");
    reveal_strlit(" = 1, но ");
    reveal_strlit(") = 0.");
    reveal_strlit(" = 0.");
    assert("  • Транзитивность нарушена: ("@ + decimal(w.source as nat) + ", "@ + decimal(w.middle as nat)
        + ") = 1 и ("@ + decimal(w.middle as nat) + ", "@ + decimal(w.target as nat) + ") = 1, но ("@
        + decimal(w.source as nat) + ", "@ + decimal(w.target as nat) + ") = 0."@
        =~= "  • Транзитивность нарушена: "@ + pair_text(w.source as nat, w.middle as nat) + " = 1 и "@
        + pair_text(w.middle as nat, w.target as nat) + " = 1, но "@ + pair_text(w.source as nat, w.target as nat)
        + " = 0."@);
}

impl HasseCoverEdge {
    /// The edge written as the pair `(lower, upper)`.
    pub open spec fn text(&self) -> Seq<char> {
        "("@ + decimal(self.lower as nat) + ", "@ + decimal(self.upper as nat) + ")"@
    }

    /// The edge written as the pair `(lower, upper)`.
    pub fn to_text(&self) -> (text: String)
        ensures
            text@ == self.text(),
    {
        let mut text = "(".to_owned();
        push_decimal(&mut text, self.lower);
        text.append(", ");
        push_decimal(&mut text, self.upper);
        text.append(")");
        text
    }
}

/// Law: the text of an edge is `(`, the digits of its lower end, `, `, the digits of its
/// upper end and `)`, whichever of the two labels is the larger.
pub proof fn lemma_edge_text_names_its_ends(edge: HasseCoverEdge)
    ensures
        exists|lower_text: Seq<char>, upper_text: Seq<char>|
            #![trigger digits_value(lower_text), digits_value(upper_text)]
            is_digits(lower_text) && is_digits(upper_text) && digits_value(lower_text) == edge.lower
                && digits_value(upper_text) == edge.upper && edge.text() == "("@ + lower_text + ", "@ + upper_text
                + ")"@,
{
    lemma_decimal_reads_back(edge.lower as nat);
    lemma_decimal_reads_back(edge.upper as nat);
    let lower_text = decimal(edge.lower as nat);
    let upper_text = decimal(edge.upper as nat);
    assert(digits_value(lower_text) == edge.lower && digits_value(upper_text) == edge.upper);
}

/// Law: two edges with the same text are the same edge.
pub proof fn lemma_edge_text_injective(a: HasseCoverEdge, b: HasseCoverEdge)
    requires
        a.text() == b.text(),
    ensures
        a == b,
{
    reveal_strlit("(");
    reveal_strlit(", ");
    reveal_strlit(")");
    lemma_decimal_reads_back(a.lower as nat);
    lemma_decimal_reads_back(a.upper as nat);
    lemma_decimal_reads_back(b.lower as nat);
    lemma_decimal_reads_back(b.upper as nat);
    let text = a.text();
    let a_tail = ", "@ + decimal(a.upper as nat) + ")"@;
    let b_tail = ", "@ + decimal(b.upper as nat) + ")"@;
    assert(text.subrange(1, text.len() as int) =~= decimal(a.lower as nat) + a_tail);
    assert(text.subrange(1, text.len() as int) =~= decimal(b.lower as nat) + b_tail);
    assert(a_tail[0] == ',' && b_tail[0] == ',');
    lemma_digits_split_unique(decimal(a.lower as nat), a_tail, decimal(b.lower as nat), b_tail);
    lemma_decimal_injective(a.lower as nat, b.lower as nat);
    assert(a_tail.subrange(2, a_tail.len() as int) =~= decimal(a.upper as nat) + ")"@);
    assert(b_tail.subrange(2, b_tail.len() as int) =~= decimal(b.upper as nat) + ")"@);
    assert((")"@)[0] == ')');
    lemma_digits_split_unique(decimal(a.upper as nat), ")"@, decimal(b.upper as nat), ")"@);
    lemma_decimal_injective(a.upper as nat, b.upper as nat);
}

/// `a` comes strictly before `b` when edges are ordered by lower end, then by upper end.
pub open spec fn edge_precedes(a: HasseCoverEdge, b: HasseCoverEdge) -> bool {
    a.lower < b.lower || (a.lower == b.lower && a.upper < b.upper)
}

/// `(l1, r1)` comes strictly before `(l2, r2)` in lexicographic order.
pub open spec fn pair_precedes(l1: int, r1: int, l2: int, r2: int) -> bool {
    l1 < l2 || (l1 == l2 && r1 < r2)
}

/// `(a1, b1, c1)` comes strictly before `(a2, b2, c2)` in lexicographic order.
pub open spec fn triple_precedes(a1: int, b1: int, c1: int, a2: int, b2: int, c2: int) -> bool {
    a1 < a2 || (a1 == a2 && (b1 < b2 || (b1 == b2 && c1 < c2)))
}

/// Law: reading a cell after writing it gives the written value, and every other cell
/// reads as before; a write outside `1..=n` changes nothing.
pub proof fn lemma_read_after_write(
    before: RelationMatrix,
    after: RelationMatrix,
    row: int,
    column: int,
    value: bool,
    other_row: int,
    other_column: int,
)
    requires
        before.wf(),
        after.spec_size() == before.spec_size(),
        before.lookup(row, column) is Ok ==> after@ == before@.insert((row, column), value),
        before.lookup(row, column) is Err ==> after@ == before@,
    ensures
        before.lookup(row, column) is Ok ==> after.lookup(row, column) == Ok::<bool, RelationMatrixError>(value),
        (other_row, other_column) != (row, column) || before.lookup(row, column) is Err ==> after.lookup(
            other_row,
            other_column,
        ) == before.lookup(other_row, other_column),
{
}

/// Law: a relation has exactly one report of its first violations.
pub proof fn lemma_diagnostics_are_determined(
    relation: RelationMatrix,
    first: PartialOrderDiagnostics,
    second: PartialOrderDiagnostics,
)
    requires
        relation.diagnoses(first),
        relation.diagnoses(second),
    ensures
        first == second,
{
    match (first.reflexivity_witness, second.reflexivity_witness) {
        (Some(a), Some(b)) => {
            assert(!(a < b) && !(b < a)) by {
                if a < b {
                    assert(!relation.is_reflexivity_witness(a as int));
                }
                if b < a {
                    assert(!relation.is_reflexivity_witness(b as int));
                }
            }
        },
        (Some(a), None) => {
            assert(!relation.is_reflexivity_witness(a as int));
        },
        (None, Some(b)) => {
            assert(!relation.is_reflexivity_witness(b as int));
        },
        (None, None) => {},
    }
    match (first.antisymmetry_witness, second.antisymmetry_witness) {
        (Some(a), Some(b)) => {
            if pair_precedes(a.left as int, a.right as int, b.left as int, b.right as int) {
                assert(!relation.is_antisymmetry_witness(a.left as int, a.right as int));
            }
            if pair_precedes(b.left as int, b.right as int, a.left as int, a.right as int) {
                assert(!relation.is_antisymmetry_witness(b.left as int, b.right as int));
            }
        },
        (Some(a), None) => {
            assert(!relation.is_antisymmetry_witness(a.left as int, a.right as int));
        },
        (None, Some(b)) => {
            assert(!relation.is_antisymmetry_witness(b.left as int, b.right as int));
        },
        (None, None) => {},
    }
    match (first.transitivity_witness, second.transitivity_witness) {
        (Some(a), Some(b)) => {
            if triple_precedes(a.source as int, a.middle as int, a.target as int, b.source as int, b.middle as int, b.target as int) {
                assert(!relation.is_transitivity_witness(a.source as int, a.middle as int, a.target as int));
            }
            if triple_precedes(b.source as int, b.middle as int, b.target as int, a.source as int, a.middle as int, a.target as int) {
                assert(!relation.is_transitivity_witness(b.source as int, b.middle as int, b.target as int));
            }
        },
        (Some(a), None) => {
            assert(!relation.is_transitivity_witness(a.source as int, a.middle as int, a.target as int));
        },
        (None, Some(b)) => {
            assert(!relation.is_transitivity_witness(b.source as int, b.middle as int, b.target as int));
        },
        (None, None) => {},
    }
}

/// Law: asking for the cover edges fails exactly when checking the laws fails, and with
/// the same diagnostics.
pub proof fn lemma_cover_edges_fail_like_validation(
    relation: RelationMatrix,
    validation: Result<(), PartialOrderDiagnostics>,
    cover_edges: Result<Seq<HasseCoverEdge>, PartialOrderDiagnostics>,
)
    requires
        relation.is_validation_outcome(validation),
        relation.is_cover_edges_outcome(cover_edges),
    ensures
        validation is Ok <==> cover_edges is Ok,
        validation is Err ==> validation->Err_0 == cover_edges->Err_0,
{
    if validation is Err && cover_edges is Err {
        lemma_diagnostics_are_determined(relation, validation->Err_0, cover_edges->Err_0);
    }
}

/// The elements between `low` and `high`, both included.
pub open spec fn interval(relation: RelationMatrix, low: int, high: int) -> Set<int> {
    Set::new(|m: int| relation.is_element(m) && relation.holds(low, m) && relation.holds(m, high))
}

proof fn lemma_walk_is_related(relation: RelationMatrix, edges: Seq<HasseCoverEdge>, walk: Seq<int>, from: int, to: int)
    requires
        relation.is_partial_order(),
        relation.is_cover_listing(edges),
        relation.is_element(from),
        is_walk(edges, walk, from, to),
    ensures
        relation.is_element(to),
        relation.holds(from, to),
    decreases walk.len(),
{
    if walk.len() > 1 {
        let next = walk[1];
        assert(has_edge(edges, walk[0], walk[1]));
        let i = choose|i: int| 0 <= i < edges.len() && #[trigger] edges[i].lower == walk[0] && edges[i].upper == walk[1];
        assert(relation.covers(edges[i].lower as int, edges[i].upper as int));
        let rest = walk.drop_first();
        assert forall|t: int| #![trigger rest[t]] 0 <= t < rest.len() - 1 implies has_edge(edges, rest[t], rest[t + 1]) by {
            assert(rest[t] == walk[t + 1] && rest[t + 1] == walk[t + 2]);
            assert(has_edge(edges, walk[t + 1], walk[t + 2]));
        }
        lemma_walk_is_related(relation, edges, rest, next, to);
        assert(relation.holds(from, next) && relation.holds(next, to));
    }
}

proof fn lemma_related_has_walk(relation: RelationMatrix, edges: Seq<HasseCoverEdge>, from: int, to: int)
    requires
        relation.wf(),
        relation.is_partial_order(),
        relation.is_cover_listing(edges),
        relation.is_element(from),
        relation.is_element(to),
        relation.holds(from, to),
    ensures
        exists|walk: Seq<int>| #[trigger] is_walk(edges, walk, from, to),
    decreases interval(relation, from, to).len(),
{
    relation.lemma_wf();
    let n = relation.spec_size() as int;
    vstd::set_lib::lemma_int_range(1, n + 1);
    if from == to {
        assert(is_walk(edges, seq![from], from, to));
    } else if relation.covers(from, to) {
        let i = choose|i: int| 0 <= i < edges.len() && edges[i].lower == from && edges[i].upper == to;
        let walk = seq![from, to];
        assert(has_edge(edges, walk[0], walk[1]));
        assert(is_walk(edges, walk, from, to));
    } else {
        let middle = choose|m: int|
            #![trigger relation.holds(from, m), relation.holds(m, to)]
            relation.is_element(m) && m != from && m != to && relation.holds(from, m) && relation.holds(m, to);
        let whole = interval(relation, from, to);
        assert(whole.subset_of(vstd::set_lib::set_int_range(1, n + 1)));
        vstd::set_lib::lemma_len_subset(whole, vstd::set_lib::set_int_range(1, n + 1));
        assert(relation.holds(to, to) && relation.holds(from, from));
        assert forall|m: int| #[trigger] interval(relation, from, middle).contains(m) implies whole.remove(to).contains(m) by {
            assert(relation.holds(from, m) && relation.holds(m, middle) && relation.holds(middle, to));
            if m == to {
                assert(relation.holds(to, middle) && relation.holds(middle, to));
            }
        }
        assert forall|m: int| #[trigger] interval(relation, middle, to).contains(m) implies whole.remove(from).contains(m) by {
            assert(relation.holds(from, middle) && relation.holds(middle, m) && relation.holds(m, to));
            if m == from {
                assert(relation.holds(from, middle) && relation.holds(middle, from));
            }
        }
        vstd::set_lib::lemma_len_subset(interval(relation, from, middle), whole.remove(to));
        vstd::set_lib::lemma_len_subset(interval(relation, middle, to), whole.remove(from));
        lemma_related_has_walk(relation, edges, from, middle);
        lemma_related_has_walk(relation, edges, middle, to);
        let first = choose|walk: Seq<int>| #[trigger] is_walk(edges, walk, from, middle);
        let second = choose|walk: Seq<int>| #[trigger] is_walk(edges, walk, middle, to);
        lemma_walks_join(edges, first, second, from, middle, to);
    }
}

/// Law: a partial order is the reflexive-transitive closure of its cover edges: two
/// elements are related exactly when a walk along cover edges (possibly of no step)
/// leads from the first to the second.
pub proof fn lemma_order_is_closure_of_covers(relation: RelationMatrix, edges: Seq<HasseCoverEdge>, from: int, to: int)
    requires
        relation.wf(),
        relation.is_partial_order(),
        relation.is_cover_listing(edges),
        relation.is_element(from),
        relation.is_element(to),
    ensures
        relation.holds(from, to) <==> exists|walk: Seq<int>| #[trigger] is_walk(edges, walk, from, to),
{
    if relation.holds(from, to) {
        lemma_related_has_walk(relation, edges, from, to);
    }
    if exists|walk: Seq<int>| #[trigger] is_walk(edges, walk, from, to) {
        let walk = choose|walk: Seq<int>| #[trigger] is_walk(edges, walk, from, to);
        lemma_walk_is_related(relation, edges, walk, from, to);
    }
}

/// In a list strictly ordered by `edge_precedes`, an entry precedes another exactly when
/// it stands earlier.
proof fn lemma_sorted_positions(edges: Seq<HasseCoverEdge>, a: int, b: int)
    requires
        forall|i: int, j: int| 0 <= i < j < edges.len() ==> edge_precedes(#[trigger] edges[i], #[trigger] edges[j]),
        0 <= a < edges.len(),
        0 <= b < edges.len(),
        edge_precedes(edges[a], edges[b]),
    ensures
        a < b,
{
    if b < a {
        assert(edge_precedes(edges[b], edges[a]));
    }
}

/// Law: a relation has exactly one cover listing, so the cover edges it yields are
/// determined by the relation.
pub proof fn lemma_cover_listing_is_determined(
    relation: RelationMatrix,
    first: Seq<HasseCoverEdge>,
    second: Seq<HasseCoverEdge>,
)
    requires
        relation.is_cover_listing(first),
        relation.is_cover_listing(second),
    ensures
        first == second,
{
    assert forall|i: int| 0 <= i < first.len() implies second.contains(#[trigger] first[i]) by {
        assert(relation.covers(first[i].lower as int, first[i].upper as int));
        let k = choose|k: int| 0 <= k < second.len() && second[k].lower == first[i].lower && second[k].upper == first[i].upper;
        assert(second[k] == first[i]);
    }
    assert forall|i: int| 0 <= i < second.len() implies first.contains(#[trigger] second[i]) by {
        assert(relation.covers(second[i].lower as int, second[i].upper as int));
        let k = choose|k: int| 0 <= k < first.len() && first[k].lower == second[i].lower && first[k].upper == second[i].upper;
        assert(first[k] == second[i]);
    }
    lemma_sorted_listings_agree(first, second, 0);
}

/// Two listings ordered strictly by `edge_precedes` that list the same edges agree at
/// `start` once they agree before it.
proof fn lemma_sorted_listings_step(first: Seq<HasseCoverEdge>, second: Seq<HasseCoverEdge>, start: int)
    requires
        forall|i: int, j: int| 0 <= i < j < first.len() ==> edge_precedes(#[trigger] first[i], #[trigger] first[j]),
        forall|i: int, j: int| 0 <= i < j < second.len() ==> edge_precedes(#[trigger] second[i], #[trigger] second[j]),
        second.contains(first[start]),
        first.contains(second[start]),
        0 <= start < first.len(),
        start < second.len(),
        forall|i: int| 0 <= i < start ==> #[trigger] first[i] == second[i],
    ensures
        first[start] == second[start],
{
    let k = choose|k: int| 0 <= k < second.len() && second[k] == first[start];
    let m = choose|m: int| 0 <= m < first.len() && first[m] == second[start];
    if k < start {
        assert(first[k] == second[k]);
        lemma_sorted_positions(first, k, start);
    }
    if m < start {
        assert(first[m] == second[m]);
        lemma_sorted_positions(second, m, start);
    }
    if k > start && m > start {
        assert(edge_precedes(second[start], second[k]));
        assert(edge_precedes(first[start], first[m]));
    }
}

/// A listing ordered strictly by `edge_precedes` cannot list an edge that a second such
/// listing with the same edges lacks past its end.
proof fn lemma_sorted_listings_agree(first: Seq<HasseCoverEdge>, second: Seq<HasseCoverEdge>, start: int)
    requires
        forall|i: int, j: int| 0 <= i < j < first.len() ==> edge_precedes(#[trigger] first[i], #[trigger] first[j]),
        forall|i: int, j: int| 0 <= i < j < second.len() ==> edge_precedes(#[trigger] second[i], #[trigger] second[j]),
        forall|i: int| 0 <= i < first.len() ==> second.contains(#[trigger] first[i]),
        forall|i: int| 0 <= i < second.len() ==> first.contains(#[trigger] second[i]),
        0 <= start <= first.len(),
        start <= second.len(),
        forall|i: int| 0 <= i < start ==> #[trigger] first[i] == second[i],
    ensures
        first == second,
    decreases first.len() + second.len() - 2 * start,
{
    if start < first.len() && start < second.len() {
        lemma_sorted_listings_step(first, second, start);
        lemma_sorted_listings_agree(first, second, start + 1);
    } else if start < first.len() {
        let k = choose|k: int| 0 <= k < second.len() && second[k] == first[start];
        assert(first[k] == second[k]);
        lemma_sorted_positions(first, k, start);
    } else if start < second.len() {
        let m = choose|m: int| 0 <= m < first.len() && first[m] == second[start];
        assert(first[m] == second[m]);
        lemma_sorted_positions(second, m, start);
    } else {
        assert(first =~= second);
    }
}

/// A binary relation on `1..=size`, stored row by row.
#[derive(Debug, Clone, PartialEq, Eq)]
pub struct RelationMatrix {
    size: usize,
    cells: Vec<bool>,
}

/// The position of cell `(row, column)` in the row-major storage of an `n x n` matrix.
pub open spec fn cell_index(n: int, row: int, column: int) -> int {
    (row - 1) * n + (column - 1)
}

/// The relation on `1..=n` that relates nothing.
pub open spec fn empty_relation(n: int) -> Map<(int, int), bool> {
    Map::new(|p: (int, int)| square(n).contains(p), |p: (int, int)| false)
}

/// The pairs `(row, column)` with both coordinates in `1..=n`.
pub open spec fn square(n: int) -> Set<(int, int)> {
    Set::new(|p: (int, int)| 1 <= p.0 <= n && 1 <= p.1 <= n)
}

proof fn lemma_cell_index_bounds(n: int, row: int, column: int)
    requires
        1 <= row <= n,
        1 <= column <= n,
    ensures
        0 <= cell_index(n, row, column) < n * n,
{
    assert(0 <= (row - 1) * n) by (nonlinear_arith)
        requires
            1 <= row,
            1 <= n,
    ;
    assert((row - 1) * n + n <= n * n) by (nonlinear_arith)
        requires
            row <= n,
            0 <= n,
    ;
}

proof fn lemma_cell_index_injective(n: int, r1: int, c1: int, r2: int, c2: int)
    requires
        1 <= r1 <= n,
        1 <= c1 <= n,
        1 <= r2 <= n,
        1 <= c2 <= n,
        cell_index(n, r1, c1) == cell_index(n, r2, c2),
    ensures
        r1 == r2,
        c1 == c2,
{
    if r1 < r2 {
        assert((r1 - 1) * n + n <= (r2 - 1) * n) by (nonlinear_arith)
            requires
                r1 < r2,
                1 <= n,
        ;
    } else if r2 < r1 {
        assert((r2 - 1) * n + n <= (r1 - 1) * n) by (nonlinear_arith)
            requires
                r2 < r1,
                1 <= n,
        ;
    }
}

impl View for RelationMatrix {
    type V = Map<(int, int), bool>;

    /// The relation as a map from each pair of `1..=n` to whether it is related.
    closed spec fn view(&self) -> Map<(int, int), bool> {
        Map::new(
            |p: (int, int)| 1 <= p.0 <= self.size && 1 <= p.1 <= self.size,
            |p: (int, int)| self.cells@[cell_index(self.size as int, p.0, p.1)],
        )
    }
}

impl RelationMatrix {
    /// The matrix is square with a supported size.
    pub closed spec fn wf(&self) -> bool {
        &&& MIN_RELATION_SIZE <= self.size <= MAX_RELATION_SIZE
        &&& self.cells@.len() == self.size * self.size
    }

    /// The `n` of the underlying set `1..=n`.
    pub closed spec fn spec_size(&self) -> nat {
        self.size as nat
    }

    /// Whether `row` is related to `column`.
    pub open spec fn holds(&self, row: int, column: int) -> bool {
        self@[(row, column)]
    }

    /// Whether `e` belongs to the underlying set `1..=n`.
    pub open spec fn is_element(&self, e: int) -> bool {
        1 <= e <= self.spec_size()
    }

    /// `e` is an element not related to itself.
    pub open spec fn is_reflexivity_witness(&self, e: int) -> bool {
        self.is_element(e) && !self.holds(e, e)
    }

    /// `left < right` are elements related in both directions.
    pub open spec fn is_antisymmetry_witness(&self, left: int, right: int) -> bool {
        &&& self.is_element(left)
        &&& self.is_element(right)
        &&& left < right
        &&& self.holds(left, right)
        &&& self.holds(right, left)
    }

    /// `source -> middle -> target` holds but `source -> target` does not.
    pub open spec fn is_transitivity_witness(&self, source: int, middle: int, target: int) -> bool {
        &&& self.is_element(source)
        &&& self.is_element(middle)
        &&& self.is_element(target)
        &&& self.holds(source, middle)
        &&& self.holds(middle, target)
        &&& !self.holds(source, target)
    }

    /// Every element is related to itself.
    pub open spec fn is_reflexive(&self) -> bool {
        forall|e: int| self.is_element(e) ==> #[trigger] self.holds(e, e)
    }

    /// Elements related in both directions are equal.
    pub open spec fn is_antisymmetric(&self) -> bool {
        forall|a: int, b: int|
            #![trigger self.holds(a, b), self.holds(b, a)]
            self.is_element(a) && self.is_element(b) && self.holds(a, b) && self.holds(b, a) ==> a == b
    }

    /// Related chains `a -> b -> c` always have the shortcut `a -> c`.
    pub open spec fn is_transitive(&self) -> bool {
        forall|a: int, b: int, c: int|
            #![trigger self.holds(a, b), self.holds(b, c)]
            self.is_element(a) && self.is_element(b) && self.is_element(c) && self.holds(a, b)
                && self.holds(b, c) ==> self.holds(a, c)
    }

    /// The relation is reflexive, antisymmetric and transitive.
    pub open spec fn is_partial_order(&self) -> bool {
        self.is_reflexive() && self.is_antisymmetric() && self.is_transitive()
    }

    /// `w` is the smallest reflexivity witness, or `None` when there is none.
    pub open spec fn first_reflexivity_witness(&self, w: Option<usize>) -> bool {
        match w {
            Some(e) => self.is_reflexivity_witness(e as int) && forall|e2: int|
                e2 < e ==> !#[trigger] self.is_reflexivity_witness(e2),
            None => forall|e2: int| !#[trigger] self.is_reflexivity_witness(e2),
        }
    }

    /// `w` is the lexicographically first antisymmetry witness, or `None` when there is none.
    pub open spec fn first_antisymmetry_witness(&self, w: Option<AntisymmetryWitness>) -> bool {
        match w {
            Some(x) => self.is_antisymmetry_witness(x.left as int, x.right as int) && forall|l: int, r: int|
                pair_precedes(l, r, x.left as int, x.right as int) ==> !#[trigger] self.is_antisymmetry_witness(l, r),
            None => forall|l: int, r: int| !#[trigger] self.is_antisymmetry_witness(l, r),
        }
    }

    /// `w` is the lexicographically first transitivity witness, or `None` when there is none.
    pub open spec fn first_transitivity_witness(&self, w: Option<TransitivityWitness>) -> bool {
        match w {
            Some(x) => self.is_transitivity_witness(x.source as int, x.middle as int, x.target as int)
                && forall|a: int, b: int, c: int|
                triple_precedes(a, b, c, x.source as int, x.middle as int, x.target as int)
                    ==> !#[trigger] self.is_transitivity_witness(a, b, c),
            None => forall|a: int, b: int, c: int| !#[trigger] self.is_transitivity_witness(a, b, c),
        }
    }

    /// `d` reports the first violation of each law of this relation.
    pub open spec fn diagnoses(&self, d: PartialOrderDiagnostics) -> bool {
        &&& self.first_reflexivity_witness(d.reflexivity_witness)
        &&& self.first_antisymmetry_witness(d.antisymmetry_witness)
        &&& self.first_transitivity_witness(d.transitivity_witness)
    }

    /// What checking the partial-order laws answers: success exactly for a partial order,
    /// otherwise the first violation of each law.
    pub open spec fn is_validation_outcome(&self, result: Result<(), PartialOrderDiagnostics>) -> bool {
        match result {
            Ok(()) => self.is_partial_order(),
            Err(diagnostics) => !self.is_partial_order() && self.diagnoses(diagnostics) && !diagnostics.spec_is_valid(),
        }
    }

    /// What asking for the cover edges answers: the cover listing of a partial order,
    /// otherwise the first violation of each law.
    pub open spec fn is_cover_edges_outcome(&self, result: Result<Seq<HasseCoverEdge>, PartialOrderDiagnostics>) -> bool {
        match result {
            Ok(edges) => self.is_partial_order() && self.is_cover_listing(edges),
            Err(diagnostics) => !self.is_partial_order() && self.diagnoses(diagnostics) && !diagnostics.spec_is_valid(),
        }
    }

    /// Some element lies strictly between `lower` and `upper`.
    pub open spec fn has_intermediate(&self, lower: int, upper: int) -> bool {
        exists|m: int|
            #![trigger self.holds(lower, m), self.holds(m, upper)]
            self.is_element(m) && m != lower && m != upper && self.holds(lower, m) && self.holds(m, upper)
    }

    /// `upper` covers `lower`: they are distinct, related, with nothing in between.
    pub open spec fn covers(&self, lower: int, upper: int) -> bool {
        &&& self.is_element(lower)
        &&& self.is_element(upper)
        &&& lower != upper
        &&& self.holds(lower, upper)
        &&& !self.has_intermediate(lower, upper)
    }

    /// `edges` lists every covering pair exactly once, in lexicographic order.
    pub open spec fn is_cover_listing(&self, edges: Seq<HasseCoverEdge>) -> bool {
        &&& forall|i: int| 0 <= i < edges.len() ==> #[trigger] self.covers(edges[i].lower as int, edges[i].upper as int)
        &&& forall|i: int, j: int| 0 <= i < j < edges.len() ==> edge_precedes(#[trigger] edges[i], #[trigger] edges[j])
        &&& forall|l: int, u: int| #[trigger] self.covers(l, u) ==> exists|i: int|
            0 <= i < edges.len() && edges[i].lower == l && edges[i].upper == u
    }

    /// A well-formed matrix has a supported size and relates exactly the pairs of `1..=n`.
    pub proof fn lemma_wf(&self)
        requires
            self.wf(),
        ensures
            MIN_RELATION_SIZE <= self.spec_size() <= MAX_RELATION_SIZE,
            self@.dom() == square(self.spec_size() as int),
    {
        assert(self@.dom() =~= square(self.spec_size() as int));
    }

    /// Creates the empty relation on `1..=size`.
    pub fn new(size: usize) -> (result: Result<Self, RelationMatrixError>)
        ensures
            match result {
                Ok(matrix) => {
                    &&& MIN_RELATION_SIZE <= size <= MAX_RELATION_SIZE
                    &&& matrix.wf()
                    &&& matrix.spec_size() == size
                    &&& matrix@ == empty_relation(size as int)
                },
                Err(error) => {
                    &&& !(MIN_RELATION_SIZE <= size <= MAX_RELATION_SIZE)
                    &&& error == RelationMatrixError::InvalidSize {
                        size,
                        min: MIN_RELATION_SIZE,
                        max: MAX_RELATION_SIZE,
                    }
                },
            },
    {
        Self::validate_size(size)?;
        assert(size * size <= 100) by (nonlinear_arith)
            requires
                size <= 10,
        ;
        let total: usize = size * size;
        let mut cells: Vec<bool> = Vec::new();
        let mut i: usize = 0;
        while i < total
            invariant
                i <= total,
                cells@.len() == i,
                forall|k: int| 0 <= k < i ==> !cells@[k],
            decreases total - i,
        {
            cells.push(false);
            i = i + 1;
        }
        let matrix = RelationMatrix { size, cells };
        assert(matrix@ =~= empty_relation(size as int)) by {
            assert forall|p: (int, int)| square(size as int).contains(p) implies !matrix.cells@[cell_index(size as int, p.0, p.1)] by {
                lemma_cell_index_bounds(size as int, p.0, p.1);
            }
        }
        Ok(matrix)
    }

    /// The `n` of the underlying set `1..=n`.
    pub fn size(&self) -> (n: usize)
        requires
            self.wf(),
        ensures
            n == self.spec_size(),
            MIN_RELATION_SIZE <= n <= MAX_RELATION_SIZE,
    {
        self.size
    }

    /// Reads the cell `(row, column)`; elements are numbered from 1.
    pub fn get(&self, row: usize, column: usize) -> (result: Result<bool, RelationMatrixError>)
        requires
            self.wf(),
        ensures
            result == self.lookup(row as int, column as int),
    {
        let index = self.index_of(row, column)?;
        Ok(self.cells[index])
    }

    /// What reading `(row, column)` gives: the first coordinate outside `1..=n` is
    /// reported, the row before the column.
    pub open spec fn lookup(&self, row: int, column: int) -> Result<bool, RelationMatrixError> {
        if !self.is_element(row) {
            Err(RelationMatrixError::ElementOutOfBounds { element: row as usize, size: self.spec_size() as usize })
        } else if !self.is_element(column) {
            Err(RelationMatrixError::ElementOutOfBounds { element: column as usize, size: self.spec_size() as usize })
        } else {
            Ok(self.holds(row, column))
        }
    }

    /// Writes the cell `(row, column)`; elements are numbered from 1.
    pub fn set(&mut self, row: usize, column: usize, value: bool) -> (result: Result<(), RelationMatrixError>)
        requires
            old(self).wf(),
        ensures
            final(self).wf(),
            final(self).spec_size() == old(self).spec_size(),
            match old(self).lookup(row as int, column as int) {
                Ok(_) => result == Ok::<(), RelationMatrixError>(()) && final(self)@ == old(self)@.insert((row as int, column as int), value),
                Err(error) => result == Err::<(), RelationMatrixError>(error) && final(self)@ == old(self)@,
            },
    {
        let index = self.index_of(row, column)?;
        self.cells.set(index, value);
        proof {
            let n = self.size as int;
            let key = (row as int, column as int);
            lemma_cell_index_bounds(n, row as int, column as int);
            assert(self@.dom() =~= old(self)@.insert(key, value).dom());
            assert forall|p: (int, int)| #[trigger] self@.dom().contains(p)
                implies self@[p] == old(self)@.insert(key, value)[p] by {
                lemma_cell_index_bounds(n, p.0, p.1);
                if p != key && cell_index(n, p.0, p.1) == cell_index(n, row as int, column as int) {
                    lemma_cell_index_injective(n, p.0, p.1, row as int, column as int);
                }
            }
            assert(self@ =~= old(self)@.insert(key, value));
        }
        Ok(())
    }

    fn index_of(&self, row: usize, column: usize) -> (result: Result<usize, RelationMatrixError>)
        requires
            self.wf(),
        ensures
            match result {
                Ok(index) => {
                    &&& self.lookup(row as int, column as int) is Ok
                    &&& index == cell_index(self.size as int, row as int, column as int)
                    &&& index < self.cells@.len()
                },
                Err(error) => self.lookup(row as int, column as int) == Err::<bool, RelationMatrixError>(error),
            },
    {
        self.validate_element(row)?;
        self.validate_element(column)?;
        proof {
            lemma_cell_index_bounds(self.size as int, row as int, column as int);
            assert(self.size * self.size <= 100) by (nonlinear_arith)
                requires
                    self.size <= 10,
            ;
            assert((row - 1) * self.size <= (row - 1) * self.size + (column - 1));
        }
        Ok((row - 1) * self.size + (column - 1))
    }

    fn validate_size(size: usize) -> (result: Result<(), RelationMatrixError>)
        ensures
            match result {
                Ok(()) => MIN_RELATION_SIZE <= size <= MAX_RELATION_SIZE,
                Err(error) => !(MIN_RELATION_SIZE <= size <= MAX_RELATION_SIZE) && error
                    == RelationMatrixError::InvalidSize {
                    size,
                    min: MIN_RELATION_SIZE,
                    max: MAX_RELATION_SIZE,
                },
            },
    {
        if MIN_RELATION_SIZE <= size && size <= MAX_RELATION_SIZE {
            Ok(())
        } else {
            Err(RelationMatrixError::InvalidSize { size, min: MIN_RELATION_SIZE, max: MAX_RELATION_SIZE })
        }
    }

    fn validate_element(&self, element: usize) -> (result: Result<(), RelationMatrixError>)
        requires
            self.wf(),
        ensures
            match result {
                Ok(()) => self.is_element(element as int),
                Err(error) => !self.is_element(element as int) && error
                    == RelationMatrixError::ElementOutOfBounds { element, size: self.size },
            },
    {
        if 1 <= element && element <= self.size {
            Ok(())
        } else {
            Err(RelationMatrixError::ElementOutOfBounds { element, size: self.size })
        }
    }
    fn get_unchecked(&self, row: usize, column: usize) -> (value: bool)
        requires
            self.wf(),
            self.is_element(row as int),
            self.is_element(column as int),
        ensures
            value == self.holds(row as int, column as int),
    {
        proof {
            lemma_cell_index_bounds(self.size as int, row as int, column as int);
            assert(self.size * self.size <= 100) by (nonlinear_arith)
                requires
                    self.size <= 10,
            ;
            assert(self@.dom().contains((row as int, column as int)));
        }
        self.cells[(row - 1) * self.size + (column - 1)]
    }

    fn find_reflexivity_witness(&self) -> (w: Option<usize>)
        requires
            self.wf(),
        ensures
            self.first_reflexivity_witness(w),
    {
        let mut element: usize = 1;
        while element <= self.size
            invariant
                self.wf(),
                1 <= element <= self.size + 1,
                forall|e: int| e < element ==> !#[trigger] self.is_reflexivity_witness(e),
            decreases self.size + 1 - element,
        {
            if !self.get_unchecked(element, element) {
                return Some(element);
            }
            element = element + 1;
        }
        None
    }

    fn find_antisymmetry_witness(&self) -> (w: Option<AntisymmetryWitness>)
        requires
            self.wf(),
        ensures
            self.first_antisymmetry_witness(w),
    {
        let mut left: usize = 1;
        while left <= self.size
            invariant
                self.wf(),
                1 <= left <= self.size + 1,
                forall|l: int, r: int| l < left ==> !#[trigger] self.is_antisymmetry_witness(l, r),
            decreases self.size + 1 - left,
        {
            let mut right: usize = left + 1;
            while right <= self.size
                invariant
                    self.wf(),
                    1 <= left <= self.size,
                    left + 1 <= right <= self.size + 1,
                    forall|l: int, r: int| l < left ==> !#[trigger] self.is_antisymmetry_witness(l, r),
                    forall|r: int| r < right ==> !#[trigger] self.is_antisymmetry_witness(left as int, r),
                decreases self.size + 1 - right,
            {
                if self.get_unchecked(left, right) && self.get_unchecked(right, left) {
                    return Some(AntisymmetryWitness { left, right });
                }
                right = right + 1;
            }
            left = left + 1;
        }
        None
    }

    fn find_transitivity_witness(&self) -> (w: Option<TransitivityWitness>)
        requires
            self.wf(),
        ensures
            self.first_transitivity_witness(w),
    {
        let mut source: usize = 1;
        while source <= self.size
            invariant
                self.wf(),
                1 <= source <= self.size + 1,
                forall|a: int, b: int, c: int| a < source ==> !#[trigger] self.is_transitivity_witness(a, b, c),
            decreases self.size + 1 - source,
        {
            let mut middle: usize = 1;
            while middle <= self.size
                invariant
                    self.wf(),
                    1 <= source <= self.size,
                    1 <= middle <= self.size + 1,
                    forall|a: int, b: int, c: int| a < source ==> !#[trigger] self.is_transitivity_witness(a, b, c),
                    forall|b: int, c: int| b < middle ==> !#[trigger] self.is_transitivity_witness(source as int, b, c),
                decreases self.size + 1 - middle,
            {
                if self.get_unchecked(source, middle) {
                    let mut target: usize = 1;
                    while target <= self.size
                        invariant
                            self.wf(),
                            1 <= source <= self.size,
                            1 <= middle <= self.size,
                            1 <= target <= self.size + 1,
                            self.holds(source as int, middle as int),
                            forall|a: int, b: int, c: int| a < source ==> !#[trigger] self.is_transitivity_witness(a, b, c),
                            forall|b: int, c: int| b < middle ==> !#[trigger] self.is_transitivity_witness(source as int, b, c),
                            forall|c: int| c < target ==> !#[trigger] self.is_transitivity_witness(source as int, middle as int, c),
                        decreases self.size + 1 - target,
                    {
                        if self.get_unchecked(middle, target) && !self.get_unchecked(source, target) {
                            return Some(TransitivityWitness { source, middle, target });
                        }
                        target = target + 1;
                    }
                }
                middle = middle + 1;
            }
            source = source + 1;
        }
        None
    }

    fn has_intermediate_between(&self, lower: usize, upper: usize) -> (found: bool)
        requires
            self.wf(),
            self.is_element(lower as int),
            self.is_element(upper as int),
        ensures
            found == self.has_intermediate(lower as int, upper as int),
    {
        let mut middle: usize = 1;
        while middle <= self.size
            invariant
                self.wf(),
                self.is_element(lower as int),
                self.is_element(upper as int),
                1 <= middle <= self.size + 1,
                forall|m: int|
                    #![trigger self.holds(lower as int, m), self.holds(m, upper as int)]
                    m < middle && self.is_element(m) && m != lower && m != upper ==> !(self.holds(lower as int, m)
                        && self.holds(m, upper as int)),
            decreases self.size + 1 - middle,
        {
            if middle != lower && middle != upper {
                if self.get_unchecked(lower, middle) && self.get_unchecked(middle, upper) {
                    return true;
                }
            }
            middle = middle + 1;
        }
        false
    }
    /// No reflexivity witness exists exactly when the relation is reflexive, and
    /// likewise for antisymmetry and transitivity.
    proof fn lemma_witnesses_decide_laws(&self)
        ensures
            self.is_reflexive() <==> forall|e: int| !#[trigger] self.is_reflexivity_witness(e),
            self.is_antisymmetric() <==> forall|l: int, r: int| !#[trigger] self.is_antisymmetry_witness(l, r),
            self.is_transitive() <==> forall|a: int, b: int, c: int| !#[trigger] self.is_transitivity_witness(a, b, c),
    {
        if forall|e: int| !#[trigger] self.is_reflexivity_witness(e) {
            assert forall|e: int| self.is_element(e) implies #[trigger] self.holds(e, e) by {
                assert(!self.is_reflexivity_witness(e));
            }
        }
        if forall|l: int, r: int| !#[trigger] self.is_antisymmetry_witness(l, r) {
            assert forall|a: int, b: int|
                #![trigger self.holds(a, b), self.holds(b, a)]
                self.is_element(a) && self.is_element(b) && self.holds(a, b) && self.holds(b, a) implies a == b by {
                if a < b {
                    assert(self.is_antisymmetry_witness(a, b));
                } else if b < a {
                    assert(self.is_antisymmetry_witness(b, a));
                }
            }
        }
        if self.is_transitive() {
            assert forall|a: int, b: int, c: int| !#[trigger] self.is_transitivity_witness(a, b, c) by {
                if self.is_transitivity_witness(a, b, c) {
                    assert(self.holds(a, b) && self.holds(b, c));
                }
            }
        }
        if forall|a: int, b: int, c: int| !#[trigger] self.is_transitivity_witness(a, b, c) {
            assert forall|a: int, b: int, c: int|
                #![trigger self.holds(a, b), self.holds(b, c)]
                self.is_element(a) && self.is_element(b) && self.is_element(c) && self.holds(a, b)
                    && self.holds(b, c) implies self.holds(a, c) by {
                assert(!self.is_transitivity_witness(a, b, c));
            }
        }
    }

    /// Checks the three partial-order laws and reports the first violation of each.
    pub fn validate_partial_order(&self) -> (result: Result<(), PartialOrderDiagnostics>)
        requires
            self.wf(),
        ensures
            self.is_validation_outcome(result),
    {
        let diagnostics = PartialOrderDiagnostics {
            reflexivity_witness: self.find_reflexivity_witness(),
            antisymmetry_witness: self.find_antisymmetry_witness(),
            transitivity_witness: self.find_transitivity_witness(),
        };
        proof {
            self.lemma_witnesses_decide_laws();
        }
        if diagnostics.is_valid() {
            Ok(())
        } else {
            Err(diagnostics)
        }
    }

    /// The covering pairs of a partial order, ordered by lower end and then by upper end.
    pub fn hasse_cover_edges(&self) -> (result: Result<Vec<HasseCoverEdge>, PartialOrderDiagnostics>)
        requires
            self.wf(),
        ensures
            match result {
                Ok(edges) => self.is_cover_edges_outcome(Ok(edges@)),
                Err(diagnostics) => self.is_cover_edges_outcome(Err(diagnostics)),
            },
    {
        match self.validate_partial_order() {
            Ok(()) => {},
            Err(diagnostics) => {
                return Err(diagnostics);
            },
        }
        let mut edges: Vec<HasseCoverEdge> = Vec::new();
        let mut lower: usize = 1;
        while lower <= self.size
            invariant
                self.wf(),
                self.is_partial_order(),
                1 <= lower <= self.size + 1,
                forall|i: int| 0 <= i < edges@.len() ==> #[trigger] self.covers(edges@[i].lower as int, edges@[i].upper as int),
                forall|i: int, j: int| 0 <= i < j < edges@.len() ==> edge_precedes(#[trigger] edges@[i], #[trigger] edges@[j]),
                forall|i: int| 0 <= i < edges@.len() ==> #[trigger] edges@[i].lower < lower,
                forall|l: int, u: int| #[trigger] self.covers(l, u) && l < lower ==> exists|i: int|
                    0 <= i < edges@.len() && edges@[i].lower == l && edges@[i].upper == u,
            decreases self.size + 1 - lower,
        {
            let mut upper: usize = 1;
            while upper <= self.size
                invariant
                    self.wf(),
                    self.is_partial_order(),
                    1 <= lower <= self.size,
                    1 <= upper <= self.size + 1,
                    forall|i: int| 0 <= i < edges@.len() ==> #[trigger] self.covers(edges@[i].lower as int, edges@[i].upper as int),
                    forall|i: int, j: int| 0 <= i < j < edges@.len() ==> edge_precedes(#[trigger] edges@[i], #[trigger] edges@[j]),
                    forall|i: int| 0 <= i < edges@.len() ==> pair_precedes(#[trigger] edges@[i].lower as int, edges@[i].upper as int, lower as int, upper as int),
                    forall|l: int, u: int| #[trigger] self.covers(l, u) && pair_precedes(l, u, lower as int, upper as int) ==> exists|i: int|
                        0 <= i < edges@.len() && edges@[i].lower == l && edges@[i].upper == u,
                decreases self.size + 1 - upper,
            {
                if lower != upper && self.get_unchecked(lower, upper) {
                    if !self.has_intermediate_between(lower, upper) {
                        let ghost before = edges@;
                        edges.push(HasseCoverEdge { lower, upper });
                        assert(edges@[before.len() as int].lower == lower && edges@[before.len() as int].upper == upper);
                        assert forall|l: int, u: int| #[trigger] self.covers(l, u) && pair_precedes(l, u, lower as int, upper as int + 1)
                            implies exists|i: int| 0 <= i < edges@.len() && edges@[i].lower == l && edges@[i].upper == u by {
                            if pair_precedes(l, u, lower as int, upper as int) {
                                let i = choose|i: int| 0 <= i < before.len() && before[i].lower == l && before[i].upper == u;
                                assert(edges@[i] == before[i]);
                            } else {
                                assert(edges@[before.len() as int].lower == l);
                            }
                        }
                    }
                }
                upper = upper + 1;
            }
            lower = lower + 1;
        }
        Ok(edges)
    }
}

} // verus!
