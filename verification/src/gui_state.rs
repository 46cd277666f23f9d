use vstd::prelude::*;
use vstd::string::StringExecFns;

use crate::hasse_layout::{lemma_cover_edges_can_be_laid_out, HasseLayout};
use crate::relation_matrix::{
    empty_relation, lemma_report_ok_lines, PartialOrderDiagnostics, RelationMatrix, MAX_RELATION_SIZE,
    MIN_RELATION_SIZE,
};
use crate::rendered_diagram::{edge_list_text, follows_in, lemma_framed_edge_list, RenderedDiagram};
use crate::text::{decimal, is_digit, lemma_reports_decimal, push_decimal, reports_count};

verus! {

/// Where the editor stands with respect to the diagram.
#[derive(Debug, Clone)]
pub enum BuildState {
    /// Nothing has been built yet.
    Idle,
    /// The relation changed since the last build.
    Dirty,
    /// The relation is not a partial order.
    Invalid(PartialOrderDiagnostics),
    /// The diagram of the current relation.
    Valid(RenderedDiagram),
}

/// The status after a diagram of `n` labels with `edges` cover edges on `levels` levels was built.
pub open spec fn built_status(n: nat, edges: nat, levels: nat) -> Seq<char> {
    "Отношение корректно. Построена диаграмма Хассе для n = "@ + decimal(n) + "."@ + " Узлов: "@ + decimal(n)
        + ", рёбер покрытия: "@ + decimal(edges) + ", уровней: "@ + decimal(levels) + "."@
}

/// Law: the status after a build reports, in this order, the number of labels after
/// `n = ` and after `Узлов: `, the number of cover edges after `рёбер покрытия: ` and the
/// number of levels after `уровней: `.
pub proof fn lemma_built_status_reports_sizes(n: nat, edges: nat, levels: nat)
    ensures
        reports_count(built_status(n, edges, levels), "n = "@, n as int),
        reports_count(built_status(n, edges, levels), " Узлов: "@, n as int),
        reports_count(built_status(n, edges, levels), ", рёбер покрытия: "@, edges as int),
        reports_count(built_status(n, edges, levels), ", уровней: "@, levels as int),
{
    reveal_strlit("Отношение корректно. Построена диаграмма Хассе для n = ");
    reveal_strlit("Отношение корректно. Построена диаграмма Хассе для ");
    reveal_strlit("n = ");
    reveal_strlit(".");
    reveal_strlit(" Узлов: ");
    reveal_strlit(", рёбер покрытия: ");
    reveal_strlit(", уровней: ");
    let text = built_status(n, edges, levels);
    let second_head = "Отношение корректно. Построена диаграмма Хассе для n = "@ + decimal(n) + "."@;
    let third_head = second_head + " Узлов: "@ + decimal(n);
    let fourth_head = third_head + ", рёбер покрытия: "@ + decimal(edges);
    assert(reports_count(text, "n = "@, n as int)) by {
        let head = "Отношение корректно. Построена диаграмма Хассе для "@;
        let rest = "."@ + " Узлов: "@ + decimal(n) + ", рёбер покрытия: "@ + decimal(edges) + ", уровней: "@
            + decimal(levels) + "."@;
        assert(!is_digit(rest[0]));
        assert(text =~= head + "n = "@ + decimal(n) + rest);
        lemma_reports_decimal(head, "n = "@, n, rest);
    }
    assert(reports_count(text, " Узлов: "@, n as int)) by {
        let rest = ", рёбер покрытия: "@ + decimal(edges) + ", уровней: "@ + decimal(levels) + "."@;
        assert(!is_digit(rest[0]));
        assert(text =~= second_head + " Узлов: "@ + decimal(n) + rest);
        lemma_reports_decimal(second_head, " Узлов: "@, n, rest);
    }
    assert(reports_count(text, ", рёбер покрытия: "@, edges as int)) by {
        let rest = ", уровней: "@ + decimal(levels) + "."@;
        assert(!is_digit(rest[0]));
        assert(text =~= third_head + ", рёбер покрытия: "@ + decimal(edges) + rest);
        lemma_reports_decimal(third_head, ", рёбер покрытия: "@, edges, rest);
    }
    assert(reports_count(text, ", уровней: "@, levels as int)) by {
        assert(!is_digit(("."@)[0]));
        assert(text =~= fourth_head + ", уровней: "@ + decimal(levels) + "."@);
        lemma_reports_decimal(fourth_head, ", уровней: "@, levels, "."@);
    }
}

/// The editor behind the window: the relation being edited, a status line and the build.
#[derive(Debug, Clone)]
pub struct HasseGuiState {
    relation_matrix: RelationMatrix,
    status_message: String,
    build_state: BuildState,
}

impl HasseGuiState {
    /// The relation being edited.
    pub closed spec fn relation(&self) -> RelationMatrix {
        self.relation_matrix
    }

    /// The status line.
    pub closed spec fn status(&self) -> Seq<char> {
        self.status_message@
    }

    /// Where the build stands.
    pub closed spec fn build(&self) -> BuildState {
        self.build_state
    }

    /// The relation being edited is well formed.
    pub open spec fn wf(&self) -> bool {
        self.relation().wf()
    }

    /// The editor on the empty relation on `1..=1`, with nothing built yet.
    pub fn new(initial_status_message: &str) -> (state: Self)
        ensures
            state.wf(),
            state.relation().spec_size() == MIN_RELATION_SIZE,
            state.relation()@ == empty_relation(MIN_RELATION_SIZE as int),
            state.status() == initial_status_message@,
            state.build() is Idle,
    {
        Self {
            relation_matrix: RelationMatrix::new(MIN_RELATION_SIZE).expect(
                "minimum supported size must create the initial matrix",
            ),
            status_message: initial_status_message.to_owned(),
            build_state: BuildState::Idle,
        }
    }

    /// The `n` of the relation on `1..=n` being edited.
    pub fn size(&self) -> (n: usize)
        requires
            self.wf(),
        ensures
            n == self.relation().spec_size(),
    {
        self.relation_matrix.size()
    }

    /// Whether `row` is related to `column`.
    pub fn cell(&self, row: usize, column: usize) -> (value: bool)
        requires
            self.wf(),
            self.relation().is_element(row as int),
            self.relation().is_element(column as int),
        ensures
            value == self.relation().holds(row as int, column as int),
    {
        self.relation_matrix.get(row, column).expect("matrix access from the UI must stay within 1-based bounds")
    }

    /// Sets whether `row` is related to `column`, which drops the diagram built so far.
    pub fn set_cell(&mut self, row: usize, column: usize, value: bool)
        requires
            old(self).wf(),
            old(self).relation().is_element(row as int),
            old(self).relation().is_element(column as int),
        ensures
            final(self).wf(),
            final(self).relation().spec_size() == old(self).relation().spec_size(),
            final(self).relation()@ == old(self).relation()@.insert((row as int, column as int), value),
            final(self).status() == "Матрица изменена. Нажмите кнопку проверки, чтобы обновить диаграмму."@,
            final(self).build() is Dirty,
    {
        self.relation_matrix.set(row, column, value).expect(
            "matrix writes from the UI must stay within 1-based bounds",
        );
        self.invalidate_build("Матрица изменена. Нажмите кнопку проверки, чтобы обновить диаграмму.");
    }

    /// Starts over with the empty relation on `1..=size`, which drops the diagram built so far.
    pub fn resize(&mut self, size: usize)
        requires
            MIN_RELATION_SIZE <= size <= MAX_RELATION_SIZE,
        ensures
            final(self).wf(),
            final(self).relation().spec_size() == size,
            final(self).relation()@ == empty_relation(size as int),
            final(self).status() == "Размер матрицы изменён. Заполните значения и запустите проверку."@,
            final(self).build() is Dirty,
    {
        self.relation_matrix = RelationMatrix::new(size).expect(
            "size slider only allows values from the supported range",
        );
        self.invalidate_build("Размер матрицы изменён. Заполните значения и запустите проверку.");
    }

    /// Checks the relation and, for a partial order, builds its diagram; otherwise keeps
    /// the first violation of each law.
    pub fn build_diagram(&mut self)
        requires
            old(self).wf(),
        ensures
            final(self).wf(),
            final(self).relation() == old(self).relation(),
            old(self).relation().is_partial_order() ==> match final(self).build() {
                BuildState::Valid(diagram) => {
                    &&& old(self).relation().is_cover_listing(diagram.cover_edges@)
                    &&& diagram.layout.lays_out(old(self).relation().spec_size() as int, diagram.cover_edges@)
                    &&& final(self).status() == built_status(
                        old(self).relation().spec_size(),
                        diagram.cover_edges@.len(),
                        diagram.layout.width_seq().len(),
                    )
                    &&& reports_count(final(self).status(), " Узлов: "@, old(self).relation().spec_size() as int)
                    &&& reports_count(final(self).status(), ", рёбер покрытия: "@, diagram.cover_edges@.len() as int)
                    &&& reports_count(final(self).status(), ", уровней: "@, diagram.layout.width_seq().len() as int)
                },
                _ => false,
            },
            !old(self).relation().is_partial_order() ==> match final(self).build() {
                BuildState::Invalid(diagnostics) => {
                    &&& old(self).relation().diagnoses(diagnostics)
                    &&& final(self).status() == "Отношение не является частичным порядком. Диаграмма не построена."@
                },
                _ => false,
            },
    {
        match self.relation_matrix.validate_partial_order() {
            Ok(()) => self.build_valid_diagram(),
            Err(diagnostics) => {
                self.status_message = "Отношение не является частичным порядком. Диаграмма не построена.".to_owned();
                self.build_state = BuildState::Invalid(diagnostics);
            },
        }
    }

    /// Where the build stands.
    pub fn build_state(&self) -> (state: &BuildState)
        ensures
            *state == self.build(),
    {
        &self.build_state
    }

    /// The status line.
    pub fn status_message(&self) -> (message: &str)
        ensures
            message@ == self.status(),
    {
        self.status_message.as_str()
    }

    /// The diagram, when the last build succeeded and nothing changed since.
    pub fn rendered_diagram(&self) -> (diagram: Option<&RenderedDiagram>)
        ensures
            match self.build() {
                BuildState::Valid(built) => diagram == Some(&built),
                _ => diagram is None,
            },
    {
        match &self.build_state {
            BuildState::Valid(diagram) => Some(diagram),
            _ => None,
        }
    }

    /// The lines that report the outcome of the last build.
    pub open spec fn result_lines(&self) -> Seq<Seq<char>> {
        match self.build() {
            BuildState::Idle => seq!["- Диаграмма ещё не строилась."@],
            BuildState::Dirty => seq!["- Текущая диаграмма сброшена: матрица изменилась."@],
            BuildState::Invalid(diagnostics) => diagnostics.report_lines(),
            BuildState::Valid(diagram) => seq![
                "- Проверка частичного порядка пройдена."@,
                "- Рёбра покрытия: "@ + diagram.cover_edges_text() + "."@,
                "- Уровней layout: "@ + decimal(diagram.layout.width_seq().len()) + "."@,
            ],
        }
    }

    /// The lines that report the outcome of the last build.
    pub fn result_messages(&self) -> (messages: Vec<String>)
        ensures
            messages@.map_values(|line: String| line@) == self.result_lines(),
    {
        let mut messages: Vec<String> = Vec::new();
        match &self.build_state {
            BuildState::Idle => {
                messages.push("- Диаграмма ещё не строилась.".to_owned());
            },
            BuildState::Dirty => {
                messages.push("- Текущая диаграмма сброшена: матрица изменилась.".to_owned());
            },
            BuildState::Invalid(diagnostics) => {
                messages = diagnostics.report_messages();
            },
            BuildState::Valid(diagram) => {
                messages.push("- Проверка частичного порядка пройдена.".to_owned());
                let mut edges_line = "- Рёбра покрытия: ".to_owned();
                let edges_text = diagram.formatted_cover_edges();
                edges_line.append(edges_text.as_str());
                edges_line.append(".");
                messages.push(edges_line);
                let mut levels_line = "- Уровней layout: ".to_owned();
                push_decimal(&mut levels_line, diagram.layout.level_count());
                levels_line.append(".");
                messages.push(levels_line);
            },
        }
        assert(messages@.map_values(|line: String| line@) =~= self.result_lines());
        messages
    }

    /// Law: after a build of a diagram, the third result line reports the number of levels
    /// of the layout, which is one more than the highest level of any label.
    pub proof fn lemma_result_reports_level_count(&self)
        requires
            match self.build() {
                BuildState::Valid(diagram) => diagram.layout.lays_out(
                    self.relation().spec_size() as int,
                    diagram.cover_edges@,
                ),
                _ => false,
            },
        ensures
            match self.build() {
                BuildState::Valid(diagram) => {
                    let nodes = diagram.layout.node_seq();
                    let count = diagram.layout.width_seq().len() as int;
                    &&& self.result_lines().len() == 3
                    &&& reports_count(self.result_lines()[2], "- Уровней layout: "@, count)
                    &&& forall|i: int| 0 <= i < nodes.len() ==> #[trigger] nodes[i].level < count
                    &&& exists|i: int| 0 <= i < nodes.len() && #[trigger] nodes[i].level + 1 == count
                },
                _ => false,
            },
    {
        reveal_strlit(".");
        match self.build() {
            BuildState::Valid(diagram) => {
                let count = diagram.layout.width_seq().len();
                assert(!is_digit(("."@)[0]));
                assert(self.result_lines()[2] =~= Seq::<char>::empty() + "- Уровней layout: "@ + decimal(count) + "."@);
                lemma_reports_decimal(Seq::<char>::empty(), "- Уровней layout: "@, count, "."@);
            },
            _ => {},
        }
    }

    /// Law: after a build of a diagram, the second result line lists the cover edges in
    /// the order of the listing: it starts with the first edge, ends with the last one, and
    /// writes each edge directly before the next; with no edge it says `нет`.
    pub proof fn lemma_result_lists_cover_edges(&self)
        requires
            self.build() is Valid,
        ensures
            match self.build() {
                BuildState::Valid(diagram) => {
                    let edges = diagram.cover_edges@;
                    let line = self.result_lines()[1];
                    &&& self.result_lines().len() == 3
                    &&& edges.len() == 0 ==> line == "- Рёбра покрытия: нет."@
                    &&& edges.len() > 0 ==> exists|rest: Seq<char>|
                        #[trigger] ("- Рёбра покрытия: "@ + edges[0].text() + rest) == line
                    &&& edges.len() > 0 ==> exists|before: Seq<char>|
                        #[trigger] (before + edges.last().text() + "."@) == line
                    &&& forall|i: int|
                        0 <= i < edges.len() - 1 ==> follows_in(line, #[trigger] edges[i].text(), edges[i + 1].text())
                },
                _ => false,
            },
    {
        match self.build() {
            BuildState::Valid(diagram) => {
                let edges = diagram.cover_edges@;
                let line = self.result_lines()[1];
                let label = "- Рёбра покрытия: "@;
                if edges.len() == 0 {
                    reveal_strlit("- Рёбра покрытия: ");
                    reveal_strlit("нет");
                    reveal_strlit(".");
                    reveal_strlit("- Рёбра покрытия: нет.");
                    assert(line =~= "- Рёбра покрытия: нет."@);
                } else {
                    assert(line == label + edge_list_text(edges) + "."@);
                    lemma_framed_edge_list(label, edges, "."@);
                }
            },
            _ => {},
        }
    }

    /// Law: when the relation was found not to be a partial order, the result panel shows the
    /// heading and then one line per law, which reads "OK" exactly when that law has no
    /// witness.
    pub proof fn lemma_result_reports_violations(&self)
        requires
            self.build() is Invalid,
        ensures
            match self.build() {
                BuildState::Invalid(diagnostics) => {
                    let lines = self.result_lines();
                    &&& lines.len() == 4
                    &&& lines[0] == "- Нарушены условия частичного порядка:"@
                    &&& (lines[1] == "  • Рефлексивность: OK."@) <==> diagnostics.reflexivity_witness is None
                    &&& (lines[2] == "  • Антисимметричность: OK."@) <==> diagnostics.antisymmetry_witness is None
                    &&& (lines[3] == "  • Транзитивность: OK."@) <==> diagnostics.transitivity_witness is None
                },
                _ => false,
            },
    {
        match self.build() {
            BuildState::Invalid(diagnostics) => {
                lemma_report_ok_lines(diagnostics);
            },
            _ => {},
        }
    }

    fn build_valid_diagram(&mut self)
        requires
            old(self).wf(),
            old(self).relation().is_partial_order(),
        ensures
            final(self).wf(),
            final(self).relation() == old(self).relation(),
            match final(self).build() {
                BuildState::Valid(diagram) => {
                    &&& old(self).relation().is_cover_listing(diagram.cover_edges@)
                    &&& diagram.layout.lays_out(old(self).relation().spec_size() as int, diagram.cover_edges@)
                    &&& final(self).status() == built_status(
                        old(self).relation().spec_size(),
                        diagram.cover_edges@.len(),
                        diagram.layout.width_seq().len(),
                    )
                    &&& reports_count(final(self).status(), " Узлов: "@, old(self).relation().spec_size() as int)
                    &&& reports_count(final(self).status(), ", рёбер покрытия: "@, diagram.cover_edges@.len() as int)
                    &&& reports_count(final(self).status(), ", уровней: "@, diagram.layout.width_seq().len() as int)
                },
                _ => false,
            },
    {
        let cover_edges = self.relation_matrix.hasse_cover_edges().expect(
            "validated partial order must produce cover edges",
        );
        let size = self.relation_matrix.size();
        proof {
            lemma_cover_edges_can_be_laid_out(self.relation_matrix, cover_edges@);
        }
        match HasseLayout::new(size, cover_edges.as_slice()) {
            Ok(layout) => {
                let edge_count = cover_edges.len();
                let level_count = layout.level_count();
                let mut status = "Отношение корректно. Построена диаграмма Хассе для n = ".to_owned();
                push_decimal(&mut status, size);
                status.append(".");
                self.status_message = status;
                self.build_state = BuildState::Valid(RenderedDiagram { cover_edges, layout });

                let mut summary = " Узлов: ".to_owned();
                push_decimal(&mut summary, size);
                summary.append(", рёбер покрытия: ");
                push_decimal(&mut summary, edge_count);
                summary.append(", уровней: ");
                push_decimal(&mut summary, level_count);
                summary.append(".");
                self.status_message.append(summary.as_str());
                assert(self.status() =~= built_status(size as nat, edge_count as nat, level_count as nat));
                proof {
                    lemma_built_status_reports_sizes(size as nat, edge_count as nat, level_count as nat);
                }
            },
            Err(error) => {
                let mut status = "Layout не построен: ".to_owned();
                error.write_debug(&mut status);
                status.append(". Проверьте матрицу и повторите попытку.");
                self.status_message = status;
                self.build_state = BuildState::Dirty;
            },
        }
    }

    fn invalidate_build(&mut self, status_message: &str)
        ensures
            final(self).relation() == old(self).relation(),
            final(self).status() == status_message@,
            final(self).build() is Dirty,
    {
        self.status_message = status_message.to_owned();
        self.build_state = BuildState::Dirty;
    }
}

} // verus!
