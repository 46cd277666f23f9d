use vstd::prelude::*;
use vstd::string::StringExecFns;

use crate::hasse_layout::HasseLayout;
use crate::relation_matrix::HasseCoverEdge;
use vstd::seq_lib::lemma_concat_associative;

verus! {

/// The edges written as pairs and separated by commas.
pub open spec fn edge_list_text(edges: Seq<HasseCoverEdge>) -> Seq<char>
    decreases edges.len(),
{
    if edges.len() == 0 {
        Seq::empty()
    } else if edges.len() == 1 {
        edges[0].text()
    } else {
        edge_list_text(edges.drop_last()) + ", "@ + edges.last().text()
    }
}

/// `text` holds `first`, then `, `, then `second`.
pub open spec fn follows_in(text: Seq<char>, first: Seq<char>, second: Seq<char>) -> bool {
    exists|before: Seq<char>, after: Seq<char>|
        #![trigger before + first + ", "@ + second + after]
        text == before + first + ", "@ + second + after
}

/// Law: the listing of a non-empty sequence of edges starts with the text of the first
/// edge, ends with the text of the last one, and writes each edge directly before the
/// next one, separated by `, `.
pub proof fn lemma_edge_list_text_in_order(edges: Seq<HasseCoverEdge>)
    requires
        edges.len() >= 1,
    ensures
        exists|rest: Seq<char>| #[trigger] (edges[0].text() + rest) == edge_list_text(edges),
        exists|before: Seq<char>| #[trigger] (before + edges.last().text()) == edge_list_text(edges),
        forall|i: int|
            0 <= i < edges.len() - 1 ==> follows_in(edge_list_text(edges), #[trigger] edges[i].text(), edges[i + 1].text()),
    decreases edges.len(),
{
    let text = edge_list_text(edges);
    if edges.len() == 1 {
        lemma_add_empty(text);
        assert(Seq::<char>::empty() + edges.last().text() =~= text);
    } else {
        let init = edges.drop_last();
        lemma_edge_list_text_in_order(init);
        let head = edge_list_text(init);
        let last = edges.last().text();
        assert(text == head + ", "@ + last);
        let rest = choose|rest: Seq<char>| #[trigger] (init[0].text() + rest) == head;
        assert(init[0] == edges[0]);
        lemma_concat_associative(edges[0].text(), rest + ", "@, last);
        lemma_concat_associative(edges[0].text(), rest, ", "@);
        assert(edges[0].text() + (rest + ", "@ + last) == text);
        assert((head + ", "@) + last == text);
        assert forall|i: int| 0 <= i < edges.len() - 1 implies follows_in(text, #[trigger] edges[i].text(), edges[i + 1].text()) by {
            if i < edges.len() - 2 {
                assert(init[i] == edges[i] && init[i + 1] == edges[i + 1]);
                assert(follows_in(head, init[i].text(), init[i + 1].text()));
                let (before, after) = choose|before: Seq<char>, after: Seq<char>|
                    #[trigger] (before + init[i].text() + ", "@ + init[i + 1].text() + after) == head;
                let x = before + edges[i].text() + ", "@ + edges[i + 1].text();
                lemma_concat_associative(x, after + ", "@, last);
                lemma_concat_associative(x, after, ", "@);
                assert(x + (after + ", "@ + last) == text);
            } else {
                assert(init.last() == edges[i]);
                let before = choose|before: Seq<char>| #[trigger] (before + init.last().text()) == head;
                lemma_add_empty(text);
                assert(before + edges[i].text() + ", "@ + edges[i + 1].text() + Seq::<char>::empty() == text);
            }
        }
    }
}

proof fn lemma_add_empty(s: Seq<char>)
    ensures
        s + Seq::<char>::empty() == s,
{
    assert(s + Seq::<char>::empty() =~= s);
}

/// The listing of non-empty edges between `prefix` and `suffix` keeps the order that
/// `lemma_edge_list_text_in_order` states.
pub proof fn lemma_framed_edge_list(prefix: Seq<char>, edges: Seq<HasseCoverEdge>, suffix: Seq<char>)
    requires
        edges.len() >= 1,
    ensures
        exists|rest: Seq<char>|
            #[trigger] (prefix + edges[0].text() + rest) == prefix + edge_list_text(edges) + suffix,
        exists|before: Seq<char>|
            #[trigger] (before + edges.last().text() + suffix) == prefix + edge_list_text(edges) + suffix,
        forall|i: int|
            0 <= i < edges.len() - 1 ==> follows_in(
                prefix + edge_list_text(edges) + suffix,
                #[trigger] edges[i].text(),
                edges[i + 1].text(),
            ),
{
    lemma_edge_list_text_in_order(edges);
    let list = edge_list_text(edges);
    let framed = prefix + list + suffix;
    let rest = choose|rest: Seq<char>| #[trigger] (edges[0].text() + rest) == list;
    lemma_concat_associative(prefix, edges[0].text(), rest);
    lemma_concat_associative(prefix + edges[0].text(), rest, suffix);
    assert(prefix + edges[0].text() + (rest + suffix) == framed);
    let before = choose|before: Seq<char>| #[trigger] (before + edges.last().text()) == list;
    lemma_concat_associative(prefix, before, edges.last().text());
    assert((prefix + before) + edges.last().text() + suffix == framed);
    assert forall|i: int| 0 <= i < edges.len() - 1 implies follows_in(framed, #[trigger] edges[i].text(), edges[i + 1].text()) by {
        assert(follows_in(list, edges[i].text(), edges[i + 1].text()));
        let (b, a) = choose|b: Seq<char>, a: Seq<char>|
            #[trigger] (b + edges[i].text() + ", "@ + edges[i + 1].text() + a) == list;
        lemma_shift_frame(prefix, b, edges[i].text(), edges[i + 1].text(), a, suffix);
    }
}

proof fn lemma_shift_frame(
    prefix: Seq<char>,
    b: Seq<char>,
    first: Seq<char>,
    second: Seq<char>,
    a: Seq<char>,
    suffix: Seq<char>,
)
    ensures
        (prefix + b) + first + ", "@ + second + (a + suffix) == prefix + (b + first + ", "@ + second + a) + suffix,
{
    let x = b + first + ", "@ + second;
    lemma_concat_associative(prefix, b + first + ", "@, second);
    lemma_concat_associative(prefix, b + first, ", "@);
    lemma_concat_associative(prefix, b, first);
    lemma_concat_associative(prefix + x, a, suffix);
    lemma_concat_associative(prefix, x, a);
}

/// A diagram ready to be drawn: the cover edges and the layout of their labels.
#[derive(Debug, Clone)]
pub struct RenderedDiagram {
    pub cover_edges: Vec<HasseCoverEdge>,
    pub layout: HasseLayout,
}

impl RenderedDiagram {
    /// The cover edges as a comma-separated list, or the word for "none".
    pub open spec fn cover_edges_text(&self) -> Seq<char> {
        if self.cover_edges@.len() == 0 {
            "нет"@
        } else {
            edge_list_text(self.cover_edges@)
        }
    }

    /// Law: the listing text is `нет` for no edge; otherwise it starts with the first cover
    /// edge, ends with the last one and writes each edge directly before the next.
    pub proof fn lemma_cover_edges_text_in_order(&self)
        ensures
            self.cover_edges@.len() == 0 ==> self.cover_edges_text() == "нет"@,
            self.cover_edges@.len() > 0 ==> exists|rest: Seq<char>|
                #[trigger] (self.cover_edges@[0].text() + rest) == self.cover_edges_text(),
            self.cover_edges@.len() > 0 ==> exists|before: Seq<char>|
                #[trigger] (before + self.cover_edges@.last().text()) == self.cover_edges_text(),
            forall|i: int|
                0 <= i < self.cover_edges@.len() - 1 ==> follows_in(
                    self.cover_edges_text(),
                    #[trigger] self.cover_edges@[i].text(),
                    self.cover_edges@[i + 1].text(),
                ),
    {
        if self.cover_edges@.len() > 0 {
            lemma_edge_list_text_in_order(self.cover_edges@);
        }
    }

    /// The cover edges as a comma-separated list, or the word for "none".
    pub fn formatted_cover_edges(&self) -> (text: String)
        ensures
            text@ == self.cover_edges_text(),
    {
        if self.cover_edges.len() == 0 {
            return "нет".to_owned();
        }
        let mut text = self.cover_edges[0].to_text();
        let mut i: usize = 1;
        assert(self.cover_edges@.take(1).drop_last() =~= Seq::<HasseCoverEdge>::empty());
        while i < self.cover_edges.len()
            invariant
                1 <= i <= self.cover_edges@.len(),
                text@ == edge_list_text(self.cover_edges@.take(i as int)),
            decreases self.cover_edges@.len() - i,
        {
            text.append(", ");
            let item = self.cover_edges[i].to_text();
            text.append(item.as_str());
            assert(self.cover_edges@.take(i + 1).drop_last() =~= self.cover_edges@.take(i as int));
            i = i + 1;
        }
        assert(self.cover_edges@.take(i as int) =~= self.cover_edges@);
        text
    }
}

} // verus!
