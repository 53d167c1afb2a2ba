//! Graphs as text: Mermaid, PlantUML, and the units of retrieval.

use vstd::prelude::*;

use crate::graph::model::{EdgeM, Graph, GraphM, GraphNode, GraphNodeM, NodeKind};
use crate::llm::unit::{TextUnit, TextUnitM};
use crate::text::{cat, cat3};

verus! {

broadcast use vstd::std_specs::vec::group_vec_axioms;

/// The brackets that Mermaid draws a kind of node with.
pub open spec fn shape_of(kind: NodeKind) -> (Seq<char>, Seq<char>) {
    match kind {
        NodeKind::Start => ("(["@, "])"@),
        NodeKind::End => ("(["@, "])"@),
        NodeKind::Decision => ("{"@, "}"@),
        _ => ("["@, "]"@),
    }
}

/// The brackets that Mermaid draws a kind of node with.
pub fn mermaid_shape(kind: &NodeKind) -> (r: (&'static str, &'static str))
    ensures
        (r.0@, r.1@) == shape_of(*kind),
{
    match kind {
        NodeKind::Start => ("([", "])"),
        NodeKind::End => ("([", "])"),
        NodeKind::Decision => ("{", "}"),
        _ => ("[", "]"),
    }
}

/// The Mermaid line of a node.
pub open spec fn mermaid_node(n: GraphNodeM) -> Seq<char> {
    "  "@ + n.id + shape_of(n.kind).0 + n.label + shape_of(n.kind).1 + "\n"@
}

/// The Mermaid line of an edge.
pub open spec fn mermaid_edge(e: EdgeM) -> Seq<char> {
    "  "@ + e.from + " -->"@ + (match e.label {
        Some(l) => "|"@ + l + "|"@,
        None => seq![],
    }) + " "@ + e.to + "\n"@
}

/// The PlantUML line of a node.
pub open spec fn plantuml_node(n: GraphNodeM) -> Seq<char> {
    "  :"@ + n.label + ": as "@ + n.id + "\n"@
}

/// The PlantUML line of an edge.
pub open spec fn plantuml_edge(e: EdgeM) -> Seq<char> {
    "  "@ + e.from + " -->"@ + (match e.label {
        Some(l) => " : "@ + l,
        None => seq![],
    }) + " "@ + e.to + "\n"@
}

/// The lines of items, one behind the other.
pub open spec fn lines_for<T>(s: Seq<T>, line: spec_fn(T) -> Seq<char>) -> Seq<char>
    decreases s.len(),
{
    if s.len() == 0 {
        seq![]
    } else {
        lines_for(s.drop_last(), line) + line(s.last())
    }
}

/// The Mermaid flow chart of a graph.
pub open spec fn mermaid_of(g: GraphM) -> Seq<char> {
    "flowchart TD\n"@ + lines_for(g.nodes, |n: GraphNodeM| mermaid_node(n)) + lines_for(
        g.edges,
        |e: EdgeM| mermaid_edge(e),
    )
}

/// The PlantUML activity diagram of a graph.
pub open spec fn plantuml_of(g: GraphM) -> Seq<char> {
    "@startuml\n"@ + lines_for(g.nodes, |n: GraphNodeM| plantuml_node(n)) + lines_for(
        g.edges,
        |e: EdgeM| plantuml_edge(e),
    ) + "@enduml\n"@
}

proof fn lemma_lines_step<T>(s: Seq<T>, line: spec_fn(T) -> Seq<char>, i: int)
    requires
        0 <= i < s.len(),
    ensures
        lines_for(s.take(i + 1), line) == lines_for(s.take(i), line) + line(s[i]),
{
    assert(s.take(i + 1).drop_last() =~= s.take(i));
}

impl Graph {
    /// The Mermaid flow chart of the graph.
    pub fn to_mermaid(&self) -> (r: String)
        ensures
            r@ == mermaid_of(self.deep_view()),
    {
        let ghost g = self.deep_view();
        let ghost f = |n: GraphNodeM| mermaid_node(n);
        let ghost h = |e: EdgeM| mermaid_edge(e);
        let mut out = "flowchart TD\n".to_owned();
        let mut i: usize = 0;
        assert(out@ =~= "flowchart TD\n"@ + lines_for(g.nodes.take(0), f));
        while i < self.nodes.len()
            invariant
                g == self.deep_view(),
                i <= self.nodes.len(),
                f == (|n: GraphNodeM| mermaid_node(n)),
                out@ == "flowchart TD\n"@ + lines_for(g.nodes.take(i as int), f),
            decreases self.nodes.len() - i,
        {
            let n = &self.nodes[i];
            let (open, close) = mermaid_shape(&n.kind);
            let ghost before = out@;
            out.push_str("  ");
            out.push_str(n.id.as_str());
            out.push_str(open);
            out.push_str(n.label.as_str());
            out.push_str(close);
            out.push_str("\n");
            proof {
                lemma_lines_step(g.nodes, f, i as int);
                assert(g.nodes[i as int] == n.deep_view());
                assert(out@ =~= before + mermaid_node(n.deep_view()));
                assert(out@ =~= "flowchart TD\n"@ + lines_for(g.nodes.take(i + 1), f));
            }
            i = i + 1;
        }
        assert(g.nodes.take(i as int) =~= g.nodes);
        let ghost head = out@;
        let mut k: usize = 0;
        assert(out@ =~= head + lines_for(g.edges.take(0), h));
        while k < self.edges.len()
            invariant
                g == self.deep_view(),
                k <= self.edges.len(),
                h == (|e: EdgeM| mermaid_edge(e)),
                out@ == head + lines_for(g.edges.take(k as int), h),
            decreases self.edges.len() - k,
        {
            let e = &self.edges[k];
            let ghost before = out@;
            out.push_str("  ");
            out.push_str(e.from.as_str());
            out.push_str(" -->");
            if let Some(l) = &e.label {
                let label = cat3("|", l.as_str(), "|");
                out.push_str(label.as_str());
            }
            out.push_str(" ");
            out.push_str(e.to.as_str());
            out.push_str("\n");
            proof {
                lemma_lines_step(g.edges, h, k as int);
                assert(g.edges[k as int] == e.deep_view());
                assert(out@ =~= before + mermaid_edge(e.deep_view()));
                assert(out@ =~= head + lines_for(g.edges.take(k + 1), h));
            }
            k = k + 1;
        }
        assert(g.edges.take(k as int) =~= g.edges);
        out
    }

    /// The PlantUML activity diagram of the graph.
    pub fn to_plantuml(&self) -> (r: String)
        ensures
            r@ == plantuml_of(self.deep_view()),
    {
        let ghost g = self.deep_view();
        let ghost f = |n: GraphNodeM| plantuml_node(n);
        let ghost h = |e: EdgeM| plantuml_edge(e);
        let mut out = "@startuml\n".to_owned();
        let mut i: usize = 0;
        assert(out@ =~= "@startuml\n"@ + lines_for(g.nodes.take(0), f));
        while i < self.nodes.len()
            invariant
                g == self.deep_view(),
                i <= self.nodes.len(),
                f == (|n: GraphNodeM| plantuml_node(n)),
                out@ == "@startuml\n"@ + lines_for(g.nodes.take(i as int), f),
            decreases self.nodes.len() - i,
        {
            let n = &self.nodes[i];
            let ghost before = out@;
            out.push_str("  :");
            out.push_str(n.label.as_str());
            out.push_str(": as ");
            out.push_str(n.id.as_str());
            out.push_str("\n");
            proof {
                lemma_lines_step(g.nodes, f, i as int);
                assert(g.nodes[i as int] == n.deep_view());
                assert(out@ =~= before + plantuml_node(n.deep_view()));
                assert(out@ =~= "@startuml\n"@ + lines_for(g.nodes.take(i + 1), f));
            }
            i = i + 1;
        }
        assert(g.nodes.take(i as int) =~= g.nodes);
        let ghost head = out@;
        let mut k: usize = 0;
        assert(out@ =~= head + lines_for(g.edges.take(0), h));
        while k < self.edges.len()
            invariant
                g == self.deep_view(),
                k <= self.edges.len(),
                h == (|e: EdgeM| plantuml_edge(e)),
                out@ == head + lines_for(g.edges.take(k as int), h),
            decreases self.edges.len() - k,
        {
            let e = &self.edges[k];
            let ghost before = out@;
            out.push_str("  ");
            out.push_str(e.from.as_str());
            out.push_str(" -->");
            if let Some(l) = &e.label {
                let label = cat(" : ", l.as_str());
                out.push_str(label.as_str());
            }
            out.push_str(" ");
            out.push_str(e.to.as_str());
            out.push_str("\n");
            proof {
                lemma_lines_step(g.edges, h, k as int);
                assert(g.edges[k as int] == e.deep_view());
                assert(out@ =~= before + plantuml_edge(e.deep_view()));
                assert(out@ =~= head + lines_for(g.edges.take(k + 1), h));
            }
            k = k + 1;
        }
        assert(g.edges.take(k as int) =~= g.edges);
        out.push_str("@enduml\n");
        out
    }

    /// A node as a unit of retrieval: its label, under the path of graph and
    /// node.
    pub fn node_to_text_unit(&self, node: &GraphNode) -> (r: TextUnit)
        ensures
            r.deep_view() == (TextUnitM {
                id: node.deep_view().id,
                text: node.deep_view().label,
                path: seq![self.deep_view().id, node.deep_view().id],
            }),
    {
        let mut path: Vec<String> = Vec::new();
        path.push(self.id.clone());
        path.push(node.id.0.clone());
        let r = TextUnit { id: node.id.0.clone(), text: node.label.clone(), path };
        assert(r.deep_view().path =~= seq![self.deep_view().id, node.deep_view().id]);
        r
    }
}

// ---- Laws ------------------------------------------------------------------

/// The lines of an item stand between those before it and those behind it.
proof fn lemma_line_in<T>(s: Seq<T>, line: spec_fn(T) -> Seq<char>, i: int) -> (r: (
    Seq<char>,
    Seq<char>,
))
    requires
        0 <= i < s.len(),
    ensures
        lines_for(s, line) == r.0 + line(s[i]) + r.1,
        r.0 == lines_for(s.take(i), line),
    decreases s.len(),
{
    if i == s.len() - 1 {
        assert(s.drop_last() =~= s.take(i));
        let r = (lines_for(s.take(i), line), Seq::<char>::empty());
        assert(lines_for(s, line) =~= r.0 + line(s[i]) + r.1);
        r
    } else {
        let (a, b) = lemma_line_in(s.drop_last(), line, i);
        assert(s.drop_last().take(i) =~= s.take(i));
        let r = (a, b + line(s.last()));
        assert(lines_for(s, line) =~= r.0 + line(s[i]) + r.1);
        r
    }
}

proof fn lemma_lines_end<T>(s: Seq<T>, line: spec_fn(T) -> Seq<char>)
    requires
        forall|i: int|
            0 <= i < s.len() ==> line(#[trigger] s[i]).len() > 0 && line(s[i]).last() == '\n',
    ensures
        s.len() > 0 ==> lines_for(s, line).len() > 0 && lines_for(s, line).last() == '\n',
        s.len() == 0 ==> lines_for(s, line).len() == 0,
{
    if s.len() > 0 {
        assert(line(s[s.len() - 1]).last() == '\n');
        assert(lines_for(s, line).last() == line(s.last()).last());
    }
}

/// For every edge the Mermaid text holds a line that begins with two spaces, the
/// source of the edge and the arrow, and ends with a space and the target of the
/// edge; a label stands between, in bars, and nothing else.
pub proof fn law_mermaid_edge(g: GraphM, i: int) -> (r: (Seq<char>, Seq<char>, Seq<char>))
    requires
        0 <= i < g.edges.len(),
    ensures
        mermaid_of(g) == r.0 + r.1 + "\n"@ + r.2,
        r.0.len() > 0 && r.0.last() == '\n',
        ("  "@ + g.edges[i].from + " -->"@).is_prefix_of(r.1),
        (" "@ + g.edges[i].to).is_suffix_of(r.1),
        match g.edges[i].label {
            Some(l) => r.1 == "  "@ + g.edges[i].from + " -->"@ + ("|"@ + l + "|"@) + (" "@
                + g.edges[i].to),
            None => r.1 == "  "@ + g.edges[i].from + " -->"@ + (" "@ + g.edges[i].to),
        },
{
    reveal_strlit("flowchart TD\n");
    reveal_strlit("\n");
    let e = g.edges[i];
    let f = |n: GraphNodeM| mermaid_node(n);
    let h = |e: EdgeM| mermaid_edge(e);
    let (a, b) = lemma_line_in(g.edges, h, i);
    let head = "flowchart TD\n"@ + lines_for(g.nodes, f);
    let line = match e.label {
        Some(l) => "  "@ + e.from + " -->"@ + ("|"@ + l + "|"@) + (" "@ + e.to),
        None => "  "@ + e.from + " -->"@ + (" "@ + e.to),
    };
    assert(h(e) =~= line + "\n"@);
    assert(mermaid_of(g) =~= (head + a) + line + "\n"@ + b);
    lemma_lines_end(g.nodes, f);
    lemma_lines_end(g.edges.take(i), h);
    assert(("  "@ + e.from + " -->"@).is_prefix_of(line));
    assert((" "@ + e.to).is_suffix_of(line));
    (head + a, line, b)
}

/// For every node the Mermaid text holds a line of two spaces, the identity of
/// the node, and its label in the brackets of its kind: rounded for start and end,
/// braces for a decision, square for all others.
pub proof fn law_mermaid_node(g: GraphM, i: int) -> (r: (Seq<char>, Seq<char>))
    requires
        0 <= i < g.nodes.len(),
    ensures
        match g.nodes[i].kind {
            NodeKind::Start | NodeKind::End => mermaid_of(g) == r.0 + ("  "@ + g.nodes[i].id + "(["@
                + g.nodes[i].label + "])"@ + "\n"@) + r.1,
            NodeKind::Decision => mermaid_of(g) == r.0 + ("  "@ + g.nodes[i].id + "{"@
                + g.nodes[i].label + "}"@ + "\n"@) + r.1,
            _ => mermaid_of(g) == r.0 + ("  "@ + g.nodes[i].id + "["@ + g.nodes[i].label + "]"@
                + "\n"@) + r.1,
        },
        r.0.len() > 0 && r.0.last() == '\n',
{
    reveal_strlit("flowchart TD\n");
    reveal_strlit("\n");
    let f = |n: GraphNodeM| mermaid_node(n);
    let h = |e: EdgeM| mermaid_edge(e);
    let (a, b) = lemma_line_in(g.nodes, f, i);
    lemma_lines_end(g.nodes.take(i), f);
    let r = ("flowchart TD\n"@ + a, b + lines_for(g.edges, h));
    assert(mermaid_of(g) =~= r.0 + mermaid_node(g.nodes[i]) + r.1);
    r
}

/// The Mermaid text of a graph without nodes and edges is its first line alone;
/// an edge more is one line more, at the end; without edges, so is a node more.
pub proof fn law_mermaid_grows(g: GraphM, e: EdgeM, n: GraphNodeM) -> (r: (Seq<char>, Seq<char>))
    ensures
        g.nodes.len() == 0 && g.edges.len() == 0 ==> mermaid_of(g) == "flowchart TD\n"@,
        "flowchart TD\n"@.is_prefix_of(mermaid_of(g)),
        mermaid_of(GraphM { edges: g.edges.push(e), ..g }) == mermaid_of(g) + r.0 + "\n"@,
        ("  "@ + e.from + " -->"@).is_prefix_of(r.0),
        (" "@ + e.to).is_suffix_of(r.0),
        g.edges.len() == 0 ==> mermaid_of(GraphM { nodes: g.nodes.push(n), ..g }) == mermaid_of(g)
            + r.1 + "\n"@,
        ("  "@ + n.id).is_prefix_of(r.1),
{
    let more = GraphM { edges: g.edges.push(e), ..g };
    let h = |e: EdgeM| mermaid_edge(e);
    let f = |n: GraphNodeM| mermaid_node(n);
    let i = g.edges.len() as int;
    assert(more.edges.drop_last() =~= g.edges);
    assert(g.nodes.push(n).drop_last() =~= g.nodes);
    let line = match e.label {
        Some(l) => "  "@ + e.from + " -->"@ + ("|"@ + l + "|"@) + (" "@ + e.to),
        None => "  "@ + e.from + " -->"@ + (" "@ + e.to),
    };
    assert(h(e) =~= line + "\n"@);
    assert(mermaid_of(more) =~= mermaid_of(g) + line + "\n"@);
    let row = "  "@ + n.id + shape_of(n.kind).0 + n.label + shape_of(n.kind).1;
    assert(f(n) == row + "\n"@);
    if g.edges.len() == 0 {
        assert(mermaid_of(GraphM { nodes: g.nodes.push(n), ..g }) =~= mermaid_of(g) + row + "\n"@);
        if g.nodes.len() == 0 {
            assert(mermaid_of(g) =~= "flowchart TD\n"@);
        }
    }
    (line, row)
}

/// For every edge the PlantUML text holds a line that begins with two spaces,
/// the source of the edge and the arrow, and ends with a space and the target of
/// the edge; a label stands between, behind a colon, and nothing else.
pub proof fn law_plantuml_edge(g: GraphM, i: int) -> (r: (Seq<char>, Seq<char>, Seq<char>))
    requires
        0 <= i < g.edges.len(),
    ensures
        plantuml_of(g) == r.0 + r.1 + "\n"@ + r.2,
        r.0.len() > 0 && r.0.last() == '\n',
        ("  "@ + g.edges[i].from + " -->"@).is_prefix_of(r.1),
        (" "@ + g.edges[i].to).is_suffix_of(r.1),
        match g.edges[i].label {
            Some(l) => r.1 == "  "@ + g.edges[i].from + " -->"@ + (" : "@ + l) + (" "@
                + g.edges[i].to),
            None => r.1 == "  "@ + g.edges[i].from + " -->"@ + (" "@ + g.edges[i].to),
        },
{
    reveal_strlit("@startuml\n");
    reveal_strlit("\n");
    let e = g.edges[i];
    let f = |n: GraphNodeM| plantuml_node(n);
    let h = |e: EdgeM| plantuml_edge(e);
    let (a, b) = lemma_line_in(g.edges, h, i);
    let head = "@startuml\n"@ + lines_for(g.nodes, f);
    let line = match e.label {
        Some(l) => "  "@ + e.from + " -->"@ + (" : "@ + l) + (" "@ + e.to),
        None => "  "@ + e.from + " -->"@ + (" "@ + e.to),
    };
    assert(h(e) =~= line + "\n"@);
    assert(plantuml_of(g) =~= (head + a) + line + "\n"@ + (b + "@enduml\n"@));
    lemma_lines_end(g.nodes, f);
    lemma_lines_end(g.edges.take(i), h);
    assert(("  "@ + e.from + " -->"@).is_prefix_of(line));
    assert((" "@ + e.to).is_suffix_of(line));
    (head + a, line, b + "@enduml\n"@)
}

/// For every node the PlantUML text holds a line with its label and, behind it,
/// its identity.
pub proof fn law_plantuml_node(g: GraphM, i: int) -> (r: (Seq<char>, Seq<char>))
    requires
        0 <= i < g.nodes.len(),
    ensures
        plantuml_of(g) == r.0 + ("  :"@ + g.nodes[i].label + ": as "@ + g.nodes[i].id + "\n"@) + r.1,
        r.0.len() > 0 && r.0.last() == '\n',
{
    reveal_strlit("@startuml\n");
    reveal_strlit("\n");
    let f = |n: GraphNodeM| plantuml_node(n);
    let h = |e: EdgeM| plantuml_edge(e);
    let (a, b) = lemma_line_in(g.nodes, f, i);
    lemma_lines_end(g.nodes.take(i), f);
    let r = ("@startuml\n"@ + a, b + lines_for(g.edges, h) + "@enduml\n"@);
    assert(plantuml_of(g) =~= r.0 + plantuml_node(g.nodes[i]) + r.1);
    r
}

/// The PlantUML text stands between its first and its last line, which are all
/// of it for a graph without nodes and edges. An edge more is one line more
/// before the last; without edges, so is a node more.
pub proof fn law_plantuml_grows(g: GraphM, e: EdgeM, n: GraphNodeM) -> (r: (
    Seq<char>,
    Seq<char>,
    Seq<char>,
))
    ensures
        plantuml_of(g) == "@startuml\n"@ + r.0 + "@enduml\n"@,
        g.nodes.len() == 0 && g.edges.len() == 0 ==> r.0.len() == 0,
        plantuml_of(GraphM { edges: g.edges.push(e), ..g }) == "@startuml\n"@ + (r.0 + r.1)
            + "@enduml\n"@,
        ("  "@ + e.from + " -->"@).is_prefix_of(r.1),
        (" "@ + e.to + "\n"@).is_suffix_of(r.1),
        g.edges.len() == 0 ==> plantuml_of(GraphM { nodes: g.nodes.push(n), ..g })
            == "@startuml\n"@ + (r.0 + r.2) + "@enduml\n"@,
        ("  :"@ + n.label).is_prefix_of(r.2),
        (n.id + "\n"@).is_suffix_of(r.2),
{
    let more = GraphM { edges: g.edges.push(e), ..g };
    let h = |e: EdgeM| plantuml_edge(e);
    let f = |n: GraphNodeM| plantuml_node(n);
    assert(more.edges.drop_last() =~= g.edges);
    assert(g.nodes.push(n).drop_last() =~= g.nodes);
    let body = lines_for(g.nodes, f) + lines_for(g.edges, h);
    assert(plantuml_of(g) =~= "@startuml\n"@ + body + "@enduml\n"@);
    assert(plantuml_of(more) =~= "@startuml\n"@ + (body + h(e)) + "@enduml\n"@);
    if g.edges.len() == 0 {
        assert(plantuml_of(GraphM { nodes: g.nodes.push(n), ..g }) =~= "@startuml\n"@ + (body + f(
            n,
        )) + "@enduml\n"@);
    }
    let front = "  "@ + e.from + " -->"@;
    assert(front.is_prefix_of(h(e)));
    assert((" "@ + e.to + "\n"@).is_suffix_of(h(e)));
    assert(("  :"@ + n.label).is_prefix_of(f(n)));
    assert((n.id + "\n"@).is_suffix_of(f(n)));
    (body, h(e), f(n))
}

/// The text that a call writes holds, for every edge, a line that goes from the
/// source of the edge over the arrow to its target.
pub proof fn law_mermaid_call(g: &Graph, text: String, i: int) -> (r: (
    Seq<char>,
    Seq<char>,
    Seq<char>,
))
    requires
        call_ensures(Graph::to_mermaid, (g,), text),
        0 <= i < g.deep_view().edges.len(),
    ensures
        text@ == r.0 + r.1 + "\n"@ + r.2,
        r.0.len() > 0 && r.0.last() == '\n',
        ({
            let e = g.deep_view().edges[i];
            r.1 == "  "@ + e.from + " -->"@ + match e.label {
                Some(l) => "|"@ + l + "|"@,
                None => seq![],
            } + (" "@ + e.to)
        }),
{
    let e = g.deep_view().edges[i];
    let front = "  "@ + e.from + " -->"@;
    assert(front + seq![] =~= front);
    law_mermaid_edge(g.deep_view(), i)
}

} // verus!
