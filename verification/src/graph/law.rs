//! What the operations on graphs leave, and how nodes are found.

use vstd::prelude::*;

use crate::assoc::{bind, law_bind_lookup, law_unbind_lookup, lookup};
use crate::graph::model::{
    avoids, borders, enters, graph_error_text, is_node, is_not_between, is_other_node, joins,
    leaves, node_at, node_of, without_node, Edge, EdgeId, EdgeM, Graph, GraphError, GraphErrorM,
    GraphM, GraphNode, GraphNodeM, NodeId, NodeKind,
};
use crate::graph::order::along_edges;
use crate::graph::store::{
    created, deleted, entered, entered_all, indexed, indexed_all, deindexed_all, kind_key, node_added,
    node_in_store, node_removed, nodes_in_store, struck, struck_all, under_key, with_id, GraphStoreM,
};
use crate::graph::walk::{nodes_of, targets};
use crate::seqs::{
    is_not, keep, law_keep_filters, law_without, lemma_first_index, lemma_first_index_is,
    lemma_keep_contains, without,
};

verus! {

/// The edges from a node are those that it is the source of, those to it those
/// that it is the target of, in their order; taking edges between two nodes away
/// leaves all others.
pub proof fn law_edges(es: Seq<EdgeM>, id: Seq<char>, to: Seq<char>)
    ensures
        keep(es, leaves(id)) == es.filter(|e: EdgeM| e.from == id),
        keep(es, enters(id)) == es.filter(|e: EdgeM| e.to == id),
        keep(es, is_not_between(id, to)) == es.filter(|e: EdgeM| !(e.from == id && e.to == to)),
        targets(es, id) == es.filter(|e: EdgeM| e.from == id).map_values(|e: EdgeM| e.to),
{
    law_keep_filters(es, leaves(id));
    assert(leaves(id) =~= (|e: EdgeM| e.from == id));
    law_keep_filters(es, enters(id));
    assert(enters(id) =~= (|e: EdgeM| e.to == id));
    law_keep_filters(es, is_not_between(id, to));
    assert(is_not_between(id, to) =~= (|e: EdgeM| !(e.from == id && e.to == to)));
    lemma_targets(es, id);
}

proof fn lemma_targets(es: Seq<EdgeM>, id: Seq<char>)
    ensures
        targets(es, id) == es.filter(|e: EdgeM| e.from == id).map_values(|e: EdgeM| e.to),
    decreases es.len(),
{
    reveal(Seq::filter);
    let f = |e: EdgeM| e.from == id;
    let g = |e: EdgeM| e.to;
    if es.len() > 0 {
        lemma_targets(es.drop_last(), id);
        if f(es.last()) {
            assert(es.filter(f).map_values(g) =~= es.drop_last().filter(f).map_values(g).push(
                g(es.last()),
            ));
        }
    }
    assert(targets(es, id) =~= es.filter(f).map_values(g));
}

/// Taking a node away leaves the other nodes in their order, and of the edges, in
/// their order, those that neither leave nor enter it.
pub proof fn law_without_node(g: GraphM, id: Seq<char>)
    ensures
        without_node(g, id).id == g.id,
        without_node(g, id).title == g.title,
        without_node(g, id).nodes == g.nodes.filter(|n: GraphNodeM| n.id != id),
        without_node(g, id).edges == g.edges.filter(|e: EdgeM| e.from != id && e.to != id),
{
    law_keep_filters(g.nodes, is_other_node(id));
    assert(is_other_node(id) =~= (|n: GraphNodeM| n.id != id));
    law_keep_filters(g.edges, avoids(id));
    assert(avoids(id) =~= (|e: EdgeM| e.from != id && e.to != id));
}

/// The neighbors of a node are the nodes that an edge joins with it, in either
/// direction.
pub proof fn law_neighbors(g: GraphM, id: Seq<char>, n: GraphNodeM)
    ensures
        borders(g.edges, id)(n) <==> exists|m: int|
            0 <= m < g.edges.len() && ((#[trigger] g.edges[m]).from == id && g.edges[m].to == n.id
                || g.edges[m].from == n.id && g.edges[m].to == id),
        keep(g.nodes, borders(g.edges, id)) == g.nodes.filter(borders(g.edges, id)),
{
    law_keep_filters(g.nodes, borders(g.edges, id));
    if borders(g.edges, id)(n) {
        let m = choose|m: int| 0 <= m < g.edges.len() && joins(#[trigger] g.edges[m], id, n.id);
        assert(joins(g.edges[m], id, n.id));
    }
    if exists|m: int|
        0 <= m < g.edges.len() && ((#[trigger] g.edges[m]).from == id && g.edges[m].to == n.id
            || g.edges[m].from == n.id && g.edges[m].to == id) {
        let m = choose|m: int|
            0 <= m < g.edges.len() && ((#[trigger] g.edges[m]).from == id && g.edges[m].to == n.id
                || g.edges[m].from == n.id && g.edges[m].to == id);
        assert(joins(g.edges[m], id, n.id));
    }
}

/// Looking nodes up by their identities gives those that are there, in the order
/// of the identities.
pub proof fn law_nodes_of(g: GraphM, ids: Seq<Seq<char>>)
    ensures
        nodes_of(g, ids) == ids.filter(|id: Seq<char>| node_of(g, id) is Some).map_values(
            |id: Seq<char>| node_of(g, id)->0,
        ),
    decreases ids.len(),
{
    reveal(Seq::filter);
    let f = |id: Seq<char>| node_of(g, id) is Some;
    let h = |id: Seq<char>| node_of(g, id)->0;
    if ids.len() > 0 {
        law_nodes_of(g, ids.drop_last());
        if f(ids.last()) {
            assert(ids.filter(f).map_values(h) =~= ids.drop_last().filter(f).map_values(h).push(
                h(ids.last()),
            ));
        }
    }
    assert(nodes_of(g, ids) =~= ids.filter(f).map_values(h));
}

/// The same in a store of graphs.
pub proof fn law_nodes_in_store(s: GraphStoreM, ids: Seq<Seq<char>>)
    ensures
        nodes_in_store(s, ids) == ids.filter(
            |id: Seq<char>| node_in_store(s, id) is Some,
        ).map_values(|id: Seq<char>| node_in_store(s, id)->0),
    decreases ids.len(),
{
    reveal(Seq::filter);
    let f = |id: Seq<char>| node_in_store(s, id) is Some;
    let h = |id: Seq<char>| node_in_store(s, id)->0;
    if ids.len() > 0 {
        law_nodes_in_store(s, ids.drop_last());
        if f(ids.last()) {
            assert(ids.filter(f).map_values(h) =~= ids.drop_last().filter(f).map_values(h).push(
                h(ids.last()),
            ));
        }
    }
    assert(nodes_in_store(s, ids) =~= ids.filter(f).map_values(h));
}

/// A node is the first with its identity.
pub proof fn law_node_of(a: Seq<GraphNodeM>, n: GraphNodeM, b: Seq<GraphNodeM>, g: GraphM)
    requires
        forall|i: int| 0 <= i < a.len() ==> (#[trigger] a[i]).id != n.id,
    ensures
        node_of(GraphM { nodes: a + seq![n] + b, ..g }, n.id) == Some(n),
        node_of(GraphM { nodes: a, ..g }, n.id) is None,
{
    let ns = a + seq![n] + b;
    assert forall|i: int| 0 <= i < a.len() implies !is_node(n.id)(#[trigger] ns[i]) by {
        assert(ns[i] == a[i]);
    }
    lemma_first_index_is(ns, is_node(n.id), a.len() as int);
    lemma_first_index(a, is_node(n.id));
}

/// What a store holds after an operation: a graph that was made is found as it
/// was given; one that was deleted is not; a node that was added stands behind the
/// others of its graph; one that was removed is gone with its edges. Every other
/// graph stays as it is. An operation on a graph that is not there, or with a node
/// that is, is refused.
pub proof fn law_store_graphs(
    s: GraphStoreM,
    g: GraphM,
    graph_id: Seq<char>,
    n: GraphNodeM,
    id: Seq<char>,
    other: Seq<char>,
)
    ensures
        lookup(created(s, g).graphs, g.id) == Some(g),
        other != g.id ==> lookup(created(s, g).graphs, other) == lookup(s.graphs, other),
        lookup(deleted(s, graph_id).graphs, graph_id) is None,
        other != graph_id ==> lookup(deleted(s, graph_id).graphs, other) == lookup(s.graphs, other),
        node_added(s, graph_id, n).1 is Ok <==> (lookup(s.graphs, graph_id) matches Some(h)
            && node_of(h, n.id) is None),
        node_added(s, graph_id, n).1 is Err ==> node_added(s, graph_id, n).0 == s,
        node_added(s, graph_id, n).1 is Ok ==> lookup(
            node_added(s, graph_id, n).0.graphs,
            graph_id,
        ) == Some(
            GraphM {
                nodes: lookup(s.graphs, graph_id)->0.nodes.push(n),
                ..lookup(s.graphs, graph_id)->0
            },
        ),
        other != graph_id ==> lookup(node_added(s, graph_id, n).0.graphs, other) == lookup(
            s.graphs,
            other,
        ),
        node_removed(s, graph_id, id).1 is Ok <==> lookup(s.graphs, graph_id) is Some,
        lookup(s.graphs, graph_id) matches Some(h) ==> (node_of(h, id) is Some ==> lookup(
            node_removed(s, graph_id, id).0.graphs,
            graph_id,
        ) == Some(without_node(h, id))) && (node_of(h, id) is None ==> node_removed(
            s,
            graph_id,
            id,
        ).0 == s),
        other != graph_id ==> lookup(node_removed(s, graph_id, id).0.graphs, other) == lookup(
            s.graphs,
            other,
        ),
{
    lemma_indexed_graphs(s, g.id, g.nodes);
    law_bind_lookup(s.graphs, g.id, g, other);
    law_unbind_lookup(s.graphs, graph_id, other);
    match lookup(s.graphs, graph_id) {
        Some(h) => {
            lemma_deindexed_graphs(
                GraphStoreM { graphs: crate::assoc::unbind(s.graphs, graph_id), ..s },
                h.nodes,
            );
            law_bind_lookup(s.graphs, graph_id, GraphM { nodes: h.nodes.push(n), ..h }, other);
            law_bind_lookup(s.graphs, graph_id, without_node(h, id), other);
        },
        None => {},
    }
}

proof fn lemma_indexed_graphs(s: GraphStoreM, graph_id: Seq<char>, ns: Seq<GraphNodeM>)
    ensures
        indexed_all(s, graph_id, ns).graphs == s.graphs,
    decreases ns.len(),
{
    if ns.len() > 0 {
        lemma_indexed_graphs(s, graph_id, ns.drop_last());
    }
}

proof fn lemma_deindexed_graphs(s: GraphStoreM, ns: Seq<GraphNodeM>)
    ensures
        deindexed_all(s, ns).graphs == s.graphs,
    decreases ns.len(),
{
    if ns.len() > 0 {
        lemma_deindexed_graphs(s, ns.drop_last());
    }
}

/// In an order along the edges the source of every edge comes before its target,
/// and each node stands once.
pub proof fn law_sources_first(g: GraphM, r: Seq<GraphNodeM>, e: int, i: int, j: int)
    requires
        along_edges(g, r),
    ensures
        r.len() == g.nodes.len(),
        0 <= e < g.edges.len() && 0 <= i < r.len() && 0 <= j < r.len() && g.edges[e].from == r[i].id
            && g.edges[e].to == r[j].id ==> i < j,
        0 <= i < r.len() ==> g.nodes.contains(r[i]),
        0 <= i < j < r.len() ==> r[i].id != r[j].id,
{
    if 0 <= e < g.edges.len() && 0 <= i < r.len() && 0 <= j < r.len() {
        assert(g.edges[e].from == g.edges[e].from && r[i] == r[i] && r[j] == r[j]);
    }
}

/// The names of the kinds of node, and the messages of the errors.
pub proof fn law_graph_names(s: Seq<char>)
    ensures
        kind_key(NodeKind::Process) == "Process"@,
        kind_key(NodeKind::Decision) == "Decision"@,
        kind_key(NodeKind::Start) == "Start"@,
        kind_key(NodeKind::End) == "End"@,
        kind_key(NodeKind::Idea) == "Idea"@,
        kind_key(NodeKind::Note) == "Note"@,
        kind_key(NodeKind::Branch) == "Branch"@,
        kind_key(NodeKind::Annotation) == "Annotation"@,
        graph_error_text(GraphErrorM::NotFound(s)) == "not found: "@ + s,
        graph_error_text(GraphErrorM::DuplicateNode(s)) == "duplicate node: "@ + s,
        graph_error_text(GraphErrorM::DuplicateGraph(s)) == "duplicate graph: "@ + s,
        graph_error_text(GraphErrorM::CycleDetected) == "cycle detected (DAG required)"@,
{
}

// ---- Calls -----------------------------------------------------------------

/// Adding a node is refused exactly if there is one with its identity; else it
/// comes behind the others, and nothing else changes.
pub proof fn law_add_node(g: &mut Graph, node: GraphNode, r: Result<(), GraphError>)
    requires
        call_ensures(Graph::add_node, (g, node), r),
    ensures
        r is Err <==> node_of(old(g).deep_view(), node.deep_view().id) is Some,
        r is Err ==> *final(g) == *old(g),
        r matches Err(e) ==> e.deep_view() == GraphErrorM::DuplicateNode(node.deep_view().id),
        r is Ok ==> final(g).deep_view() == (GraphM {
            nodes: old(g).deep_view().nodes.push(node.deep_view()),
            ..old(g).deep_view()
        }),
{
}

/// Adding an edge is refused exactly if its source or its target is not there, and
/// the source is named where both are not; else the edge comes behind the others.
pub proof fn law_add_edge(g: &mut Graph, edge: Edge, r: Result<(), GraphError>)
    requires
        call_ensures(Graph::add_edge, (g, edge), r),
    ensures
        r is Ok <==> node_of(old(g).deep_view(), edge.deep_view().from) is Some && node_of(
            old(g).deep_view(),
            edge.deep_view().to,
        ) is Some,
        r is Err ==> *final(g) == *old(g),
        r matches Err(e) ==> (e.deep_view() matches GraphErrorM::NotFound(s) && if node_of(
            old(g).deep_view(),
            edge.deep_view().from,
        ) is None {
            edge.deep_view().from.is_suffix_of(s)
        } else {
            edge.deep_view().to.is_suffix_of(s)
        }),
        r is Ok ==> final(g).deep_view() == (GraphM {
            edges: old(g).deep_view().edges.push(edge.deep_view()),
            ..old(g).deep_view()
        }),
{
    let e = edge.deep_view();
    assert(e.from.is_suffix_of("source node "@ + e.from));
    assert(e.to.is_suffix_of("target node "@ + e.to));
}

/// Updating a node is refused exactly if it is not there; else its label is the
/// given one, and nothing else changes.
pub proof fn law_update_node(g: &mut Graph, id: &NodeId, label: &str, r: Result<(), GraphError>)
    requires
        call_ensures(Graph::update_node, (g, id, label), r),
    ensures
        r is Err <==> node_of(old(g).deep_view(), id.deep_view()) is None,
        r is Err ==> *final(g) == *old(g),
        final(g).deep_view().edges == old(g).deep_view().edges,
        final(g).deep_view().nodes.len() == old(g).deep_view().nodes.len(),
        r is Ok ==> node_of(final(g).deep_view(), id.deep_view()) == Some(
            GraphNodeM {
                label: label@,
                ..node_of(old(g).deep_view(), id.deep_view())->0
            },
        ),
        forall|i: int|
            0 <= i < old(g).deep_view().nodes.len() && old(g).deep_view().nodes[i].id
                != id.deep_view() ==> #[trigger] final(g).deep_view().nodes[i]
                == old(g).deep_view().nodes[i],
{
    let a = old(g).deep_view();
    let b = final(g).deep_view();
    lemma_first_index(a.nodes, is_node(id.deep_view()));
    if let Some(i) = node_at(a, id.deep_view()) {
        assert forall|j: int| 0 <= j < i implies !is_node(id.deep_view())(#[trigger] b.nodes[j]) by {
            assert(!is_node(id.deep_view())(a.nodes[j]));
        }
        lemma_first_index_is(b.nodes, is_node(id.deep_view()), i);
    }
}

/// Removing the edges between two nodes tells whether there were any, and leaves
/// the others in order and the nodes as they are.
pub proof fn law_remove_edge(g: &mut Graph, from: &NodeId, to: &NodeId, r: bool)
    requires
        call_ensures(Graph::remove_edge, (g, from, to), r),
    ensures
        final(g).deep_view().nodes == old(g).deep_view().nodes,
        final(g).deep_view().edges == old(g).deep_view().edges.filter(
            |e: EdgeM| !(e.from == from.deep_view() && e.to == to.deep_view()),
        ),
        r <==> final(g).deep_view().edges.len() < old(g).deep_view().edges.len(),
{
    law_edges(old(g).deep_view().edges, from.deep_view(), to.deep_view());
}

/// How many edges leave a node, and how many enter it.
pub proof fn law_degrees(n: &GraphNode, g: &Graph, out: usize, into: usize)
    requires
        call_ensures(GraphNode::out_degree, (n, g), out),
        call_ensures(GraphNode::in_degree, (n, g), into),
    ensures
        out == g.deep_view().edges.filter(|e: EdgeM| e.from == n.deep_view().id).len(),
        into == g.deep_view().edges.filter(|e: EdgeM| e.to == n.deep_view().id).len(),
{
    law_edges(g.deep_view().edges, n.deep_view().id, n.deep_view().id);
}

/// A node as a unit of retrieval: its identity, its label, and the path of graph
/// and node; an edge is named by its source and then its target.
pub proof fn law_units(
    g: &Graph,
    n: &GraphNode,
    u: crate::llm::unit::TextUnit,
    e: &Edge,
    id: EdgeId,
)
    requires
        call_ensures(Graph::node_to_text_unit, (g, n), u),
        call_ensures(Edge::id, (e,), id),
    ensures
        u.deep_view().id == n.deep_view().id,
        u.deep_view().text == n.deep_view().label,
        u.deep_view().path == seq![g.deep_view().id, n.deep_view().id],
        (e.deep_view().from + seq!['-']).is_prefix_of(id.deep_view()),
        e.deep_view().to.is_suffix_of(id.deep_view()),
{
    reveal_strlit("-");
    assert("-"@ =~= seq!['-']);
    assert((e.deep_view().from + seq!['-']).is_prefix_of(id.deep_view()));
    assert(e.deep_view().to.is_suffix_of(id.deep_view()));
}

// ---- The indexes of a store ------------------------------------------------

proof fn lemma_entered(
    m: Seq<(Seq<char>, Seq<Seq<char>>)>,
    k: Seq<char>,
    id: Seq<char>,
    key: Seq<char>,
    x: Seq<char>,
)
    ensures
        under_key(entered(m, k, id), key).contains(x) <==> under_key(m, key).contains(x) || key == k
            && x == id,
{
    let ids = under_key(m, k);
    law_bind_lookup(m, k, with_id(ids, id), key);
    if !ids.contains(id) {
        assert(ids.push(id)[ids.len() as int] == id);
        if ids.contains(x) {
            let i = choose|i: int| 0 <= i < ids.len() && ids[i] == x;
            assert(ids.push(id)[i] == x);
        }
    }
}

proof fn lemma_struck(
    m: Seq<(Seq<char>, Seq<Seq<char>>)>,
    k: Seq<char>,
    id: Seq<char>,
    key: Seq<char>,
    x: Seq<char>,
)
    ensures
        under_key(struck(m, k, id), key).contains(x) <==> under_key(m, key).contains(x) && !(key
            == k && x == id),
{
    if let Some(ids) = lookup(m, k) {
        law_bind_lookup(m, k, without(ids, id), key);
        lemma_keep_contains(ids, is_not(id));
        law_without(ids, id);
    }
}

proof fn lemma_entered_keys(
    m: Seq<(Seq<char>, Seq<Seq<char>>)>,
    ks: Seq<Seq<char>>,
    id: Seq<char>,
    key: Seq<char>,
    x: Seq<char>,
)
    ensures
        under_key(entered_all(m, ks, id), key).contains(x) <==> under_key(m, key).contains(x)
            || ks.contains(key) && x == id,
    decreases ks.len(),
{
    if ks.len() > 0 {
        let d = ks.drop_last();
        lemma_entered_keys(m, d, id, key, x);
        lemma_entered(entered_all(m, d, id), ks.last(), id, key, x);
        assert(ks =~= d.push(ks.last()));
        assert(ks.contains(key) <==> d.contains(key) || key == ks.last());
    }
}

proof fn lemma_struck_keys(
    m: Seq<(Seq<char>, Seq<Seq<char>>)>,
    ks: Seq<Seq<char>>,
    id: Seq<char>,
    key: Seq<char>,
    x: Seq<char>,
)
    ensures
        under_key(struck_all(m, ks, id), key).contains(x) <==> under_key(m, key).contains(x) && !(
        ks.contains(key) && x == id),
    decreases ks.len(),
{
    if ks.len() > 0 {
        let d = ks.drop_last();
        lemma_struck_keys(m, d, id, key, x);
        lemma_struck(struck_all(m, d, id), ks.last(), id, key, x);
        assert(ks =~= d.push(ks.last()));
        assert(ks.contains(key) <==> d.contains(key) || key == ks.last());
    }
}

/// One of the nodes has the identity.
pub open spec fn one_is(ns: Seq<GraphNodeM>, id: Seq<char>) -> bool {
    exists|i: int| 0 <= i < ns.len() && (#[trigger] ns[i]).id == id
}

/// One of the nodes has the identity and bears the tag.
pub open spec fn one_bears(ns: Seq<GraphNodeM>, id: Seq<char>, tag: Seq<char>) -> bool {
    exists|i: int| 0 <= i < ns.len() && (#[trigger] ns[i]).id == id && ns[i].tags.contains(tag)
}

/// One of the nodes has the identity and is of the kind that the key names.
pub open spec fn one_is_of(ns: Seq<GraphNodeM>, id: Seq<char>, key: Seq<char>) -> bool {
    exists|i: int| 0 <= i < ns.len() && (#[trigger] ns[i]).id == id && kind_key(ns[i].kind) == key
}

proof fn lemma_one_more(ns: Seq<GraphNodeM>, id: Seq<char>, key: Seq<char>)
    requires
        ns.len() > 0,
    ensures
        one_is(ns, id) <==> one_is(ns.drop_last(), id) || ns.last().id == id,
        one_bears(ns, id, key) <==> one_bears(ns.drop_last(), id, key) || ns.last().id == id
            && ns.last().tags.contains(key),
        one_is_of(ns, id, key) <==> one_is_of(ns.drop_last(), id, key) || ns.last().id == id
            && kind_key(ns.last().kind) == key,
{
    let d = ns.drop_last();
    assert(forall|i: int| 0 <= i < d.len() ==> #[trigger] d[i] == ns[i]);
    assert(ns.last() == ns[ns.len() - 1]);
    if one_is(d, id) {
        let i = choose|i: int| 0 <= i < d.len() && (#[trigger] d[i]).id == id;
        assert(ns[i].id == id);
    }
    if one_bears(d, id, key) {
        let i = choose|i: int|
            0 <= i < d.len() && (#[trigger] d[i]).id == id && d[i].tags.contains(key);
        assert(ns[i].id == id);
    }
    if one_is_of(d, id, key) {
        let i = choose|i: int|
            0 <= i < d.len() && (#[trigger] d[i]).id == id && kind_key(d[i].kind) == key;
        assert(ns[i].id == id);
    }
    if one_is(ns, id) && ns.last().id != id {
        let i = choose|i: int| 0 <= i < ns.len() && (#[trigger] ns[i]).id == id;
        assert(d[i].id == id);
    }
    if one_bears(ns, id, key) && !(ns.last().id == id && ns.last().tags.contains(key)) {
        let i = choose|i: int|
            0 <= i < ns.len() && (#[trigger] ns[i]).id == id && ns[i].tags.contains(key);
        assert(d[i].id == id);
    }
    if one_is_of(ns, id, key) && !(ns.last().id == id && kind_key(ns.last().kind) == key) {
        let i = choose|i: int|
            0 <= i < ns.len() && (#[trigger] ns[i]).id == id && kind_key(ns[i].kind) == key;
        assert(d[i].id == id);
    }
}

proof fn lemma_indexed_all(
    s: GraphStoreM,
    graph_id: Seq<char>,
    ns: Seq<GraphNodeM>,
    id: Seq<char>,
    key: Seq<char>,
)
    ensures
        ({
            let t = indexed_all(s, graph_id, ns);
            &&& lookup(t.node_to_graph, id) == if one_is(ns, id) {
                Some(graph_id)
            } else {
                lookup(s.node_to_graph, id)
            }
            &&& under_key(t.tag_index, key).contains(id) <==> under_key(s.tag_index, key).contains(
                id,
            ) || one_bears(ns, id, key)
            &&& under_key(t.type_index, key).contains(id) <==> under_key(
                s.type_index,
                key,
            ).contains(id) || one_is_of(ns, id, key)
        }),
    decreases ns.len(),
{
    if ns.len() > 0 {
        let n = ns.last();
        let m = indexed_all(s, graph_id, ns.drop_last());
        lemma_indexed_all(s, graph_id, ns.drop_last(), id, key);
        lemma_one_more(ns, id, key);
        law_bind_lookup(m.node_to_graph, n.id, graph_id, id);
        lemma_entered_keys(m.tag_index, n.tags, n.id, key, id);
        lemma_entered(m.type_index, kind_key(n.kind), n.id, key, id);
    }
}

proof fn lemma_deindexed_all(s: GraphStoreM, ns: Seq<GraphNodeM>, id: Seq<char>, key: Seq<char>)
    ensures
        ({
            let t = deindexed_all(s, ns);
            &&& lookup(t.node_to_graph, id) == if one_is(ns, id) {
                None
            } else {
                lookup(s.node_to_graph, id)
            }
            &&& under_key(t.tag_index, key).contains(id) <==> under_key(s.tag_index, key).contains(
                id,
            ) && !one_bears(ns, id, key)
            &&& under_key(t.type_index, key).contains(id) <==> under_key(
                s.type_index,
                key,
            ).contains(id) && !one_is_of(ns, id, key)
        }),
    decreases ns.len(),
{
    if ns.len() > 0 {
        let n = ns.last();
        let m = deindexed_all(s, ns.drop_last());
        lemma_deindexed_all(s, ns.drop_last(), id, key);
        lemma_one_more(ns, id, key);
        law_unbind_lookup(m.node_to_graph, n.id, id);
        lemma_struck_keys(m.tag_index, n.tags, n.id, key, id);
        lemma_struck(m.type_index, kind_key(n.kind), n.id, key, id);
    }
}

/// When a graph is added, exactly its nodes come to be known as nodes of it, each
/// under its own tags and kind; all that was known of others stays.
pub proof fn law_created_indexed(s: GraphStoreM, g: GraphM, id: Seq<char>, key: Seq<char>)
    ensures
        one_is(g.nodes, id) ==> lookup(created(s, g).node_to_graph, id) == Some(g.id),
        !one_is(g.nodes, id) ==> lookup(created(s, g).node_to_graph, id) == lookup(
            s.node_to_graph,
            id,
        ),
        under_key(created(s, g).tag_index, key).contains(id) <==> under_key(
            s.tag_index,
            key,
        ).contains(id) || one_bears(g.nodes, id, key),
        under_key(created(s, g).type_index, key).contains(id) <==> under_key(
            s.type_index,
            key,
        ).contains(id) || one_is_of(g.nodes, id, key),
{
    lemma_indexed_all(s, g.id, g.nodes, id, key);
}

/// When a graph is deleted, its nodes are known no longer, neither under their
/// identities nor under their tags and kinds; all that was known of others stays.
pub proof fn law_deleted_unindexed(
    s: GraphStoreM,
    graph_id: Seq<char>,
    g: GraphM,
    id: Seq<char>,
    key: Seq<char>,
)
    requires
        lookup(s.graphs, graph_id) == Some(g),
    ensures
        ({
            let t = deleted(s, graph_id);
            &&& one_is(g.nodes, id) ==> lookup(t.node_to_graph, id) is None
            &&& !one_is(g.nodes, id) ==> lookup(t.node_to_graph, id) == lookup(s.node_to_graph, id)
            &&& under_key(t.tag_index, key).contains(id) <==> under_key(s.tag_index, key).contains(
                id,
            ) && !one_bears(g.nodes, id, key)
            &&& under_key(t.type_index, key).contains(id) <==> under_key(
                s.type_index,
                key,
            ).contains(id) && !one_is_of(g.nodes, id, key)
        }),
{
    lemma_deindexed_all(
        GraphStoreM { graphs: crate::assoc::unbind(s.graphs, graph_id), ..s },
        g.nodes,
        id,
        key,
    );
}

/// A node that is added or removed changes what is known of that node alone.
pub proof fn law_node_indexed(
    s: GraphStoreM,
    graph_id: Seq<char>,
    n: GraphNodeM,
    g: GraphM,
    id: Seq<char>,
    other: Seq<char>,
    key: Seq<char>,
)
    requires
        lookup(s.graphs, graph_id) == Some(g),
    ensures
        other != n.id ==> {
            let t = node_added(s, graph_id, n).0;
            &&& lookup(t.node_to_graph, other) == lookup(s.node_to_graph, other)
            &&& under_key(t.tag_index, key).contains(other) <==> under_key(
                s.tag_index,
                key,
            ).contains(other)
            &&& under_key(t.type_index, key).contains(other) <==> under_key(
                s.type_index,
                key,
            ).contains(other)
        },
        node_of(g, id) matches Some(m) ==> {
            let t = node_removed(s, graph_id, id).0;
            &&& lookup(t.node_to_graph, id) is None
            &&& m.tags.contains(key) ==> !under_key(t.tag_index, key).contains(id)
            &&& !under_key(t.type_index, kind_key(m.kind)).contains(id)
            &&& other != id ==> {
                &&& lookup(t.node_to_graph, other) == lookup(s.node_to_graph, other)
                &&& under_key(t.tag_index, key).contains(other) <==> under_key(
                    s.tag_index,
                    key,
                ).contains(other)
                &&& under_key(t.type_index, key).contains(other) <==> under_key(
                    s.type_index,
                    key,
                ).contains(other)
            }
        },
{
    law_bind_lookup(s.node_to_graph, n.id, graph_id, other);
    lemma_entered_keys(s.tag_index, n.tags, n.id, key, other);
    lemma_entered(s.type_index, kind_key(n.kind), n.id, key, other);
    if let Some(m) = node_of(g, id) {
        crate::graph::model::lemma_node_at(g, id);
        assert(m.id == id);
        law_unbind_lookup(s.node_to_graph, id, other);
        lemma_struck_keys(s.tag_index, m.tags, id, key, other);
        lemma_struck_keys(s.tag_index, m.tags, id, key, id);
        lemma_struck(s.type_index, kind_key(m.kind), id, key, other);
        lemma_struck(s.type_index, kind_key(m.kind), id, kind_key(m.kind), id);
    }
}

} // verus!
