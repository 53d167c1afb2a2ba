//! Nodes, edges and the graph that they form.

use vstd::prelude::*;

use crate::float::F32;
use crate::seqs::{first_index, keep, lemma_first_index, lemma_first_index_is, lemma_keep_step};
use crate::text::{cat, cat3};

verus! {

broadcast use vstd::std_specs::vec::group_vec_axioms;

/// The identity of a node.
#[derive(Debug, PartialEq, Eq, Hash)]
pub struct NodeId(pub String);

impl DeepView for NodeId {
    type V = Seq<char>;

    open spec fn deep_view(&self) -> Seq<char> {
        self.0@
    }
}

impl Clone for NodeId {
    fn clone(&self) -> (r: Self)
        ensures
            r == *self,
    {
        NodeId(self.0.clone())
    }
}

impl NodeId {
    /// The identity with the given text.
    pub fn of(s: &str) -> (r: NodeId)
        ensures
            r.deep_view() == s@,
    {
        NodeId(s.to_owned())
    }

    pub fn as_str(&self) -> (r: &str)
        ensures
            r@ == self.deep_view(),
    {
        self.0.as_str()
    }

    pub fn same(&self, other: &NodeId) -> (r: bool)
        ensures
            r == (self.deep_view() == other.deep_view()),
    {
        self.0 == other.0
    }
}

/// The identity of an edge.
#[derive(Debug, PartialEq, Eq, Hash)]
pub struct EdgeId(pub String);

impl DeepView for EdgeId {
    type V = Seq<char>;

    open spec fn deep_view(&self) -> Seq<char> {
        self.0@
    }
}

impl Clone for EdgeId {
    fn clone(&self) -> (r: Self)
        ensures
            r == *self,
    {
        EdgeId(self.0.clone())
    }
}

impl EdgeId {
    /// The identities of both ends with a hyphen between.
    pub fn new(from: &NodeId, to: &NodeId) -> (r: EdgeId)
        ensures
            r.deep_view() == from.deep_view() + "-"@ + to.deep_view(),
    {
        EdgeId(cat3(from.as_str(), "-", to.as_str()))
    }
}

/// The kinds of node.
#[derive(Clone, Copy, Debug, PartialEq, Eq, Structural)]
pub enum NodeKind {
    Process,
    Decision,
    Start,
    End,
    Idea,
    Note,
    /// Where a branch of a mind map begins.
    Branch,
    Annotation,
}

impl DeepView for NodeKind {
    type V = NodeKind;

    open spec fn deep_view(&self) -> NodeKind {
        *self
    }
}

/// A node of a graph.
#[derive(Debug, PartialEq)]
pub struct GraphNode {
    pub id: NodeId,
    pub kind: NodeKind,
    pub label: String,
    pub tags: Vec<String>,
    pub color: Option<String>,
    pub embedding: Option<Vec<F32>>,
}

/// What a `GraphNode` holds.
#[verifier::ext_equal]
pub struct GraphNodeM {
    pub id: Seq<char>,
    pub kind: NodeKind,
    pub label: Seq<char>,
    pub tags: Seq<Seq<char>>,
    pub color: Option<Seq<char>>,
    pub embedding: Option<Seq<F32>>,
}

impl DeepView for GraphNode {
    type V = GraphNodeM;

    open spec fn deep_view(&self) -> GraphNodeM {
        GraphNodeM {
            id: self.id.deep_view(),
            kind: self.kind,
            label: self.label.deep_view(),
            tags: self.tags.deep_view(),
            color: self.color.deep_view(),
            embedding: self.embedding.deep_view(),
        }
    }
}

impl Clone for GraphNode {
    fn clone(&self) -> (r: Self)
        ensures
            r.deep_view() == self.deep_view(),
    {
        GraphNode {
            id: self.id.clone(),
            kind: self.kind,
            label: self.label.clone(),
            tags: self.tags.clone(),
            color: self.color.clone(),
            embedding: self.embedding.clone(),
        }
    }
}

/// A directed edge.
#[derive(Debug, PartialEq)]
pub struct Edge {
    pub from: NodeId,
    pub to: NodeId,
    pub label: Option<String>,
}

/// What a `Edge` holds.
#[verifier::ext_equal]
pub struct EdgeM {
    pub from: Seq<char>,
    pub to: Seq<char>,
    pub label: Option<Seq<char>>,
}

impl DeepView for Edge {
    type V = EdgeM;

    open spec fn deep_view(&self) -> EdgeM {
        EdgeM {
            from: self.from.deep_view(),
            to: self.to.deep_view(),
            label: self.label.deep_view(),
        }
    }
}

impl Clone for Edge {
    fn clone(&self) -> (r: Self)
        ensures
            r.deep_view() == self.deep_view(),
    {
        Edge {
            from: self.from.clone(),
            to: self.to.clone(),
            label: self.label.clone(),
        }
    }
}

/// A graph.
#[derive(Debug, PartialEq)]
pub struct Graph {
    pub id: String,
    pub title: Option<String>,
    pub nodes: Vec<GraphNode>,
    pub edges: Vec<Edge>,
}

/// What a `Graph` holds.
#[verifier::ext_equal]
pub struct GraphM {
    pub id: Seq<char>,
    pub title: Option<Seq<char>>,
    pub nodes: Seq<GraphNodeM>,
    pub edges: Seq<EdgeM>,
}

impl DeepView for Graph {
    type V = GraphM;

    open spec fn deep_view(&self) -> GraphM {
        GraphM {
            id: self.id.deep_view(),
            title: self.title.deep_view(),
            nodes: self.nodes.deep_view(),
            edges: self.edges.deep_view(),
        }
    }
}

impl Clone for Graph {
    fn clone(&self) -> (r: Self)
        ensures
            r.deep_view() == self.deep_view(),
    {
        Graph {
            id: self.id.clone(),
            title: self.title.clone(),
            nodes: self.nodes.clone(),
            edges: self.edges.clone(),
        }
    }
}

/// Why an operation on a graph was refused.
#[derive(Debug, PartialEq)]
pub enum GraphError {
    NotFound(String),
    DuplicateNode(String),
    DuplicateGraph(String),
    CycleDetected,
}

/// What a `GraphError` holds.
#[verifier::ext_equal]
pub enum GraphErrorM {
    NotFound(Seq<char>),
    DuplicateNode(Seq<char>),
    DuplicateGraph(Seq<char>),
    CycleDetected,
}

impl DeepView for GraphError {
    type V = GraphErrorM;

    open spec fn deep_view(&self) -> GraphErrorM {
        match self {
            GraphError::NotFound(x) => GraphErrorM::NotFound(x.deep_view()),
            GraphError::DuplicateNode(x) => GraphErrorM::DuplicateNode(x.deep_view()),
            GraphError::DuplicateGraph(x) => GraphErrorM::DuplicateGraph(x.deep_view()),
            GraphError::CycleDetected => GraphErrorM::CycleDetected,
        }
    }
}

impl Clone for GraphError {
    fn clone(&self) -> (r: Self)
        ensures
            r.deep_view() == self.deep_view(),
    {
        match self {
            GraphError::NotFound(x) => GraphError::NotFound(x.clone()),
            GraphError::DuplicateNode(x) => GraphError::DuplicateNode(x.clone()),
            GraphError::DuplicateGraph(x) => GraphError::DuplicateGraph(x.clone()),
            GraphError::CycleDetected => GraphError::CycleDetected,
        }
    }
}

/// The words of an error.
pub open spec fn graph_error_text(e: GraphErrorM) -> Seq<char> {
    match e {
        GraphErrorM::NotFound(s) => "not found: "@ + s,
        GraphErrorM::DuplicateNode(s) => "duplicate node: "@ + s,
        GraphErrorM::DuplicateGraph(s) => "duplicate graph: "@ + s,
        GraphErrorM::CycleDetected => "cycle detected (DAG required)"@,
    }
}

impl GraphError {
    /// The words of the error.
    pub fn message(&self) -> (r: String)
        ensures
            r@ == graph_error_text(self.deep_view()),
    {
        match self {
            GraphError::NotFound(s) => cat("not found: ", s.as_str()),
            GraphError::DuplicateNode(s) => cat("duplicate node: ", s.as_str()),
            GraphError::DuplicateGraph(s) => cat("duplicate graph: ", s.as_str()),
            GraphError::CycleDetected => "cycle detected (DAG required)".to_owned(),
        }
    }
}

/// What a result of a graph operation holds.
pub open spec fn graph_outcome(r: Result<(), GraphError>) -> Result<(), GraphErrorM> {
    match r {
        Ok(_) => Ok(()),
        Err(e) => Err(e.deep_view()),
    }
}

// ---- Selecting -------------------------------------------------------------

/// Whether a node has the identity.
pub open spec fn is_node(id: Seq<char>) -> spec_fn(GraphNodeM) -> bool {
    |n: GraphNodeM| n.id == id
}

/// Whether a node has another identity.
pub open spec fn is_other_node(id: Seq<char>) -> spec_fn(GraphNodeM) -> bool {
    |n: GraphNodeM| n.id != id
}

/// Whether an edge leaves a node.
pub open spec fn leaves(id: Seq<char>) -> spec_fn(EdgeM) -> bool {
    |e: EdgeM| e.from == id
}

/// Whether an edge enters a node.
pub open spec fn enters(id: Seq<char>) -> spec_fn(EdgeM) -> bool {
    |e: EdgeM| e.to == id
}

/// Whether an edge neither leaves nor enters a node.
pub open spec fn avoids(id: Seq<char>) -> spec_fn(EdgeM) -> bool {
    |e: EdgeM| e.from != id && e.to != id
}

/// Whether an edge does not lead from one node to another.
pub open spec fn is_not_between(from: Seq<char>, to: Seq<char>) -> spec_fn(EdgeM) -> bool {
    |e: EdgeM| e.from != from || e.to != to
}

/// Where the first node with the identity stands.
pub open spec fn node_at(g: GraphM, id: Seq<char>) -> Option<int> {
    first_index(g.nodes, is_node(id))
}

/// The first node with the identity.
pub open spec fn node_of(g: GraphM, id: Seq<char>) -> Option<GraphNodeM> {
    match node_at(g, id) {
        Some(i) => Some(g.nodes[i]),
        None => None,
    }
}

pub proof fn lemma_node_at(g: GraphM, id: Seq<char>)
    ensures
        match node_at(g, id) {
            Some(i) => 0 <= i < g.nodes.len() && g.nodes[i].id == id && node_of(g, id) == Some(
                g.nodes[i],
            ) && forall|j: int| 0 <= j < i ==> (#[trigger] g.nodes[j]).id != id,
            None => node_of(g, id) is None && forall|j: int|
                0 <= j < g.nodes.len() ==> (#[trigger] g.nodes[j]).id != id,
        },
{
    lemma_first_index(g.nodes, is_node(id));
    match node_at(g, id) {
        Some(i) => {
            assert forall|j: int| 0 <= j < i implies (#[trigger] g.nodes[j]).id != id by {
                assert(!is_node(id)(g.nodes[j]));
            }
        },
        None => {
            assert forall|j: int| 0 <= j < g.nodes.len() implies (#[trigger] g.nodes[j]).id
                != id by {
                assert(!is_node(id)(g.nodes[j]));
            }
        },
    }
}

// ---- Nodes and edges -------------------------------------------------------

impl GraphNode {
    pub fn new(id: &str, kind: NodeKind, label: &str) -> (r: GraphNode)
        ensures
            r.deep_view() == (GraphNodeM {
                id: id@,
                kind,
                label: label@,
                tags: seq![],
                color: None,
                embedding: None,
            }),
    {
        let r = GraphNode {
            id: NodeId(id.to_owned()),
            kind,
            label: label.to_owned(),
            tags: Vec::new(),
            color: None,
            embedding: None,
        };
        assert(r.deep_view().tags =~= seq![]);
        r
    }

    /// How many edges of a graph leave the node.
    pub fn out_degree(&self, graph: &Graph) -> (r: usize)
        ensures
            r == keep(graph.deep_view().edges, leaves(self.id.deep_view())).len(),
    {
        graph.edges_from(&self.id).len()
    }

    /// How many edges of a graph enter the node.
    pub fn in_degree(&self, graph: &Graph) -> (r: usize)
        ensures
            r == keep(graph.deep_view().edges, enters(self.id.deep_view())).len(),
    {
        graph.edges_to(&self.id).len()
    }
}

impl Edge {
    pub fn new(from: NodeId, to: NodeId) -> (r: Edge)
        ensures
            r.deep_view() == (EdgeM { from: from.deep_view(), to: to.deep_view(), label: None }),
    {
        Edge { from, to, label: None }
    }

    pub fn id(&self) -> (r: EdgeId)
        ensures
            r.deep_view() == self.from.deep_view() + "-"@ + self.to.deep_view(),
    {
        EdgeId::new(&self.from, &self.to)
    }
}

/// References to values stand for these values.
pub open spec fn refs_view<T: DeepView>(r: Seq<&T>) -> Seq<T::V> {
    Seq::new(r.len(), |i: int| r[i].deep_view())
}

impl Graph {
    pub fn new(id: &str) -> (r: Graph)
        ensures
            r.deep_view() == (GraphM { id: id@, title: None, nodes: seq![], edges: seq![] }),
    {
        let r = Graph { id: id.to_owned(), title: None, nodes: Vec::new(), edges: Vec::new() };
        assert(r.deep_view().nodes =~= seq![]);
        assert(r.deep_view().edges =~= seq![]);
        r
    }

    pub(crate) fn position(&self, id: &NodeId) -> (r: Option<usize>)
        ensures
            match r {
                Some(i) => i < self.nodes@.len() && node_at(self.deep_view(), id.deep_view())
                    == Some(i as int),
                None => node_at(self.deep_view(), id.deep_view()) is None,
            },
    {
        let ghost g = self.deep_view();
        let ghost p = is_node(id.deep_view());
        let mut i: usize = 0;
        while i < self.nodes.len()
            invariant
                i <= self.nodes.len(),
                g == self.deep_view(),
                p == is_node(id.deep_view()),
                forall|j: int| 0 <= j < i ==> !p(#[trigger] g.nodes[j]),
            decreases self.nodes.len() - i,
        {
            assert(g.nodes[i as int] == self.nodes@[i as int].deep_view());
            if self.nodes[i].id.same(id) {
                proof {
                    lemma_first_index_is(g.nodes, p, i as int);
                }
                return Some(i);
            }
            i = i + 1;
        }
        proof {
            lemma_first_index(g.nodes, p);
        }
        None
    }

    /// Adds a node with a new identity.
    pub fn add_node(&mut self, node: GraphNode) -> (r: Result<(), GraphError>)
        ensures
            ({
                let g = old(self).deep_view();
                if node_at(g, node.id.deep_view()) is Some {
                    &&& *final(self) == *old(self)
                    &&& graph_outcome(r) == Err::<(), GraphErrorM>(
                        GraphErrorM::DuplicateNode(node.id.deep_view()),
                    )
                } else {
                    &&& final(self).deep_view() == (GraphM {
                        nodes: g.nodes.push(node.deep_view()),
                        ..g
                    })
                    &&& r is Ok
                }
            }),
    {
        if self.position(&node.id).is_some() {
            return Err(GraphError::DuplicateNode(node.id.0.clone()));
        }
        let ghost ns = self.nodes.deep_view();
        self.nodes.push(node);
        assert(self.nodes.deep_view() =~= ns.push(node.deep_view()));
        Ok(())
    }

    /// Removes a node with all edges at it.
    pub fn remove_node(&mut self, node_id: &NodeId) -> (r: Result<(), GraphError>)
        ensures
            ({
                let g = old(self).deep_view();
                let id = node_id.deep_view();
                if node_at(g, id) is None {
                    &&& *final(self) == *old(self)
                    &&& graph_outcome(r) == Err::<(), GraphErrorM>(
                        GraphErrorM::NotFound("node "@ + id),
                    )
                } else {
                    &&& final(self).deep_view() == without_node(g, id)
                    &&& r is Ok
                }
            }),
    {
        if self.position(node_id).is_none() {
            return Err(GraphError::NotFound(cat("node ", node_id.as_str())));
        }
        let ghost g = self.deep_view();
        let ghost p = is_other_node(node_id.deep_view());
        let mut nodes: Vec<GraphNode> = Vec::new();
        let mut i: usize = 0;
        assert(nodes.deep_view() =~= keep(g.nodes.take(0), p));
        while i < self.nodes.len()
            invariant
                i <= self.nodes.len(),
                g == self.deep_view(),
                p == is_other_node(node_id.deep_view()),
                nodes.deep_view() == keep(g.nodes.take(i as int), p),
            decreases self.nodes.len() - i,
        {
            proof {
                lemma_keep_step(g.nodes, p, i as int);
            }
            let ghost done = nodes.deep_view();
            assert(g.nodes[i as int] == self.nodes@[i as int].deep_view());
            if !self.nodes[i].id.same(node_id) {
                nodes.push(self.nodes[i].clone());
                assert(nodes.deep_view() =~= done.push(g.nodes[i as int]));
            }
            i = i + 1;
        }
        assert(g.nodes.take(i as int) =~= g.nodes);
        let ghost q = avoids(node_id.deep_view());
        let mut edges: Vec<Edge> = Vec::new();
        let mut k: usize = 0;
        assert(edges.deep_view() =~= keep(g.edges.take(0), q));
        while k < self.edges.len()
            invariant
                k <= self.edges.len(),
                g == self.deep_view(),
                q == avoids(node_id.deep_view()),
                edges.deep_view() == keep(g.edges.take(k as int), q),
            decreases self.edges.len() - k,
        {
            proof {
                lemma_keep_step(g.edges, q, k as int);
            }
            let ghost done = edges.deep_view();
            assert(g.edges[k as int] == self.edges@[k as int].deep_view());
            if !self.edges[k].from.same(node_id) && !self.edges[k].to.same(node_id) {
                edges.push(self.edges[k].clone());
                assert(edges.deep_view() =~= done.push(g.edges[k as int]));
            }
            k = k + 1;
        }
        assert(g.edges.take(k as int) =~= g.edges);
        self.nodes = nodes;
        self.edges = edges;
        Ok(())
    }

    /// Changes the label of a node.
    pub fn update_node(&mut self, node_id: &NodeId, label: &str) -> (r: Result<(), GraphError>)
        ensures
            ({
                let g = old(self).deep_view();
                match node_at(g, node_id.deep_view()) {
                    None => *final(self) == *old(self) && graph_outcome(r) == Err::<
                        (),
                        GraphErrorM,
                    >(GraphErrorM::NotFound("node "@ + node_id.deep_view())),
                    Some(i) => final(self).deep_view() == (GraphM {
                        nodes: g.nodes.update(i, GraphNodeM { label: label@, ..g.nodes[i] }),
                        ..g
                    }) && r is Ok,
                }
            }),
    {
        match self.position(node_id) {
            None => Err(GraphError::NotFound(cat("node ", node_id.as_str()))),
            Some(i) => {
                let ghost ns = self.nodes.deep_view();
                self.nodes[i].label = label.to_owned();
                assert(self.nodes.deep_view() =~= ns.update(
                    i as int,
                    GraphNodeM { label: label@, ..ns[i as int] },
                ));
                Ok(())
            },
        }
    }

    pub fn get_node(&self, node_id: &NodeId) -> (r: Option<&GraphNode>)
        ensures
            match r {
                Some(n) => node_of(self.deep_view(), node_id.deep_view()) == Some(n.deep_view()),
                None => node_of(self.deep_view(), node_id.deep_view()) is None,
            },
    {
        match self.position(node_id) {
            Some(i) => Some(&self.nodes[i]),
            None => None,
        }
    }

    /// Adds an edge between two nodes of the graph.
    pub fn add_edge(&mut self, edge: Edge) -> (r: Result<(), GraphError>)
        ensures
            ({
                let g = old(self).deep_view();
                let e = edge.deep_view();
                if node_at(g, e.from) is None {
                    &&& *final(self) == *old(self)
                    &&& graph_outcome(r) == Err::<(), GraphErrorM>(
                        GraphErrorM::NotFound("source node "@ + e.from),
                    )
                } else if node_at(g, e.to) is None {
                    &&& *final(self) == *old(self)
                    &&& graph_outcome(r) == Err::<(), GraphErrorM>(
                        GraphErrorM::NotFound("target node "@ + e.to),
                    )
                } else {
                    &&& final(self).deep_view() == (GraphM { edges: g.edges.push(e), ..g })
                    &&& r is Ok
                }
            }),
    {
        if self.position(&edge.from).is_none() {
            return Err(GraphError::NotFound(cat("source node ", edge.from.as_str())));
        }
        if self.position(&edge.to).is_none() {
            return Err(GraphError::NotFound(cat("target node ", edge.to.as_str())));
        }
        let ghost es = self.edges.deep_view();
        self.edges.push(edge);
        assert(self.edges.deep_view() =~= es.push(edge.deep_view()));
        Ok(())
    }

    /// Removes all edges from one node to another; whether there were any.
    pub fn remove_edge(&mut self, from: &NodeId, to: &NodeId) -> (r: bool)
        ensures
            ({
                let g = old(self).deep_view();
                let left = keep(g.edges, is_not_between(from.deep_view(), to.deep_view()));
                &&& final(self).deep_view() == (GraphM { edges: left, ..g })
                &&& r == (left.len() < g.edges.len())
            }),
    {
        let ghost g = self.deep_view();
        let ghost q = is_not_between(from.deep_view(), to.deep_view());
        let count: usize = self.edges.len();
        let mut edges: Vec<Edge> = Vec::new();
        let mut k: usize = 0;
        assert(edges.deep_view() =~= keep(g.edges.take(0), q));
        while k < self.edges.len()
            invariant
                k <= self.edges.len(),
                g == self.deep_view(),
                q == is_not_between(from.deep_view(), to.deep_view()),
                edges.deep_view() == keep(g.edges.take(k as int), q),
            decreases self.edges.len() - k,
        {
            proof {
                lemma_keep_step(g.edges, q, k as int);
            }
            let ghost done = edges.deep_view();
            assert(g.edges[k as int] == self.edges@[k as int].deep_view());
            if !self.edges[k].from.same(from) || !self.edges[k].to.same(to) {
                edges.push(self.edges[k].clone());
                assert(edges.deep_view() =~= done.push(g.edges[k as int]));
            }
            k = k + 1;
        }
        assert(g.edges.take(k as int) =~= g.edges);
        assert(edges.deep_view().len() == edges@.len());
        self.edges = edges;
        self.edges.len() < count
    }

    /// The edges that leave a node, in order.
    pub fn edges_from(&self, node_id: &NodeId) -> (r: Vec<&Edge>)
        ensures
            refs_view(r@) == keep(self.deep_view().edges, leaves(node_id.deep_view())),
    {
        let ghost es = self.deep_view().edges;
        let ghost p = leaves(node_id.deep_view());
        let mut r: Vec<&Edge> = Vec::new();
        let mut i: usize = 0;
        assert(refs_view(r@) =~= keep(es.take(0), p));
        while i < self.edges.len()
            invariant
                i <= self.edges.len(),
                es == self.deep_view().edges,
                p == leaves(node_id.deep_view()),
                refs_view(r@) == keep(es.take(i as int), p),
            decreases self.edges.len() - i,
        {
            proof {
                lemma_keep_step(es, p, i as int);
            }
            let ghost done = r@;
            assert(es[i as int] == self.edges@[i as int].deep_view());
            if self.edges[i].from.same(node_id) {
                r.push(&self.edges[i]);
                assert(refs_view(r@) =~= refs_view(done).push(es[i as int]));
            }
            i = i + 1;
        }
        assert(es.take(i as int) =~= es);
        r
    }

    /// The edges that enter a node, in order.
    pub fn edges_to(&self, node_id: &NodeId) -> (r: Vec<&Edge>)
        ensures
            refs_view(r@) == keep(self.deep_view().edges, enters(node_id.deep_view())),
    {
        let ghost es = self.deep_view().edges;
        let ghost p = enters(node_id.deep_view());
        let mut r: Vec<&Edge> = Vec::new();
        let mut i: usize = 0;
        assert(refs_view(r@) =~= keep(es.take(0), p));
        while i < self.edges.len()
            invariant
                i <= self.edges.len(),
                es == self.deep_view().edges,
                p == enters(node_id.deep_view()),
                refs_view(r@) == keep(es.take(i as int), p),
            decreases self.edges.len() - i,
        {
            proof {
                lemma_keep_step(es, p, i as int);
            }
            let ghost done = r@;
            assert(es[i as int] == self.edges@[i as int].deep_view());
            if self.edges[i].to.same(node_id) {
                r.push(&self.edges[i]);
                assert(refs_view(r@) =~= refs_view(done).push(es[i as int]));
            }
            i = i + 1;
        }
        assert(es.take(i as int) =~= es);
        r
    }

    /// The nodes that an edge joins to the given one, in the order of the
    /// nodes.
    pub fn neighbors(&self, node: &NodeId) -> (r: Vec<&GraphNode>)
        ensures
            refs_view(r@) == keep(
                self.deep_view().nodes,
                borders(self.deep_view().edges, node.deep_view()),
            ),
    {
        let ghost g = self.deep_view();
        let ghost p = borders(g.edges, node.deep_view());
        let mut r: Vec<&GraphNode> = Vec::new();
        let mut i: usize = 0;
        assert(refs_view(r@) =~= keep(g.nodes.take(0), p));
        while i < self.nodes.len()
            invariant
                i <= self.nodes.len(),
                g == self.deep_view(),
                p == borders(g.edges, node.deep_view()),
                refs_view(r@) == keep(g.nodes.take(i as int), p),
            decreases self.nodes.len() - i,
        {
            proof {
                lemma_keep_step(g.nodes, p, i as int);
            }
            let ghost done = r@;
            assert(g.nodes[i as int] == self.nodes@[i as int].deep_view());
            let mut joined = false;
            let mut k: usize = 0;
            while k < self.edges.len()
                invariant
                    k <= self.edges.len(),
                    i < self.nodes.len(),
                    g == self.deep_view(),
                    g.nodes[i as int] == self.nodes@[i as int].deep_view(),
                    joined == exists|m: int|
                        0 <= m < k && joins(
                            #[trigger] g.edges[m],
                            node.deep_view(),
                            g.nodes[i as int].id,
                        ),
                decreases self.edges.len() - k,
            {
                let e = &self.edges[k];
                assert(g.edges[k as int] == e.deep_view());
                let hit = if e.from.same(node) {
                    e.to.same(&self.nodes[i].id)
                } else {
                    e.to.same(node) && e.from.same(&self.nodes[i].id)
                };
                assert(hit == joins(g.edges[k as int], node.deep_view(), g.nodes[i as int].id));
                if hit {
                    joined = true;
                }
                k = k + 1;
            }
            if joined {
                r.push(&self.nodes[i]);
                assert(refs_view(r@) =~= refs_view(done).push(g.nodes[i as int]));
            }
            i = i + 1;
        }
        assert(g.nodes.take(i as int) =~= g.nodes);
        r
    }

    pub fn node_count(&self) -> (r: usize)
        ensures
            r == self.nodes@.len(),
    {
        self.nodes.len()
    }

    pub fn edge_count(&self) -> (r: usize)
        ensures
            r == self.edges@.len(),
    {
        self.edges.len()
    }
}

/// The graph without a node and without the edges at it.
pub open spec fn without_node(g: GraphM, id: Seq<char>) -> GraphM {
    GraphM { nodes: keep(g.nodes, is_other_node(id)), edges: keep(g.edges, avoids(id)), ..g }
}

/// An edge leads from `a` to `b`, or, unless it leaves `a`, from `b` to `a`.
pub open spec fn joins(e: EdgeM, a: Seq<char>, b: Seq<char>) -> bool {
    if e.from == a {
        e.to == b
    } else {
        e.to == a && e.from == b
    }
}

/// Whether an edge joins a node to the given one.
pub open spec fn borders(es: Seq<EdgeM>, id: Seq<char>) -> spec_fn(GraphNodeM) -> bool {
    |n: GraphNodeM| exists|m: int| 0 <= m < es.len() && joins(#[trigger] es[m], id, n.id)
}

// ---- Laws ------------------------------------------------------------------

/// No two nodes share an identity, and both ends of every edge are nodes.
pub open spec fn sound(g: GraphM) -> bool {
    &&& forall|i: int, j: int|
        0 <= i < j < g.nodes.len() ==> (#[trigger] g.nodes[i]).id != (#[trigger] g.nodes[j]).id
    &&& forall|k: int|
        0 <= k < g.edges.len() ==> node_at(g, (#[trigger] g.edges[k]).from) is Some && node_at(
            g,
            g.edges[k].to,
        ) is Some
}

proof fn lemma_found(g: GraphM, id: Seq<char>, i: int)
    requires
        0 <= i < g.nodes.len(),
        g.nodes[i].id == id,
    ensures
        node_at(g, id) is Some,
{
    lemma_node_at(g, id);
}

/// Adding a node with a new identity keeps a graph sound.
pub proof fn law_add_node_sound(g: GraphM, n: GraphNodeM)
    requires
        sound(g),
        node_at(g, n.id) is None,
    ensures
        sound(GraphM { nodes: g.nodes.push(n), ..g }),
{
    let h = GraphM { nodes: g.nodes.push(n), ..g };
    lemma_node_at(g, n.id);
    assert forall|i: int, j: int| 0 <= i < j < h.nodes.len() implies (#[trigger] h.nodes[i]).id
        != (#[trigger] h.nodes[j]).id by {
        assert(h.nodes[i] == g.nodes[i]);
        if j < g.nodes.len() {
            assert(h.nodes[j] == g.nodes[j]);
        }
    }
    assert forall|k: int| 0 <= k < h.edges.len() implies node_at(h, (#[trigger] h.edges[k]).from)
        is Some && node_at(h, h.edges[k].to) is Some by {
        let e = g.edges[k];
        lemma_node_at(g, e.from);
        lemma_node_at(g, e.to);
        let a = node_at(g, e.from)->0;
        let b = node_at(g, e.to)->0;
        assert(h.nodes[a] == g.nodes[a] && h.nodes[b] == g.nodes[b]);
        lemma_found(h, e.from, a);
        lemma_found(h, e.to, b);
    }
}

/// Adding an edge between nodes keeps a graph sound.
pub proof fn law_add_edge_sound(g: GraphM, e: EdgeM)
    requires
        sound(g),
        node_at(g, e.from) is Some,
        node_at(g, e.to) is Some,
    ensures
        sound(GraphM { edges: g.edges.push(e), ..g }),
{
    let h = GraphM { edges: g.edges.push(e), ..g };
    assert forall|k: int| 0 <= k < h.edges.len() implies node_at(h, (#[trigger] h.edges[k]).from)
        is Some && node_at(h, h.edges[k].to) is Some by {
        if k < g.edges.len() {
            assert(h.edges[k] == g.edges[k]);
        }
    }
}

/// Removing a node with the edges at it keeps a graph sound, and the node and
/// its edges are gone.
pub proof fn law_remove_node_sound(g: GraphM, id: Seq<char>)
    requires
        sound(g),
    ensures
        sound(without_node(g, id)),
        node_at(without_node(g, id), id) is None,
        forall|k: int|
            0 <= k < without_node(g, id).edges.len() ==> (#[trigger] without_node(
                g,
                id,
            ).edges[k]).from != id && without_node(g, id).edges[k].to != id,
{
    let h = without_node(g, id);
    let p = is_other_node(id);
    crate::seqs::lemma_keep_contains(g.nodes, p);
    crate::seqs::lemma_keep_contains(g.edges, avoids(id));
    assert forall|i: int, j: int| 0 <= i < j < h.nodes.len() implies (#[trigger] h.nodes[i]).id
        != (#[trigger] h.nodes[j]).id by {
        let (a, b) = crate::seqs::lemma_keep_order(g.nodes, p, i, j);
        assert(g.nodes[a].id != g.nodes[b].id);
    }
    assert forall|k: int| 0 <= k < h.edges.len() implies node_at(h, (#[trigger] h.edges[k]).from)
        is Some && node_at(h, h.edges[k].to) is Some && h.edges[k].from != id && h.edges[k].to
        != id by {
        let e = h.edges[k];
        assert(h.edges.contains(e));
        assert(avoids(id)(e));
        let m = choose|m: int| 0 <= m < g.edges.len() && g.edges[m] == e;
        assert(node_at(g, g.edges[m].from) is Some);
        lemma_stays(g, id, e.from);
        lemma_stays(g, id, e.to);
    }
    lemma_node_at(h, id);
    if node_at(h, id) is Some {
        let i = node_at(h, id)->0;
        assert(h.nodes.contains(h.nodes[i]));
        assert(p(h.nodes[i]));
    }
}

proof fn lemma_stays(g: GraphM, id: Seq<char>, x: Seq<char>)
    requires
        x != id,
        node_at(g, x) is Some,
    ensures
        node_at(without_node(g, id), x) is Some,
{
    let h = without_node(g, id);
    lemma_node_at(g, x);
    let i = node_at(g, x)->0;
    crate::seqs::lemma_keep_contains(g.nodes, is_other_node(id));
    assert(g.nodes.contains(g.nodes[i]));
    assert(is_other_node(id)(g.nodes[i]));
    assert(h.nodes.contains(g.nodes[i]));
    let j = choose|j: int| 0 <= j < h.nodes.len() && h.nodes[j] == g.nodes[i];
    lemma_found(h, x, j);
}

} // verus!
