//! A store of graphs with indexes over their nodes.

use vstd::prelude::*;

use crate::assoc::{
    bind, find_slot, get, law_bind_lookup, law_unbind_lookup, lookup, put, remove, slot, unbind,
};
use crate::graph::model::{
    graph_outcome, node_at, node_of, refs_view, without_node, Graph, GraphError, GraphErrorM,
    GraphM, GraphNode, GraphNodeM, NodeId, NodeKind,
};
use crate::seqs::{is_not, keep, lemma_keep_step, without};
use crate::text::cat;

verus! {

broadcast use vstd::std_specs::vec::group_vec_axioms;

/// The key of a kind of node.
pub open spec fn kind_key(kind: NodeKind) -> Seq<char> {
    match kind {
        NodeKind::Process => "Process"@,
        NodeKind::Decision => "Decision"@,
        NodeKind::Start => "Start"@,
        NodeKind::End => "End"@,
        NodeKind::Idea => "Idea"@,
        NodeKind::Note => "Note"@,
        NodeKind::Branch => "Branch"@,
        NodeKind::Annotation => "Annotation"@,
    }
}

fn key_of_kind(kind: &NodeKind) -> (r: &'static str)
    ensures
        r@ == kind_key(*kind),
{
    match kind {
        NodeKind::Process => "Process",
        NodeKind::Decision => "Decision",
        NodeKind::Start => "Start",
        NodeKind::End => "End",
        NodeKind::Idea => "Idea",
        NodeKind::Note => "Note",
        NodeKind::Branch => "Branch",
        NodeKind::Annotation => "Annotation",
    }
}

/// Graphs by identity, and indexes of their nodes.
#[derive(Debug, PartialEq)]
pub struct GraphStore {
    pub graphs: Vec<(String, Graph)>,
    /// The graph that a node belongs to.
    pub node_to_graph: Vec<(String, String)>,
    /// The nodes with a tag.
    pub tag_index: Vec<(String, Vec<NodeId>)>,
    /// The nodes of a kind.
    pub type_index: Vec<(String, Vec<NodeId>)>,
}

/// What a `GraphStore` holds.
#[verifier::ext_equal]
pub struct GraphStoreM {
    pub graphs: Seq<(Seq<char>, GraphM)>,
    pub node_to_graph: Seq<(Seq<char>, Seq<char>)>,
    pub tag_index: Seq<(Seq<char>, Seq<Seq<char>>)>,
    pub type_index: Seq<(Seq<char>, Seq<Seq<char>>)>,
}

impl DeepView for GraphStore {
    type V = GraphStoreM;

    open spec fn deep_view(&self) -> GraphStoreM {
        GraphStoreM {
            graphs: self.graphs.deep_view(),
            node_to_graph: self.node_to_graph.deep_view(),
            tag_index: self.tag_index.deep_view(),
            type_index: self.type_index.deep_view(),
        }
    }
}


/// The identities with one more, unless it is among them.
pub open spec fn with_id(ids: Seq<Seq<char>>, id: Seq<char>) -> Seq<Seq<char>> {
    if ids.contains(id) {
        ids
    } else {
        ids.push(id)
    }
}

/// The identities that an index has under a key.
pub open spec fn under_key(m: Seq<(Seq<char>, Seq<Seq<char>>)>, k: Seq<char>) -> Seq<Seq<char>> {
    match lookup(m, k) {
        Some(ids) => ids,
        None => seq![],
    }
}

/// An index with an identity entered under a key.
pub open spec fn entered(
    m: Seq<(Seq<char>, Seq<Seq<char>>)>,
    k: Seq<char>,
    id: Seq<char>,
) -> Seq<(Seq<char>, Seq<Seq<char>>)> {
    bind(m, k, with_id(under_key(m, k), id))
}

/// An index with an identity taken out from under a key.
pub open spec fn struck(
    m: Seq<(Seq<char>, Seq<Seq<char>>)>,
    k: Seq<char>,
    id: Seq<char>,
) -> Seq<(Seq<char>, Seq<Seq<char>>)> {
    match lookup(m, k) {
        Some(ids) => bind(m, k, without(ids, id)),
        None => m,
    }
}

/// An index with an identity entered under several keys.
pub open spec fn entered_all(
    m: Seq<(Seq<char>, Seq<Seq<char>>)>,
    ks: Seq<Seq<char>>,
    id: Seq<char>,
) -> Seq<(Seq<char>, Seq<Seq<char>>)>
    decreases ks.len(),
{
    if ks.len() == 0 {
        m
    } else {
        entered(entered_all(m, ks.drop_last(), id), ks.last(), id)
    }
}

/// An index with an identity taken out from under several keys.
pub open spec fn struck_all(
    m: Seq<(Seq<char>, Seq<Seq<char>>)>,
    ks: Seq<Seq<char>>,
    id: Seq<char>,
) -> Seq<(Seq<char>, Seq<Seq<char>>)>
    decreases ks.len(),
{
    if ks.len() == 0 {
        m
    } else {
        struck(struck_all(m, ks.drop_last(), id), ks.last(), id)
    }
}

/// The store with a node indexed.
pub open spec fn indexed(s: GraphStoreM, graph_id: Seq<char>, n: GraphNodeM) -> GraphStoreM {
    GraphStoreM {
        node_to_graph: bind(s.node_to_graph, n.id, graph_id),
        tag_index: entered_all(s.tag_index, n.tags, n.id),
        type_index: entered(s.type_index, kind_key(n.kind), n.id),
        ..s
    }
}

/// The store with a node taken out of the indexes.
pub open spec fn deindexed(s: GraphStoreM, n: GraphNodeM) -> GraphStoreM {
    GraphStoreM {
        node_to_graph: unbind(s.node_to_graph, n.id),
        tag_index: struck_all(s.tag_index, n.tags, n.id),
        type_index: struck(s.type_index, kind_key(n.kind), n.id),
        ..s
    }
}

/// The store with several nodes indexed.
pub open spec fn indexed_all(s: GraphStoreM, graph_id: Seq<char>, ns: Seq<GraphNodeM>) -> GraphStoreM
    decreases ns.len(),
{
    if ns.len() == 0 {
        s
    } else {
        indexed(indexed_all(s, graph_id, ns.drop_last()), graph_id, ns.last())
    }
}

/// The store with several nodes taken out of the indexes.
pub open spec fn deindexed_all(s: GraphStoreM, ns: Seq<GraphNodeM>) -> GraphStoreM
    decreases ns.len(),
{
    if ns.len() == 0 {
        s
    } else {
        deindexed(deindexed_all(s, ns.drop_last()), ns.last())
    }
}

/// The node with an identity, in the graph that the index names.
pub open spec fn node_in_store(s: GraphStoreM, id: Seq<char>) -> Option<GraphNodeM> {
    match lookup(s.node_to_graph, id) {
        Some(gid) => match lookup(s.graphs, gid) {
            Some(g) => node_of(g, id),
            None => None,
        },
        None => None,
    }
}

/// The nodes that identities belong to, in order.
pub open spec fn nodes_in_store(s: GraphStoreM, ids: Seq<Seq<char>>) -> Seq<GraphNodeM>
    decreases ids.len(),
{
    if ids.len() == 0 {
        seq![]
    } else {
        match node_in_store(s, ids.last()) {
            Some(n) => nodes_in_store(s, ids.drop_last()).push(n),
            None => nodes_in_store(s, ids.drop_last()),
        }
    }
}

/// The store after a graph was added.
pub open spec fn created(s: GraphStoreM, g: GraphM) -> GraphStoreM {
    let t = indexed_all(s, g.id, g.nodes);
    GraphStoreM { graphs: bind(t.graphs, g.id, g), ..t }
}

/// The store after the graph with an identity was removed, if there was one.
pub open spec fn deleted(s: GraphStoreM, id: Seq<char>) -> GraphStoreM {
    match lookup(s.graphs, id) {
        Some(g) => deindexed_all(GraphStoreM { graphs: unbind(s.graphs, id), ..s }, g.nodes),
        None => s,
    }
}

/// The store after a node was added to a graph.
pub open spec fn node_added(s: GraphStoreM, graph_id: Seq<char>, n: GraphNodeM) -> (
    GraphStoreM,
    Result<(), GraphErrorM>,
) {
    match lookup(s.graphs, graph_id) {
        None => (s, Err(GraphErrorM::NotFound("graph "@ + graph_id))),
        Some(g) => if node_at(g, n.id) is Some {
            (s, Err(GraphErrorM::DuplicateNode(n.id)))
        } else {
            let h = GraphM { nodes: g.nodes.push(n), ..g };
            let t = GraphStoreM { graphs: bind(s.graphs, graph_id, h), ..s };
            (indexed(t, graph_id, n), Ok(()))
        },
    }
}

/// The store after a node was removed from a graph.
pub open spec fn node_removed(s: GraphStoreM, graph_id: Seq<char>, id: Seq<char>) -> (
    GraphStoreM,
    Result<(), GraphErrorM>,
) {
    match lookup(s.graphs, graph_id) {
        None => (s, Err(GraphErrorM::NotFound("graph "@ + graph_id))),
        Some(g) => match node_of(g, id) {
            None => (s, Ok(())),
            Some(n) => {
                let t = GraphStoreM {
                    graphs: bind(s.graphs, graph_id, without_node(g, id)),
                    ..s
                };
                (deindexed(t, n), Ok(()))
            },
        },
    }
}

fn has_id(ids: &Vec<NodeId>, id: &NodeId) -> (r: bool)
    ensures
        r == ids.deep_view().contains(id.deep_view()),
{
    let ghost all = ids.deep_view();
    let mut i: usize = 0;
    while i < ids.len()
        invariant
            i <= ids.len(),
            all == ids.deep_view(),
            forall|j: int| 0 <= j < i ==> #[trigger] all[j] != id.deep_view(),
        decreases ids.len() - i,
    {
        assert(all[i as int] == ids@[i as int].deep_view());
        if ids[i].same(id) {
            assert(all[i as int] == id.deep_view());
            return true;
        }
        i = i + 1;
    }
    false
}

fn enter(m: &mut Vec<(String, Vec<NodeId>)>, k: &str, id: &NodeId)
    ensures
        final(m).deep_view() == entered(old(m).deep_view(), k@, id.deep_view()),
{
    let mut ids = match get(m, k) {
        Some(ids) => ids.clone(),
        None => Vec::new(),
    };
    assert(ids.deep_view() =~= under_key(m.deep_view(), k@));
    if !has_id(&ids, id) {
        let ghost before = ids.deep_view();
        ids.push(id.clone());
        assert(ids.deep_view() =~= before.push(id.deep_view()));
    }
    put(m, k, ids);
}

fn strike(m: &mut Vec<(String, Vec<NodeId>)>, k: &str, id: &NodeId)
    ensures
        final(m).deep_view() == struck(old(m).deep_view(), k@, id.deep_view()),
{
    let mut left: Vec<NodeId> = Vec::new();
    let mut found = false;
    if let Some(ids) = get(m, k) {
        found = true;
        let ghost all = ids.deep_view();
        let ghost p = is_not(id.deep_view());
        let mut i: usize = 0;
        assert(left.deep_view() =~= keep(all.take(0), p));
        while i < ids.len()
            invariant
                i <= ids.len(),
                all == ids.deep_view(),
                p == is_not(id.deep_view()),
                left.deep_view() == keep(all.take(i as int), p),
            decreases ids.len() - i,
        {
            proof {
                lemma_keep_step(all, p, i as int);
            }
            let ghost done = left.deep_view();
            assert(all[i as int] == ids@[i as int].deep_view());
            if !ids[i].same(id) {
                left.push(ids[i].clone());
                assert(left.deep_view() =~= done.push(all[i as int]));
            }
            i = i + 1;
        }
        assert(all.take(i as int) =~= all);
    }
    if found {
        put(m, k, left);
    }
}

impl GraphStore {
    pub fn new() -> (r: GraphStore)
        ensures
            r.deep_view() == (GraphStoreM {
                graphs: seq![],
                node_to_graph: seq![],
                tag_index: seq![],
                type_index: seq![],
            }),
    {
        let r = GraphStore {
            graphs: Vec::new(),
            node_to_graph: Vec::new(),
            tag_index: Vec::new(),
            type_index: Vec::new(),
        };
        assert(r.graphs.deep_view() =~= seq![]);
        assert(r.node_to_graph.deep_view() =~= seq![]);
        assert(r.tag_index.deep_view() =~= seq![]);
        assert(r.type_index.deep_view() =~= seq![]);
        r
    }

    fn index_node(&mut self, graph_id: &str, node: &GraphNode)
        ensures
            final(self).deep_view() == indexed(old(self).deep_view(), graph_id@, node.deep_view()),
    {
        let ghost s = self.deep_view();
        put(&mut self.node_to_graph, node.id.as_str(), graph_id.to_owned());
        let ghost tags = node.tags.deep_view();
        let mut i: usize = 0;
        while i < node.tags.len()
            invariant
                i <= node.tags.len(),
                tags == node.tags.deep_view(),
                self.deep_view() == (GraphStoreM {
                    node_to_graph: bind(s.node_to_graph, node.id.deep_view(), graph_id@),
                    tag_index: entered_all(
                        s.tag_index,
                        tags.take(i as int),
                        node.id.deep_view(),
                    ),
                    ..s
                }),
            decreases node.tags.len() - i,
        {
            assert(tags.take(i + 1).drop_last() =~= tags.take(i as int));
            assert(tags.take(i + 1).last() == node.tags@[i as int]@);
            enter(&mut self.tag_index, node.tags[i].as_str(), &node.id);
            i = i + 1;
        }
        assert(tags.take(i as int) =~= tags);
        enter(&mut self.type_index, key_of_kind(&node.kind), &node.id);
    }

    fn deindex_node(&mut self, node: &GraphNode)
        ensures
            final(self).deep_view() == deindexed(old(self).deep_view(), node.deep_view()),
    {
        let ghost s = self.deep_view();
        remove(&mut self.node_to_graph, node.id.as_str());
        let ghost tags = node.tags.deep_view();
        let mut i: usize = 0;
        while i < node.tags.len()
            invariant
                i <= node.tags.len(),
                tags == node.tags.deep_view(),
                self.deep_view() == (GraphStoreM {
                    node_to_graph: unbind(s.node_to_graph, node.id.deep_view()),
                    tag_index: struck_all(
                        s.tag_index,
                        tags.take(i as int),
                        node.id.deep_view(),
                    ),
                    ..s
                }),
            decreases node.tags.len() - i,
        {
            assert(tags.take(i + 1).drop_last() =~= tags.take(i as int));
            assert(tags.take(i + 1).last() == node.tags@[i as int]@);
            strike(&mut self.tag_index, node.tags[i].as_str(), &node.id);
            i = i + 1;
        }
        assert(tags.take(i as int) =~= tags);
        strike(&mut self.type_index, key_of_kind(&node.kind), &node.id);
    }

    /// Adds a graph with a new identity.
    pub fn create(&mut self, graph: Graph) -> (r: Result<(), GraphError>)
        ensures
            if lookup(old(self).deep_view().graphs, graph.id@) is Some {
                *final(self) == *old(self) && graph_outcome(r) == Err::<(), GraphErrorM>(
                    GraphErrorM::DuplicateGraph(graph.id@),
                )
            } else {
                final(self).deep_view() == created(old(self).deep_view(), graph.deep_view()) && r
                    is Ok
            },
    {
        if find_slot(&self.graphs, graph.id.as_str()).is_some() {
            return Err(GraphError::DuplicateGraph(graph.id.clone()));
        }
        let ghost s = self.deep_view();
        let ghost g = graph.deep_view();
        let mut i: usize = 0;
        while i < graph.nodes.len()
            invariant
                i <= graph.nodes.len(),
                g == graph.deep_view(),
                self.deep_view() == indexed_all(s, g.id, g.nodes.take(i as int)),
            decreases graph.nodes.len() - i,
        {
            assert(g.nodes.take(i + 1).drop_last() =~= g.nodes.take(i as int));
            assert(g.nodes.take(i + 1).last() == graph.nodes@[i as int].deep_view());
            self.index_node(graph.id.as_str(), &graph.nodes[i]);
            i = i + 1;
        }
        assert(g.nodes.take(i as int) =~= g.nodes);
        let id = graph.id.clone();
        put(&mut self.graphs, id.as_str(), graph);
        Ok(())
    }

    pub fn get(&self, id: &str) -> (r: Option<&Graph>)
        ensures
            match r {
                Some(g) => lookup(self.deep_view().graphs, id@) == Some(g.deep_view()),
                None => lookup(self.deep_view().graphs, id@) is None,
            },
    {
        get(&self.graphs, id)
    }

    /// The graph with an identity, to be changed in its place. The indexes do
    /// not follow such changes.
    pub fn get_mut(&mut self, id: &str) -> (r: Option<&mut Graph>)
        ensures
            match r {
                Some(g) => {
                    let at = slot(old(self).deep_view().graphs, id@);
                    &&& at is Some
                    &&& 0 <= at->0 < old(self).graphs@.len()
                    &&& *g == old(self).graphs@[at->0].1
                    &&& final(self).graphs@ == old(self).graphs@.update(
                        at->0,
                        (old(self).graphs@[at->0].0, *final(g)),
                    )
                    &&& final(self).deep_view() == (GraphStoreM {
                        graphs: final(self).deep_view().graphs,
                        ..old(self).deep_view()
                    })
                },
                None => slot(old(self).deep_view().graphs, id@) is None && *final(self) == *old(
                    self,
                ),
            },
    {
        match find_slot(&self.graphs, id) {
            Some(i) => Some(&mut self.graphs[i].1),
            None => None,
        }
    }

    /// Removes a graph with its nodes from the indexes; whether there was one.
    pub fn delete(&mut self, id: &str) -> (r: bool)
        ensures
            r == (lookup(old(self).deep_view().graphs, id@) is Some),
            final(self).deep_view() == deleted(old(self).deep_view(), id@),
            !r ==> *final(self) == *old(self),
    {
        let graph = match get(&self.graphs, id) {
            Some(g) => g.clone(),
            None => {
                return false;
            },
        };
        remove(&mut self.graphs, id);
        let ghost s = self.deep_view();
        let ghost g = graph.deep_view();
        let mut i: usize = 0;
        while i < graph.nodes.len()
            invariant
                i <= graph.nodes.len(),
                g == graph.deep_view(),
                self.deep_view() == deindexed_all(s, g.nodes.take(i as int)),
            decreases graph.nodes.len() - i,
        {
            assert(g.nodes.take(i + 1).drop_last() =~= g.nodes.take(i as int));
            assert(g.nodes.take(i + 1).last() == graph.nodes@[i as int].deep_view());
            self.deindex_node(&graph.nodes[i]);
            i = i + 1;
        }
        assert(g.nodes.take(i as int) =~= g.nodes);
        true
    }

    /// All graphs.
    pub fn list(&self) -> (r: Vec<&Graph>)
        ensures
            r@.len() == self.graphs@.len(),
            forall|i: int| 0 <= i < r@.len() ==> *(#[trigger] r@[i]) == self.graphs@[i].1,
    {
        let mut r: Vec<&Graph> = Vec::new();
        let mut i: usize = 0;
        while i < self.graphs.len()
            invariant
                i <= self.graphs.len(),
                r@.len() == i,
                forall|k: int| 0 <= k < i ==> *(#[trigger] r@[k]) == self.graphs@[k].1,
            decreases self.graphs.len() - i,
        {
            r.push(&self.graphs[i].1);
            i = i + 1;
        }
        r
    }

    pub fn len(&self) -> (r: usize)
        ensures
            r == self.graphs@.len(),
    {
        self.graphs.len()
    }

    pub fn is_empty(&self) -> (r: bool)
        ensures
            r == (self.graphs@.len() == 0),
    {
        self.graphs.len() == 0
    }

    /// Adds a node to a graph and indexes it.
    pub fn add_node(&mut self, graph_id: &str, node: GraphNode) -> (r: Result<(), GraphError>)
        ensures
            (final(self).deep_view(), graph_outcome(r)) == node_added(
                old(self).deep_view(),
                graph_id@,
                node.deep_view(),
            ),
    {
        let mut graph = match get(&self.graphs, graph_id) {
            Some(g) => g.clone(),
            None => {
                return Err(GraphError::NotFound(cat("graph ", graph_id)));
            },
        };
        match graph.add_node(node.clone()) {
            Err(e) => Err(e),
            Ok(_) => {
                put(&mut self.graphs, graph_id, graph);
                self.index_node(graph_id, &node);
                Ok(())
            },
        }
    }

    /// Removes a node from a graph and from the indexes. A node that is not
    /// there is no error.
    pub fn remove_node(&mut self, graph_id: &str, node_id: &NodeId) -> (r: Result<(), GraphError>)
        ensures
            (final(self).deep_view(), graph_outcome(r)) == node_removed(
                old(self).deep_view(),
                graph_id@,
                node_id.deep_view(),
            ),
    {
        let mut graph = match get(&self.graphs, graph_id) {
            Some(g) => g.clone(),
            None => {
                return Err(GraphError::NotFound(cat("graph ", graph_id)));
            },
        };
        let node = match graph.get_node(node_id) {
            Some(n) => n.clone(),
            None => {
                return Ok(());
            },
        };
        match graph.remove_node(node_id) {
            Err(e) => Err(e),
            Ok(_) => {
                put(&mut self.graphs, graph_id, graph);
                self.deindex_node(&node);
                Ok(())
            },
        }
    }

    fn nodes_for(&self, ids: &Vec<NodeId>) -> (r: Vec<&GraphNode>)
        ensures
            refs_view(r@) == nodes_in_store(self.deep_view(), ids.deep_view()),
    {
        let ghost s = self.deep_view();
        let ghost all = ids.deep_view();
        let mut r: Vec<&GraphNode> = Vec::new();
        let mut i: usize = 0;
        assert(refs_view(r@) =~= nodes_in_store(s, all.take(0)));
        while i < ids.len()
            invariant
                i <= ids.len(),
                s == self.deep_view(),
                all == ids.deep_view(),
                refs_view(r@) == nodes_in_store(s, all.take(i as int)),
            decreases ids.len() - i,
        {
            assert(all.take(i + 1).drop_last() =~= all.take(i as int));
            assert(all.take(i + 1).last() == ids@[i as int].deep_view());
            let ghost done = r@;
            if let Some(n) = self.find_node(&ids[i]) {
                r.push(n);
                assert(refs_view(r@) =~= refs_view(done).push(n.deep_view()));
            }
            i = i + 1;
        }
        assert(all.take(i as int) =~= all);
        r
    }

    /// The nodes with a tag, in all graphs.
    pub fn by_tag(&self, tag: &str) -> (r: Vec<&GraphNode>)
        ensures
            refs_view(r@) == nodes_in_store(
                self.deep_view(),
                under_key(self.deep_view().tag_index, tag@),
            ),
    {
        match get(&self.tag_index, tag) {
            Some(ids) => self.nodes_for(ids),
            None => {
                let r: Vec<&GraphNode> = Vec::new();
                assert(refs_view(r@) =~= seq![]);
                r
            },
        }
    }

    /// The nodes of a kind, in all graphs.
    pub fn by_type(&self, kind: &NodeKind) -> (r: Vec<&GraphNode>)
        ensures
            refs_view(r@) == nodes_in_store(
                self.deep_view(),
                under_key(self.deep_view().type_index, kind_key(*kind)),
            ),
    {
        match get(&self.type_index, key_of_kind(kind)) {
            Some(ids) => self.nodes_for(ids),
            None => {
                let r: Vec<&GraphNode> = Vec::new();
                assert(refs_view(r@) =~= seq![]);
                r
            },
        }
    }

    /// All nodes of a graph.
    pub fn nodes_of_graph(&self, graph_id: &str) -> (r: Vec<&GraphNode>)
        ensures
            refs_view(r@) == (match lookup(self.deep_view().graphs, graph_id@) {
                Some(g) => g.nodes,
                None => seq![],
            }),
    {
        let mut r: Vec<&GraphNode> = Vec::new();
        if let Some(g) = get(&self.graphs, graph_id) {
            let mut i: usize = 0;
            while i < g.nodes.len()
                invariant
                    i <= g.nodes.len(),
                    r@.len() == i,
                    forall|k: int| 0 <= k < i ==> *(#[trigger] r@[k]) == g.nodes@[k],
                decreases g.nodes.len() - i,
            {
                r.push(&g.nodes[i]);
                i = i + 1;
            }
            assert(refs_view(r@) =~= g.deep_view().nodes);
        } else {
            assert(refs_view(r@) =~= seq![]);
        }
        r
    }

    /// The node with an identity, in the graph that the index names.
    pub fn find_node(&self, node_id: &NodeId) -> (r: Option<&GraphNode>)
        ensures
            match r {
                Some(n) => node_in_store(self.deep_view(), node_id.deep_view()) == Some(
                    n.deep_view(),
                ),
                None => node_in_store(self.deep_view(), node_id.deep_view()) is None,
            },
    {
        match get(&self.node_to_graph, node_id.as_str()) {
            Some(gid) => match get(&self.graphs, gid.as_str()) {
                Some(g) => g.get_node(node_id),
                None => None,
            },
            None => None,
        }
    }
}

// ---- Laws ------------------------------------------------------------------

proof fn lemma_entered_all(
    m: Seq<(Seq<char>, Seq<Seq<char>>)>,
    ks: Seq<Seq<char>>,
    id: Seq<char>,
    i: int,
)
    requires
        0 <= i < ks.len(),
    ensures
        under_key(entered_all(m, ks, id), ks[i]).contains(id),
    decreases ks.len(),
{
    let d = ks.drop_last();
    let f = entered_all(m, d, id);
    let ids = under_key(f, ks.last());
    law_bind_lookup(f, ks.last(), with_id(ids, id), ks[i]);
    if ks[i] == ks.last() {
        if !ids.contains(id) {
            assert(ids.push(id)[ids.len() as int] == id);
        }
    } else {
        assert(d[i] == ks[i]);
        lemma_entered_all(m, d, id, i);
    }
}

/// A node that was added is found, under its identity, under each of its tags
/// and under its kind.
pub proof fn law_added_node_found(s: GraphStoreM, graph_id: Seq<char>, n: GraphNodeM, i: int)
    requires
        node_added(s, graph_id, n).1 is Ok,
    ensures
        node_in_store(node_added(s, graph_id, n).0, n.id) == Some(n),
        0 <= i < n.tags.len() ==> under_key(
            node_added(s, graph_id, n).0.tag_index,
            n.tags[i],
        ).contains(n.id),
        under_key(node_added(s, graph_id, n).0.type_index, kind_key(n.kind)).contains(n.id),
{
    let g = lookup(s.graphs, graph_id)->0;
    let h = GraphM { nodes: g.nodes.push(n), ..g };
    let t = node_added(s, graph_id, n).0;
    law_bind_lookup(s.graphs, graph_id, h, graph_id);
    law_bind_lookup(s.node_to_graph, n.id, graph_id, n.id);
    crate::graph::model::lemma_node_at(g, n.id);
    crate::graph::model::lemma_node_at(h, n.id);
    assert(h.nodes[g.nodes.len() as int] == n);
    let k = node_at(h, n.id)->0;
    if k < g.nodes.len() {
        assert(h.nodes[k] == g.nodes[k]);
    }
    if 0 <= i < n.tags.len() {
        lemma_entered_all(s.tag_index, n.tags, n.id, i);
    }
    let ids = under_key(s.type_index, kind_key(n.kind));
    law_bind_lookup(s.type_index, kind_key(n.kind), with_id(ids, n.id), kind_key(n.kind));
    if !ids.contains(n.id) {
        assert(ids.push(n.id)[ids.len() as int] == n.id);
    }
}

/// A node that was removed is no longer found.
pub proof fn law_removed_node_gone(s: GraphStoreM, graph_id: Seq<char>, id: Seq<char>)
    requires
        lookup(s.graphs, graph_id) is Some,
        node_of(lookup(s.graphs, graph_id)->0, id) is Some,
    ensures
        node_in_store(node_removed(s, graph_id, id).0, id) is None,
{
    let g = lookup(s.graphs, graph_id)->0;
    let n = node_of(g, id)->0;
    crate::graph::model::lemma_node_at(g, id);
    law_unbind_lookup(s.node_to_graph, n.id, n.id);
}

} // verus!
