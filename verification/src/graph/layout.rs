//! Layouts of a graph, up to the scale that they are drawn in.

use vstd::prelude::*;

use crate::assoc::{bind, get, law_bind_lookup, lookup, put};
use crate::graph::model::{refs_view, EdgeM, Graph, GraphM, GraphNode, GraphNodeM, NodeId};
use crate::graph::order::{along_edges, sortable};
use crate::graph::walk::targets;

verus! {

broadcast use vstd::std_specs::vec::group_vec_axioms;

// ---- Layers ----------------------------------------------------------------

/// The highest layer, so far, of a node with an edge to `id`; zero if there is
/// none.
pub open spec fn parent_layer(
    es: Seq<EdgeM>,
    layers: Seq<(Seq<char>, usize)>,
    id: Seq<char>,
) -> usize
    decreases es.len(),
{
    if es.len() == 0 {
        0
    } else {
        let rest = parent_layer(es.drop_last(), layers, id);
        if es.last().to == id {
            match lookup(layers, es.last().from) {
                Some(l) => if l > rest {
                    l
                } else {
                    rest
                },
                None => rest,
            }
        } else {
            rest
        }
    }
}

/// The layers of nodes, taken in order: one more than the highest layer that
/// an edge comes from.
pub open spec fn layers_of(g: GraphM, ids: Seq<Seq<char>>) -> Seq<(Seq<char>, usize)>
    decreases ids.len(),
{
    if ids.len() == 0 {
        seq![]
    } else {
        let before = layers_of(g, ids.drop_last());
        bind(before, ids.last(), (parent_layer(g.edges, before, ids.last()) + 1) as usize)
    }
}

/// How many of the first `n` nodes lie in a layer.
pub open spec fn crowd(
    layers: Seq<(Seq<char>, usize)>,
    ids: Seq<Seq<char>>,
    n: int,
    layer: usize,
) -> nat
    decreases n,
{
    if n <= 0 {
        0
    } else if lookup(layers, ids[n - 1]) == Some(layer) {
        crowd(layers, ids, n - 1, layer) + 1
    } else {
        crowd(layers, ids, n - 1, layer)
    }
}

/// The place of a node: its layer, and how many nodes of the layer stand left
/// of it.
#[derive(Debug, PartialEq)]
pub struct LayerSlot {
    pub id: NodeId,
    pub layer: usize,
    pub index: usize,
}

/// What a `LayerSlot` holds.
#[verifier::ext_equal]
pub struct LayerSlotM {
    pub id: Seq<char>,
    pub layer: usize,
    pub index: usize,
}

impl DeepView for LayerSlot {
    type V = LayerSlotM;

    open spec fn deep_view(&self) -> LayerSlotM {
        LayerSlotM {
            id: self.id.deep_view(),
            layer: self.layer,
            index: self.index,
        }
    }
}

impl Clone for LayerSlot {
    fn clone(&self) -> (r: Self)
        ensures
            r.deep_view() == self.deep_view(),
    {
        LayerSlot {
            id: self.id.clone(),
            layer: self.layer,
            index: self.index,
        }
    }
}

/// The places of nodes, taken in order.
pub open spec fn slots_of(g: GraphM, ids: Seq<Seq<char>>) -> Seq<LayerSlotM> {
    let layers = layers_of(g, ids);
    Seq::new(
        ids.len(),
        |i: int|
            {
                let layer = match lookup(layers, ids[i]) {
                    Some(l) => l,
                    None => 0,
                };
                LayerSlotM {
                    id: ids[i],
                    layer,
                    index: crowd(layers, ids, i, layer) as usize,
                }
            },
    )
}

/// The identities of nodes.
pub open spec fn node_ids(ns: Seq<GraphNodeM>) -> Seq<Seq<char>> {
    Seq::new(ns.len(), |i: int| ns[i].id)
}

proof fn lemma_crowd_bound(
    layers: Seq<(Seq<char>, usize)>,
    ids: Seq<Seq<char>>,
    n: int,
    layer: usize,
)
    requires
        0 <= n,
    ensures
        crowd(layers, ids, n, layer) <= n,
    decreases n,
{
    if n > 0 {
        lemma_crowd_bound(layers, ids, n - 1, layer);
    }
}

/// A node that is in the list has a layer.
pub proof fn lemma_layered(g: GraphM, ids: Seq<Seq<char>>, x: Seq<char>)
    ensures
        ids.contains(x) ==> lookup(layers_of(g, ids), x) is Some,
        lookup(layers_of(g, ids), x) matches Some(l) ==> l <= ids.len(),
    decreases ids.len(),
{
    if ids.len() > 0 {
        let d = ids.drop_last();
        let before = layers_of(g, d);
        let l = (parent_layer(g.edges, before, ids.last()) + 1) as usize;
        law_bind_lookup(before, ids.last(), l, x);
        lemma_layered(g, d, x);
        lemma_parent_bound(g, d, ids.last(), g.edges);
        if ids.contains(x) && x != ids.last() {
            let k = choose|k: int| 0 <= k < ids.len() && ids[k] == x;
            assert(d[k] == x);
        }
    } else {
        crate::assoc::lemma_slot(layers_of(g, ids), x);
    }
}

pub proof fn lemma_parent_bound(g: GraphM, ids: Seq<Seq<char>>, id: Seq<char>, es: Seq<EdgeM>)
    ensures
        parent_layer(es, layers_of(g, ids), id) <= ids.len(),
    decreases ids.len(), es.len() + 1,
{
    if es.len() > 0 {
        lemma_parent_bound(g, ids, id, es.drop_last());
        lemma_layered_bound(g, ids, es.last().from);
    }
}

proof fn lemma_layered_bound(g: GraphM, ids: Seq<Seq<char>>, x: Seq<char>)
    ensures
        lookup(layers_of(g, ids), x) matches Some(l) ==> l <= ids.len(),
    decreases ids.len(), 0nat,
{
    if ids.len() > 0 {
        let d = ids.drop_last();
        let before = layers_of(g, d);
        lemma_parent_bound(g, d, ids.last(), g.edges);
        law_bind_lookup(
            before,
            ids.last(),
            (parent_layer(g.edges, before, ids.last()) + 1) as usize,
            x,
        );
        lemma_layered_bound(g, d, x);
    } else {
        crate::assoc::lemma_slot(layers_of(g, ids), x);
    }
}

impl Graph {
    fn highest_parent(&self, layers: &Vec<(String, usize)>, id: &NodeId) -> (r: usize)
        ensures
            r == parent_layer(self.deep_view().edges, layers.deep_view(), id.deep_view()),
    {
        let ghost es = self.deep_view().edges;
        let mut best: usize = 0;
        let mut i: usize = 0;
        while i < self.edges.len()
            invariant
                es == self.deep_view().edges,
                i <= self.edges.len(),
                best == parent_layer(es.take(i as int), layers.deep_view(), id.deep_view()),
            decreases self.edges.len() - i,
        {
            assert(es.take(i + 1).drop_last() =~= es.take(i as int));
            assert(es.take(i + 1).last() == self.edges@[i as int].deep_view());
            if self.edges[i].to.same(id) {
                if let Some(l) = get(layers, self.edges[i].from.as_str()) {
                    if *l > best {
                        best = *l;
                    }
                }
            }
            i = i + 1;
        }
        assert(es.take(i as int) =~= es);
        best
    }

    /// The places of nodes, taken in the given order.
    pub fn slots_along(&self, order: &Vec<&GraphNode>) -> (r: Vec<LayerSlot>)
        requires
            order@.len() < usize::MAX,
        ensures
            r.deep_view() == slots_of(self.deep_view(), node_ids(refs_view(order@))),
    {
        let ghost g = self.deep_view();
        let ghost ids = node_ids(refs_view(order@));
        let mut layers: Vec<(String, usize)> = Vec::new();
        let mut i: usize = 0;
        assert(layers.deep_view() =~= layers_of(g, ids.take(0)));
        while i < order.len()
            invariant
                g == self.deep_view(),
                ids == node_ids(refs_view(order@)),
                order@.len() < usize::MAX,
                i <= order.len(),
                layers.deep_view() == layers_of(g, ids.take(i as int)),
            decreases order.len() - i,
        {
            assert(ids.take(i + 1).drop_last() =~= ids.take(i as int));
            assert(ids.take(i + 1).last() == order@[i as int].id.deep_view());
            proof {
                lemma_parent_bound(g, ids.take(i as int), order@[i as int].id.deep_view(), g.edges);
            }
            let top = self.highest_parent(&layers, &order[i].id);
            put(&mut layers, order[i].id.as_str(), top + 1);
            i = i + 1;
        }
        assert(ids.take(i as int) =~= ids);
        let ghost table = layers.deep_view();
        let mut r: Vec<LayerSlot> = Vec::new();
        let mut k: usize = 0;
        while k < order.len()
            invariant
                g == self.deep_view(),
                ids == node_ids(refs_view(order@)),
                k <= order.len(),
                layers.deep_view() == table,
                table == layers_of(g, ids),
                r@.len() == k,
                forall|j: int| 0 <= j < k ==> (#[trigger] r@[j]).deep_view() == slots_of(g, ids)[j],
            decreases order.len() - k,
        {
            assert(ids[k as int] == order@[k as int].id.deep_view());
            let layer: usize = match get(&layers, order[k].id.as_str()) {
                Some(l) => *l,
                None => 0,
            };
            let mut index: usize = 0;
            let mut j: usize = 0;
            while j < k
                invariant
                    ids == node_ids(refs_view(order@)),
                    j <= k < order.len(),
                    layers.deep_view() == table,
                    index == crowd(table, ids, j as int, layer),
                    index <= j,
                decreases k - j,
            {
                assert(ids[j as int] == order@[j as int].id.deep_view());
                if let Some(l) = get(&layers, order[j].id.as_str()) {
                    if *l == layer {
                        index = index + 1;
                    }
                }
                j = j + 1;
            }
            r.push(LayerSlot { id: order[k].id.clone(), layer, index });
            k = k + 1;
        }
        assert(r.deep_view() =~= slots_of(g, ids));
        r
    }

    /// The places of all nodes in layers: along the edges where the graph can
    /// be sorted, else in the order of its nodes.
    pub fn layered_slots(&self) -> (r: Vec<LayerSlot>)
        requires
            self.nodes@.len() < usize::MAX,
        ensures
            if sortable(self.deep_view()) {
                exists|order: Seq<GraphNodeM>|
                    #[trigger] along_edges(self.deep_view(), order) && r.deep_view() == slots_of(
                        self.deep_view(),
                        node_ids(order),
                    )
            } else {
                r.deep_view() == slots_of(self.deep_view(), node_ids(self.deep_view().nodes))
            },
    {
        match self.topological_sort() {
            Ok(order) => {
                assert(refs_view(order@).len() == order@.len());
                self.slots_along(&order)
            },
            Err(_) => {
                let mut order: Vec<&GraphNode> = Vec::new();
                let mut i: usize = 0;
                while i < self.nodes.len()
                    invariant
                        i <= self.nodes.len(),
                        order@.len() == i,
                        forall|k: int| 0 <= k < i ==> *(#[trigger] order@[k]) == self.nodes@[k],
                    decreases self.nodes.len() - i,
                {
                    order.push(&self.nodes[i]);
                    i = i + 1;
                }
                assert(refs_view(order@) =~= self.deep_view().nodes);
                self.slots_along(&order)
            },
        }
    }
}

/// Later nodes with other identities leave the layer of a node as it was.
pub proof fn lemma_layer_stays(g: GraphM, ids: Seq<Seq<char>>, n: int, x: Seq<char>)
    requires
        0 <= n <= ids.len(),
        forall|k: int| n <= k < ids.len() ==> #[trigger] ids[k] != x,
    ensures
        lookup(layers_of(g, ids), x) == lookup(layers_of(g, ids.take(n)), x),
    decreases ids.len() - n, 1nat,
{
    if n < ids.len() {
        lemma_layer_stays_step(g, ids, n, x);
    } else {
        assert(ids.take(n) =~= ids);
    }
}

proof fn lemma_layer_stays_step(g: GraphM, ids: Seq<Seq<char>>, n: int, x: Seq<char>)
    requires
        0 <= n < ids.len(),
        forall|k: int| n <= k < ids.len() ==> #[trigger] ids[k] != x,
    ensures
        lookup(layers_of(g, ids), x) == lookup(layers_of(g, ids.take(n)), x),
    decreases ids.len() - n, 0nat,
{
    let t = ids.take(n + 1);
    assert(t.drop_last() =~= ids.take(n));
    assert(t.last() == ids[n]);
    let before = layers_of(g, ids.take(n));
    law_bind_lookup(
        before,
        ids[n],
        (parent_layer(g.edges, before, ids[n]) + 1) as usize,
        x,
    );
    lemma_layer_stays(g, ids, n + 1, x);
}

proof fn lemma_parent_at_least(
    es: Seq<EdgeM>,
    layers: Seq<(Seq<char>, usize)>,
    id: Seq<char>,
    e: int,
)
    requires
        0 <= e < es.len(),
        es[e].to == id,
        lookup(layers, es[e].from) is Some,
    ensures
        parent_layer(es, layers, id) >= lookup(layers, es[e].from)->0,
    decreases es.len(),
{
    if e < es.len() - 1 {
        assert(es.drop_last()[e] == es[e]);
        lemma_parent_at_least(es.drop_last(), layers, id, e);
    }
}

/// Taken along the edges, every edge leads to a higher layer.
pub proof fn law_edges_lead_down(g: GraphM, order: Seq<GraphNodeM>, e: int, i: int, j: int)
    requires
        along_edges(g, order),
        order.len() < usize::MAX,
        0 <= e < g.edges.len(),
        0 <= i < order.len(),
        0 <= j < order.len(),
        g.edges[e].from == order[i].id,
        g.edges[e].to == order[j].id,
    ensures
        slots_of(g, node_ids(order))[i].layer < slots_of(g, node_ids(order))[j].layer,
{
    let ids = node_ids(order);
    let a = order[i].id;
    let b = order[j].id;
    assert(i < j);
    assert forall|k: int| 0 <= k < ids.len() && k != i implies #[trigger] ids[k] != a by {
        assert(order[k].id != order[i].id) by {
            if k < i {
                assert(order[k].id != order[i].id);
            } else {
                assert(order[i].id != order[k].id);
            }
        }
    }
    assert forall|k: int| 0 <= k < ids.len() && k != j implies #[trigger] ids[k] != b by {
        assert(order[k].id != order[j].id) by {
            if k < j {
                assert(order[k].id != order[j].id);
            } else {
                assert(order[j].id != order[k].id);
            }
        }
    }
    let front = ids.take(j);
    let before = layers_of(g, front);
    // The layer of `a` is settled before `b` is reached.
    assert(front[i] == a);
    lemma_layered(g, front, a);
    lemma_layer_stays(g, ids, i + 1, a);
    assert(front.take(i + 1) =~= ids.take(i + 1));
    assert forall|k: int| i + 1 <= k < front.len() implies #[trigger] front[k] != a by {
        assert(front[k] == ids[k]);
    }
    lemma_layer_stays(g, front, i + 1, a);
    // The layer of `b` is one more than the highest layer before it.
    lemma_parent_at_least(g.edges, before, b, e);
    lemma_parent_bound(g, front, b, g.edges);
    let t = ids.take(j + 1);
    assert(t.drop_last() =~= front);
    assert(t.last() == b);
    law_bind_lookup(before, b, (parent_layer(g.edges, before, b) + 1) as usize, b);
    lemma_layer_stays(g, ids, j + 1, b);
    assert(ids[i] == a && ids[j] == b);
}

// ---- Trees -----------------------------------------------------------------

/// Where the last child of a node stands: where it was placed, or, if it had
/// been met before, at its number among the children.
#[derive(Debug, PartialEq)]
pub enum LastChild {
    Placed(NodeId),
    Number(usize),
}

/// What a `LastChild` holds.
#[verifier::ext_equal]
pub enum LastChildM {
    Placed(Seq<char>),
    Number(usize),
}

impl DeepView for LastChild {
    type V = LastChildM;

    open spec fn deep_view(&self) -> LastChildM {
        match self {
            LastChild::Placed(x) => LastChildM::Placed(x.deep_view()),
            LastChild::Number(x) => LastChildM::Number(*x),
        }
    }
}

impl Clone for LastChild {
    fn clone(&self) -> (r: Self)
        ensures
            r.deep_view() == self.deep_view(),
    {
        match self {
            LastChild::Placed(x) => LastChild::Placed(x.clone()),
            LastChild::Number(x) => LastChild::Number(*x),
        }
    }
}

/// Across: a leaf at its number among its siblings; any other node half way
/// between its first child, if that was placed, and its last one.
#[derive(Debug, PartialEq)]
pub enum Across {
    Leaf(usize),
    Between { first: Option<NodeId>, last: LastChild },
}

/// What a `Across` holds.
#[verifier::ext_equal]
pub enum AcrossM {
    Leaf(usize),
    Between { first: Option<Seq<char>>, last: LastChildM },
}

impl DeepView for Across {
    type V = AcrossM;

    open spec fn deep_view(&self) -> AcrossM {
        match self {
            Across::Leaf(x) => AcrossM::Leaf(*x),
            Across::Between { first, last } => AcrossM::Between {
                first: first.deep_view(),
                last: last.deep_view(),
            },
        }
    }
}

impl Clone for Across {
    fn clone(&self) -> (r: Self)
        ensures
            r.deep_view() == self.deep_view(),
    {
        match self {
            Across::Leaf(x) => Across::Leaf(*x),
            Across::Between { first, last } => Across::Between {
                first: first.clone(),
                last: last.clone(),
            },
        }
    }
}

/// The place of a node in a tree.
#[derive(Debug, PartialEq)]
pub struct TreeSlot {
    pub id: NodeId,
    pub depth: usize,
    pub across: Across,
}

/// What a `TreeSlot` holds.
#[verifier::ext_equal]
pub struct TreeSlotM {
    pub id: Seq<char>,
    pub depth: usize,
    pub across: AcrossM,
}

impl DeepView for TreeSlot {
    type V = TreeSlotM;

    open spec fn deep_view(&self) -> TreeSlotM {
        TreeSlotM {
            id: self.id.deep_view(),
            depth: self.depth,
            across: self.across.deep_view(),
        }
    }
}

impl Clone for TreeSlot {
    fn clone(&self) -> (r: Self)
        ensures
            r.deep_view() == self.deep_view(),
    {
        TreeSlot {
            id: self.id.clone(),
            depth: self.depth,
            across: self.across.clone(),
        }
    }
}

/// A layout on its way: the identities met, and the places given so far.
#[verifier::ext_equal]
pub struct PlanM {
    pub met: Seq<Seq<char>>,
    pub slots: Seq<TreeSlotM>,
}

/// Whether an identity has a place.
pub open spec fn has_slot(slots: Seq<TreeSlotM>, id: Seq<char>) -> bool {
    exists|i: int| 0 <= i < slots.len() && (#[trigger] slots[i]).id == id
}

/// The layout with what hangs under `id`, children placed before their parent.
/// No path is followed beyond `n` identities.
pub open spec fn laid(
    g: GraphM,
    id: Seq<char>,
    depth: nat,
    number: nat,
    plan: PlanM,
    n: nat,
) -> PlanM
    decreases n, 0nat,
{
    if n == 0 || plan.met.contains(id) {
        plan
    } else {
        let kids = targets(g.edges, id);
        let begun = PlanM { met: plan.met.push(id), ..plan };
        if kids.len() == 0 {
            PlanM {
                slots: begun.slots.push(
                    TreeSlotM {
                        id,
                        depth: depth as usize,
                        across: AcrossM::Leaf(number as usize),
                    },
                ),
                ..begun
            }
        } else {
            let most = laids(g, kids.drop_last(), depth + 1, begun, (n - 1) as nat);
            let all = laids(g, kids, depth + 1, begun, (n - 1) as nat);
            PlanM {
                slots: all.slots.push(
                    TreeSlotM {
                        id,
                        depth: depth as usize,
                        across: AcrossM::Between {
                            first: if has_slot(all.slots, kids[0]) {
                                Some(kids[0])
                            } else {
                                None
                            },
                            last: if most.met.contains(kids.last()) {
                                LastChildM::Number((kids.len() - 1) as usize)
                            } else {
                                LastChildM::Placed(kids.last())
                            },
                        },
                    },
                ),
                ..all
            }
        }
    }
}

/// The layout with what hangs under several siblings, one after the other.
pub open spec fn laids(g: GraphM, ids: Seq<Seq<char>>, depth: nat, plan: PlanM, n: nat) -> PlanM
    decreases n, ids.len() + 1,
{
    if ids.len() == 0 {
        plan
    } else {
        laid(
            g,
            ids.last(),
            depth,
            (ids.len() - 1) as nat,
            laids(g, ids.drop_last(), depth, plan, n),
            n,
        )
    }
}

/// The places in a tree from `root` downwards. No path can be longer than the
/// root and the edges together.
pub open spec fn tree_slots_of(g: GraphM, root: Seq<char>) -> Seq<TreeSlotM> {
    laid(g, root, 0, 0, PlanM { met: seq![], slots: seq![] }, g.edges.len() + 1).slots
}

fn id_met(ids: &Vec<NodeId>, id: &NodeId) -> (r: bool)
    ensures
        r == ids.deep_view().contains(id.deep_view()),
{
    let ghost all = ids.deep_view();
    let mut i: usize = 0;
    while i < ids.len()
        invariant
            i <= ids.len(),
            all == ids.deep_view(),
            forall|j: int| 0 <= j < i ==> #[trigger] all[j] != id.deep_view(),
        decreases ids.len() - i,
    {
        assert(all[i as int] == ids@[i as int].deep_view());
        if ids[i].same(id) {
            assert(all[i as int] == id.deep_view());
            return true;
        }
        i = i + 1;
    }
    false
}

fn slot_given(slots: &Vec<TreeSlot>, id: &NodeId) -> (r: bool)
    ensures
        r == has_slot(slots.deep_view(), id.deep_view()),
{
    let ghost all = slots.deep_view();
    let mut i: usize = 0;
    while i < slots.len()
        invariant
            i <= slots.len(),
            all == slots.deep_view(),
            forall|j: int| 0 <= j < i ==> (#[trigger] all[j]).id != id.deep_view(),
        decreases slots.len() - i,
    {
        assert(all[i as int] == slots@[i as int].deep_view());
        if slots[i].id.same(id) {
            assert(all[i as int].id == id.deep_view());
            return true;
        }
        i = i + 1;
    }
    false
}

impl Graph {
    fn lay(
        &self,
        id: &NodeId,
        depth: usize,
        number: usize,
        met: &mut Vec<NodeId>,
        slots: &mut Vec<TreeSlot>,
        n: usize,
    )
        requires
            depth + n <= usize::MAX,
        ensures
            (PlanM { met: final(met).deep_view(), slots: final(slots).deep_view() }) == laid(
                self.deep_view(),
                id.deep_view(),
                depth as nat,
                number as nat,
                (PlanM { met: old(met).deep_view(), slots: old(slots).deep_view() }),
                n as nat,
            ),
        decreases n,
    {
        let ghost g = self.deep_view();
        if n == 0 || id_met(met, id) {
            return;
        }
        let ghost start = met.deep_view();
        met.push(id.clone());
        assert(met.deep_view() =~= start.push(id.deep_view()));
        let ghost begun = PlanM { met: met.deep_view(), slots: slots.deep_view() };
        let ghost kids = targets(g.edges, id.deep_view());
        let ghost m = (n - 1) as nat;
        let mut first: Option<&NodeId> = None;
        let mut last: Option<LastChild> = None;
        let mut count: usize = 0;
        let mut i: usize = 0;
        while i < self.edges.len()
            invariant
                g == self.deep_view(),
                i <= self.edges.len(),
                n > 0,
                m == n - 1,
                depth + n <= usize::MAX,
                count <= i,
                count == targets(g.edges.take(i as int), id.deep_view()).len(),
                (PlanM { met: met.deep_view(), slots: slots.deep_view() }) == laids(
                    g,
                    targets(g.edges.take(i as int), id.deep_view()),
                    (depth + 1) as nat,
                    begun,
                    m,
                ),
                count == 0 ==> first is None && last is None,
                count > 0 ==> {
                    let ks = targets(g.edges.take(i as int), id.deep_view());
                    &&& first is Some
                    &&& (first->0).deep_view() == ks[0]
                    &&& last is Some
                    &&& last->0.deep_view() == (if laids(
                        g,
                        ks.drop_last(),
                        (depth + 1) as nat,
                        begun,
                        m,
                    ).met.contains(ks.last()) {
                        LastChildM::Number((ks.len() - 1) as usize)
                    } else {
                        LastChildM::Placed(ks.last())
                    })
                },
            decreases self.edges.len() - i,
        {
            let e = &self.edges[i];
            assert(g.edges.take(i + 1).drop_last() =~= g.edges.take(i as int));
            assert(g.edges.take(i + 1).last() == e.deep_view());
            if e.from.same(id) {
                let ghost ks = targets(g.edges.take(i as int), id.deep_view());
                assert(ks.push(e.to.deep_view()).drop_last() =~= ks);
                if first.is_none() {
                    first = Some(&e.to);
                }
                last = if id_met(met, &e.to) {
                    Some(LastChild::Number(count))
                } else {
                    Some(LastChild::Placed(e.to.clone()))
                };
                self.lay(&e.to, depth + 1, count, met, slots, n - 1);
                count = count + 1;
            }
            i = i + 1;
        }
        assert(g.edges.take(i as int) =~= g.edges);
        let ghost before = slots.deep_view();
        let across = match (first, last) {
            (Some(f), Some(l)) => {
                let at = if slot_given(slots, f) {
                    Some(f.clone())
                } else {
                    None
                };
                Across::Between { first: at, last: l }
            },
            _ => Across::Leaf(number),
        };
        let slot = TreeSlot { id: id.clone(), depth, across };
        slots.push(slot);
        assert(slots.deep_view() =~= before.push(slot.deep_view()));
    }

    /// The places in a tree from `root` downwards, children before their
    /// parent.
    pub fn tree_slots(&self, root: &NodeId) -> (r: Vec<TreeSlot>)
        requires
            self.edges@.len() < usize::MAX,
        ensures
            r.deep_view() == tree_slots_of(self.deep_view(), root.deep_view()),
    {
        let mut met: Vec<NodeId> = Vec::new();
        let mut slots: Vec<TreeSlot> = Vec::new();
        assert(met.deep_view() =~= seq![]);
        assert(slots.deep_view() =~= seq![]);
        assert(self.deep_view().edges.len() == self.edges.len());
        self.lay(root, 0, 0, &mut met, &mut slots, self.edges.len() + 1);
        slots
    }
}

} // verus!
