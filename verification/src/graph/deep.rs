//! The order of a depth-first walk, and the places of a layout.

use vstd::prelude::*;

use crate::assoc::{law_bind_lookup, lookup};
use crate::graph::layout::{
    crowd, laid, laids, layers_of, lemma_layer_stays, lemma_layered, lemma_parent_bound, node_ids,
    parent_layer, slots_of, tree_slots_of, AcrossM, LastChildM, LayerSlotM, PlanM, TreeSlotM,
};
use crate::graph::model::{node_at, EdgeM, GraphM, GraphNodeM};
use crate::graph::order::along_edges;
use crate::graph::walk::{
    breadth_first, depth_first, depth_firsts, depth_walk, done_with, lemma_depth_first, lemma_depth_firsts,
    lemma_target_edge, lemma_targets, lemma_unmet_nodes_mono, targets, unmet_nodes, walk_ok,
};

verus! {

// ---- Depth first -----------------------------------------------------------

/// Whether an identity is that of a node that was not met.
pub open spec fn still_open(g: GraphM, met: Seq<Seq<char>>) -> spec_fn(Seq<char>) -> bool {
    |t: Seq<char>| node_at(g, t) is Some && !met.contains(t)
}

/// The identity at place `k` of a walk is the first open target of the latest
/// node before it that has one.
pub open spec fn goes_deep(g: GraphM, walk: Seq<Seq<char>>, base: int, k: int) -> bool {
    exists|j: int|
        {
            &&& base <= j < k
            &&& (#[trigger] targets(g.edges, walk[j])).filter(still_open(g, walk.take(k))).len() > 0
            &&& targets(g.edges, walk[j]).filter(still_open(g, walk.take(k)))[0] == walk[k]
            &&& forall|i: int|
                j < i < k ==> (#[trigger] targets(g.edges, walk[i])).filter(
                    still_open(g, walk.take(k)),
                ).len() == 0
        }
}

proof fn lemma_filter_first<T>(s: Seq<T>, p: spec_fn(T) -> bool, q: int)
    requires
        0 <= q < s.len(),
        p(s[q]),
        forall|j: int| 0 <= j < q ==> !p(#[trigger] s[j]),
    ensures
        s.filter(p).len() > 0,
        s.filter(p)[0] == s[q],
    decreases s.len(),
{
    reveal(Seq::filter);
    let d = s.drop_last();
    if q < d.len() {
        assert(d[q] == s[q]);
        assert forall|j: int| 0 <= j < q implies !p(#[trigger] d[j]) by {
            assert(d[j] == s[j]);
        }
        lemma_filter_first(d, p, q);
    } else {
        lemma_filter_none(d, p);
    }
}

proof fn lemma_filter_none<T>(s: Seq<T>, p: spec_fn(T) -> bool)
    requires
        forall|j: int| 0 <= j < s.len() ==> !p(#[trigger] s[j]),
    ensures
        s.filter(p).len() == 0,
    decreases s.len(),
{
    reveal(Seq::filter);
    if s.len() > 0 {
        let d = s.drop_last();
        assert forall|j: int| 0 <= j < d.len() implies !p(#[trigger] d[j]) by {
            assert(d[j] == s[j]);
        }
        lemma_filter_none(d, p);
        assert(!p(s[s.len() - 1]));
    }
}

proof fn lemma_done(g: GraphM, met: Seq<Seq<char>>, y: Seq<char>)
    requires
        done_with(g, met, y),
    ensures
        targets(g.edges, y).filter(still_open(g, met)).len() == 0,
{
    let ts = targets(g.edges, y);
    assert forall|k: int| 0 <= k < ts.len() implies !still_open(g, met)(#[trigger] ts[k]) by {
        let e = lemma_target_edge(g.edges, y, k);
        assert(g.edges[e].from == y);
    }
    lemma_filter_none(ts, still_open(g, met));
}

proof fn lemma_done_more(g: GraphM, a: Seq<Seq<char>>, b: Seq<Seq<char>>, y: Seq<char>)
    requires
        done_with(g, a, y),
        forall|x: Seq<char>| a.contains(x) ==> #[trigger] b.contains(x),
    ensures
        done_with(g, b, y),
{
}

proof fn lemma_first_deep(g: GraphM, id: Seq<char>, met: Seq<Seq<char>>, n: nat)
    requires
        unmet_nodes(g.nodes, met) <= n,
        met.no_duplicates(),
    ensures
        ({
            let out = depth_first(g, id, met, n);
            &&& met.is_prefix_of(out)
            &&& out == met || out.len() > met.len() && out[met.len() as int] == id && node_at(g, id)
                is Some && !met.contains(id)
            &&& forall|k: int| met.len() < k < out.len() ==> #[trigger] goes_deep(g, out, met.len() as int, k)
        }),
    decreases n, 0nat,
{
    if !(n == 0 || node_at(g, id) is None || met.contains(id)) {
        let one = met.push(id);
        crate::seqs::lemma_first_index(g.nodes, crate::graph::model::is_node(id));
        let i = node_at(g, id)->0;
        assert(one[met.len() as int] == id);
        assert forall|x: Seq<char>| met.contains(x) implies #[trigger] one.contains(x) by {
            let k = choose|k: int| 0 <= k < met.len() && met[k] == x;
            assert(one[k] == x);
        }
        assert(!met.contains(g.nodes[i].id) && one.contains(g.nodes[i].id));
        lemma_unmet_nodes_mono(g.nodes, met, one);
        let ts = targets(g.edges, id);
        assert(ts =~= ts.take(ts.len() as int));
        assert(one.no_duplicates());
        lemma_firsts_deep(g, ts, one, (n - 1) as nat, met.len() as int);
        let out = depth_firsts(g, ts, one, (n - 1) as nat);
        assert(out[met.len() as int] == one[met.len() as int]);
    }
}

proof fn lemma_firsts_deep(g: GraphM, ids: Seq<Seq<char>>, met: Seq<Seq<char>>, n: nat, p: int)
    requires
        unmet_nodes(g.nodes, met) <= n,
        met.no_duplicates(),
        0 <= p < met.len(),
        ids.len() <= targets(g.edges, met[p]).len(),
        ids == targets(g.edges, met[p]).take(ids.len() as int),
        forall|i: int| p < i < met.len() ==> done_with(g, met, #[trigger] met[i]),
    ensures
        ({
            let out = depth_firsts(g, ids, met, n);
            &&& met.is_prefix_of(out)
            &&& forall|k: int| met.len() <= k < out.len() ==> #[trigger] goes_deep(g, out, p, k)
            &&& forall|i: int| p < i < out.len() ==> done_with(g, out, #[trigger] out[i])
        }),
    decreases n, ids.len() + 1,
{
    if ids.len() > 0 {
        let all = targets(g.edges, met[p]);
        let d = ids.drop_last();
        let last = ids.last();
        let mid = depth_firsts(g, d, met, n);
        let out = depth_firsts(g, ids, met, n);
        assert(d =~= all.take(d.len() as int));
        lemma_firsts_deep(g, d, met, n, p);
        lemma_depth_firsts(g, d, met, n);
        lemma_unmet_nodes_mono(g.nodes, met, mid);
        lemma_first_deep(g, last, mid, n);
        lemma_depth_first(g, last, mid, n);
        assert(out == depth_first(g, last, mid, n));
        assert(mid[p] == met[p]);
        let m = mid.len() as int;
        if out != mid {
            assert(out.take(m) =~= mid);
            let q = ids.len() - 1;
            assert(all[q] == last);
            assert forall|j: int| 0 <= j < q implies !still_open(g, mid)(#[trigger] all[j]) by {
                assert(d[j] == all[j]);
                if node_at(g, d[j]) is Some {
                    assert(mid.contains(d[j]));
                }
            }
            lemma_filter_first(all, still_open(g, mid), q);
            assert(out[p] == met[p]);
            assert(targets(g.edges, out[p]).filter(still_open(g, out.take(m)))[0] == out[m]);
            assert forall|i: int| p < i < m implies (#[trigger] targets(g.edges, out[i])).filter(
                still_open(g, out.take(m)),
            ).len() == 0 by {
                assert(out[i] == mid[i]);
                lemma_done(g, mid, mid[i]);
            }
            assert(goes_deep(g, out, p, m));
        }
        assert forall|k: int| met.len() <= k < out.len() implies #[trigger] goes_deep(g, out, p, k) by {
            if k < m {
                lemma_deep_prefix(g, mid, out, p, k);
            } else if k > m {
                assert(goes_deep(g, out, m, k));
                let j = choose|j: int|
                    {
                        &&& m <= j < k
                        &&& (#[trigger] targets(g.edges, out[j])).filter(
                            still_open(g, out.take(k)),
                        ).len() > 0
                        &&& targets(g.edges, out[j]).filter(still_open(g, out.take(k)))[0] == out[k]
                        &&& forall|i: int|
                            j < i < k ==> (#[trigger] targets(g.edges, out[i])).filter(
                                still_open(g, out.take(k)),
                            ).len() == 0
                    };
                assert(targets(g.edges, out[j]).filter(still_open(g, out.take(k))).len() > 0);
            }
        }
        assert forall|i: int| p < i < out.len() implies done_with(g, out, #[trigger] out[i]) by {
            if i < m {
                assert(out[i] == mid[i]);
                lemma_done_more(g, mid, out, mid[i]);
            } else {
                assert(out.contains(out[i]));
                if mid.contains(out[i]) {
                    let k = choose|k: int| 0 <= k < mid.len() && mid[k] == out[i];
                    assert(out[k] == out[i]);
                }
            }
        }
    }
}

proof fn lemma_deep_prefix(g: GraphM, a: Seq<Seq<char>>, b: Seq<Seq<char>>, base: int, k: int)
    requires
        a.is_prefix_of(b),
        0 <= base <= k < a.len(),
        goes_deep(g, a, base, k),
    ensures
        goes_deep(g, b, base, k),
{
    let j = choose|j: int|
        {
            &&& base <= j < k
            &&& (#[trigger] targets(g.edges, a[j])).filter(still_open(g, a.take(k))).len() > 0
            &&& targets(g.edges, a[j]).filter(still_open(g, a.take(k)))[0] == a[k]
            &&& forall|i: int|
                j < i < k ==> (#[trigger] targets(g.edges, a[i])).filter(
                    still_open(g, a.take(k)),
                ).len() == 0
        };
    assert(b.take(k) =~= a.take(k));
    assert(b[j] == a[j]);
    assert(b[k] == a[k]);
    assert(targets(g.edges, b[j]).filter(still_open(g, b.take(k))).len() > 0);
    assert forall|i: int| j < i < k implies (#[trigger] targets(g.edges, b[i])).filter(
        still_open(g, b.take(k)),
    ).len() == 0 by {
        assert(b[i] == a[i]);
        assert(targets(g.edges, a[i]).filter(still_open(g, a.take(k))).len() == 0);
    }
}

/// A depth-first walk begins at its start, and always goes on with the first
/// target not yet met of the latest node that has one.
pub proof fn law_depth_first_order(g: GraphM, start: Seq<char>, k: int)
    ensures
        node_at(g, start) is Some ==> depth_walk(g, start).len() > 0 && depth_walk(g, start)[0]
            == start,
        node_at(g, start) is None ==> depth_walk(g, start).len() == 0,
        0 < k < depth_walk(g, start).len() ==> goes_deep(g, depth_walk(g, start), 0, k),
{
    let none: Seq<Seq<char>> = seq![];
    lemma_unmet_nodes_mono(g.nodes, none, none);
    lemma_first_deep(g, start, none, g.nodes.len());
    lemma_depth_first(g, start, none, g.nodes.len());
}

// ---- Layers ----------------------------------------------------------------

proof fn lemma_parent_attained(es: Seq<EdgeM>, layers: Seq<(Seq<char>, usize)>, id: Seq<char>) -> (e:
    int)
    ensures
        parent_layer(es, layers, id) == 0 || 0 <= e < es.len() && es[e].to == id && lookup(
            layers,
            es[e].from,
        ) == Some(parent_layer(es, layers, id)),
    decreases es.len(),
{
    if es.len() == 0 {
        0
    } else {
        let rest = parent_layer(es.drop_last(), layers, id);
        let e = lemma_parent_attained(es.drop_last(), layers, id);
        if es.last().to == id && (lookup(layers, es.last().from) matches Some(l) && l > rest) {
            es.len() - 1
        } else {
            if rest > 0 {
                assert(es.drop_last()[e] == es[e]);
            }
            e
        }
    }
}

proof fn lemma_layered_from(g: GraphM, ids: Seq<Seq<char>>, x: Seq<char>) -> (i: int)
    requires
        lookup(layers_of(g, ids), x) is Some,
    ensures
        0 <= i < ids.len(),
        ids[i] == x,
    decreases ids.len(),
{
    if ids.len() == 0 {
        crate::assoc::lemma_slot(layers_of(g, ids), x);
        0
    } else if ids.last() == x {
        ids.len() - 1
    } else {
        let d = ids.drop_last();
        let before = layers_of(g, d);
        law_bind_lookup(
            before,
            ids.last(),
            (parent_layer(g.edges, before, ids.last()) + 1) as usize,
            x,
        );
        lemma_layered_from(g, d, x)
    }
}

/// Layers are as low as the edges allow: a node is on the first layer, or an edge
/// leads to it from a node on the layer before its own.
pub proof fn law_layers_low(g: GraphM, order: Seq<GraphNodeM>, j: int) -> (r: (int, int))
    requires
        along_edges(g, order),
        order.len() < usize::MAX,
        0 <= j < order.len(),
    ensures
        ({
            let slots = slots_of(g, node_ids(order));
            &&& slots.len() == order.len()
            &&& slots[j].id == order[j].id
            &&& slots[j].layer >= 1
            &&& slots[j].layer > 1 ==> {
                &&& 0 <= r.0 < order.len()
                &&& 0 <= r.1 < g.edges.len()
                &&& g.edges[r.1].from == order[r.0].id
                &&& g.edges[r.1].to == order[j].id
                &&& slots[r.0].layer + 1 == slots[j].layer
            }
        }),
{
    let ids = node_ids(order);
    let b = order[j].id;
    let front = ids.take(j);
    let before = layers_of(g, front);
    assert forall|k: int| 0 <= k < ids.len() && k != j implies #[trigger] ids[k] != b by {
        if k < j {
            assert(order[k].id != order[j].id);
        } else {
            assert(order[j].id != order[k].id);
        }
    }
    lemma_parent_bound(g, front, b, g.edges);
    let t = ids.take(j + 1);
    assert(t.drop_last() =~= front);
    assert(t.last() == b);
    law_bind_lookup(before, b, (parent_layer(g.edges, before, b) + 1) as usize, b);
    lemma_layer_stays(g, ids, j + 1, b);
    assert(ids[j] == b);
    let e = lemma_parent_attained(g.edges, before, b);
    if parent_layer(g.edges, before, b) > 0 {
        let a = g.edges[e].from;
        let i = lemma_layered_from(g, front, a);
        assert(ids[i] == a);
        assert forall|k: int| i + 1 <= k < ids.len() implies #[trigger] ids[k] != a by {
            assert(order[i].id != order[k].id);
        }
        assert forall|k: int| i + 1 <= k < front.len() implies #[trigger] front[k] != a by {
            assert(front[k] == ids[k]);
        }
        lemma_layer_stays(g, ids, i + 1, a);
        lemma_layer_stays(g, front, i + 1, a);
        assert(front.take(i + 1) =~= ids.take(i + 1));
        (i, e)
    } else {
        (0, 0)
    }
}

proof fn lemma_crowd_filter(
    layers: Seq<(Seq<char>, usize)>,
    ids: Seq<Seq<char>>,
    n: int,
    layer: usize,
)
    requires
        0 <= n <= ids.len(),
    ensures
        crowd(layers, ids, n, layer) == ids.take(n).filter(
            |id: Seq<char>| lookup(layers, id) == Some(layer),
        ).len(),
        crowd(layers, ids, n, layer) <= n,
    decreases n,
{
    reveal(Seq::filter);
    let f = |id: Seq<char>| lookup(layers, id) == Some(layer);
    if n > 0 {
        assert(ids.take(n).drop_last() =~= ids.take(n - 1));
        lemma_crowd_filter(layers, ids, n - 1, layer);
    }
}

/// On a layer the nodes are numbered from zero on, in their order, without a gap.
pub proof fn law_slots_numbered(g: GraphM, ids: Seq<Seq<char>>, i: int, j: int)
    requires
        ids.len() < usize::MAX,
        0 <= i < j < ids.len(),
    ensures
        ({
            let slots = slots_of(g, ids);
            &&& slots[i].layer == slots[j].layer ==> slots[i].index < slots[j].index
            &&& slots[j].index > 0 ==> exists|k: int|
                0 <= k < j && (#[trigger] slots[k]).layer == slots[j].layer && slots[k].index + 1
                    == slots[j].index
        }),
{
    let layers = layers_of(g, ids);
    let slots = slots_of(g, ids);
    let layer = slots[j].layer;
    assert(ids.contains(ids[j]));
    assert(ids.contains(ids[i]));
    lemma_layered(g, ids, ids[i]);
    lemma_layered(g, ids, ids[j]);
    lemma_crowd_filter(layers, ids, i, slots[i].layer);
    lemma_crowd_filter(layers, ids, j, layer);
    if slots[i].layer == layer {
        lemma_crowd_grows(layers, ids, i + 1, j, layer);
    }
    if slots[j].index > 0 {
        let k = lemma_crowd_last(layers, ids, j, layer);
        lemma_crowd_filter(layers, ids, k, layer);
        assert(slots[k].layer == layer);
    }
}

proof fn lemma_crowd_grows(
    layers: Seq<(Seq<char>, usize)>,
    ids: Seq<Seq<char>>,
    a: int,
    b: int,
    layer: usize,
)
    requires
        0 <= a <= b,
    ensures
        crowd(layers, ids, a, layer) <= crowd(layers, ids, b, layer),
    decreases b - a,
{
    if a < b {
        lemma_crowd_grows(layers, ids, a, b - 1, layer);
    }
}

proof fn lemma_crowd_last(
    layers: Seq<(Seq<char>, usize)>,
    ids: Seq<Seq<char>>,
    n: int,
    layer: usize,
) -> (k: int)
    requires
        0 <= n <= ids.len(),
        crowd(layers, ids, n, layer) > 0,
    ensures
        0 <= k < n,
        lookup(layers, ids[k]) == Some(layer),
        crowd(layers, ids, k, layer) + 1 == crowd(layers, ids, n, layer),
    decreases n,
{
    if lookup(layers, ids[n - 1]) == Some(layer) {
        n - 1
    } else {
        lemma_crowd_last(layers, ids, n - 1, layer)
    }
}

// ---- Trees -----------------------------------------------------------------

/// A place hangs on another: an edge leads to its node from that of the other, it
/// is one deeper, and as a leaf it has the number of the edge among those that
/// leave the other.
pub open spec fn hangs_on(g: GraphM, slots: Seq<TreeSlotM>, s: TreeSlotM) -> bool {
    exists|t: int, q: int|
        {
            &&& 0 <= t < slots.len()
            &&& 0 <= q < targets(g.edges, slots[t].id).len()
            &&& #[trigger] targets(g.edges, slots[t].id)[q] == s.id
            &&& s.depth == slots[t].depth + 1
            &&& s.across matches AcrossM::Leaf(x) ==> x == q
        }
}

/// A place is that of the node with the identity, depth and number.
pub open spec fn place_of(s: TreeSlotM, id: Seq<char>, depth: nat, number: nat) -> bool {
    &&& s.id == id
    &&& s.depth == depth
    &&& s.across matches AcrossM::Leaf(x) ==> x == number
}

/// How a place lies across: as a leaf exactly if no edge leaves its node; else
/// between the target of the first edge that leaves it and that of the last.
pub open spec fn across_ok(g: GraphM, s: TreeSlotM) -> bool {
    let ts = targets(g.edges, s.id);
    match s.across {
        AcrossM::Leaf(_) => ts.len() == 0,
        AcrossM::Between { first, last } => ts.len() > 0 && (first matches Some(x) ==> x == ts.first())
            && match last {
            LastChildM::Placed(x) => x == ts.last(),
            LastChildM::Number(m) => m == ts.len() - 1,
        },
    }
}

proof fn lemma_hangs_more(g: GraphM, a: Seq<TreeSlotM>, b: Seq<TreeSlotM>, s: TreeSlotM)
    requires
        a.is_prefix_of(b),
        hangs_on(g, a, s),
    ensures
        hangs_on(g, b, s),
{
    let (t, q) = choose|t: int, q: int|
        {
            &&& 0 <= t < a.len()
            &&& 0 <= q < targets(g.edges, a[t].id).len()
            &&& #[trigger] targets(g.edges, a[t].id)[q] == s.id
            &&& s.depth == a[t].depth + 1
            &&& s.across matches AcrossM::Leaf(x) ==> x == q
        };
    assert(b[t] == a[t]);
    assert(targets(g.edges, b[t].id)[q] == s.id);
}

proof fn lemma_targets_len(es: Seq<EdgeM>, id: Seq<char>)
    ensures
        targets(es, id).len() <= es.len(),
    decreases es.len(),
{
    if es.len() > 0 {
        lemma_targets_len(es.drop_last(), id);
    }
}

proof fn lemma_laid_places(g: GraphM, id: Seq<char>, depth: nat, number: nat, plan: PlanM, n: nat)
    requires
        depth + n <= usize::MAX,
        number <= usize::MAX,
        g.edges.len() < usize::MAX,
    ensures
        ({
            let r = laid(g, id, depth, number, plan, n);
            let old = plan.slots.len();
            &&& plan.slots.is_prefix_of(r.slots)
            &&& n > 0 && !plan.met.contains(id) ==> r.slots.len() > old && place_of(
                r.slots.last(),
                id,
                depth,
                number,
            )
            &&& forall|i: int|
                old <= i < r.slots.len() ==> across_ok(g, #[trigger] r.slots[i]) && (i
                    == r.slots.len() - 1 && place_of(r.slots[i], id, depth, number) || hangs_on(
                    g,
                    r.slots,
                    r.slots[i],
                ))
        }),
    decreases n, 0nat,
{
    if !(n == 0 || plan.met.contains(id)) {
        let kids = targets(g.edges, id);
        lemma_targets_len(g.edges, id);
        let begun = PlanM { met: plan.met.push(id), ..plan };
        let r = laid(g, id, depth, number, plan, n);
        if kids.len() > 0 {
            let all = laids(g, kids, depth + 1, begun, (n - 1) as nat);
            assert(kids =~= kids.take(kids.len() as int));
            lemma_laids_places(g, kids, depth + 1, begun, (n - 1) as nat, id);
            let own = r.slots.last();
            assert(r.slots == all.slots.push(own));
            let last = r.slots.len() - 1;
            assert forall|i: int| plan.slots.len() <= i < r.slots.len() implies across_ok(
                g,
                #[trigger] r.slots[i],
            ) && (i == r.slots.len() - 1 && place_of(r.slots[i], id, depth, number) || hangs_on(
                g,
                r.slots,
                r.slots[i],
            )) by {
                if i < last {
                    let s = all.slots[i];
                    assert(r.slots[i] == s);
                    if hangs_on(g, all.slots, s) {
                        lemma_hangs_more(g, all.slots, r.slots, s);
                    } else {
                        let q = choose|q: int|
                            0 <= q < kids.len() && place_of(s, #[trigger] kids[q], depth + 1, q as nat);
                        assert(r.slots[last].id == id);
                        assert(targets(g.edges, r.slots[last].id)[q] == s.id);
                    }
                }
            }
        }
    }
}

proof fn lemma_laids_places(
    g: GraphM,
    ids: Seq<Seq<char>>,
    depth: nat,
    plan: PlanM,
    n: nat,
    parent: Seq<char>,
)
    requires
        depth + n <= usize::MAX,
        g.edges.len() < usize::MAX,
        ids.len() <= targets(g.edges, parent).len(),
        ids == targets(g.edges, parent).take(ids.len() as int),
    ensures
        ({
            let r = laids(g, ids, depth, plan, n);
            let old = plan.slots.len();
            &&& plan.slots.is_prefix_of(r.slots)
            &&& forall|i: int|
                old <= i < r.slots.len() ==> across_ok(g, #[trigger] r.slots[i]) && (hangs_on(
                    g,
                    r.slots,
                    r.slots[i],
                ) || exists|q: int|
                    0 <= q < ids.len() && place_of(r.slots[i], #[trigger] ids[q], depth, q as nat))
        }),
    decreases n, ids.len() + 1,
{
    if ids.len() > 0 {
        let d = ids.drop_last();
        let mid = laids(g, d, depth, plan, n);
        let r = laids(g, ids, depth, plan, n);
        let number = (ids.len() - 1) as nat;
        lemma_targets_len(g.edges, parent);
        assert(d =~= targets(g.edges, parent).take(d.len() as int));
        lemma_laids_places(g, d, depth, plan, n, parent);
        lemma_laid_places(g, ids.last(), depth, number, mid, n);
        assert forall|i: int| plan.slots.len() <= i < r.slots.len() implies across_ok(
            g,
            #[trigger] r.slots[i],
        ) && (hangs_on(g, r.slots, r.slots[i]) || exists|q: int|
            0 <= q < ids.len() && place_of(r.slots[i], #[trigger] ids[q], depth, q as nat)) by {
            if i < mid.slots.len() {
                assert(r.slots[i] == mid.slots[i]);
                if hangs_on(g, mid.slots, mid.slots[i]) {
                    lemma_hangs_more(g, mid.slots, r.slots, mid.slots[i]);
                } else {
                    let q = choose|q: int|
                        0 <= q < d.len() && place_of(
                            mid.slots[i],
                            #[trigger] d[q],
                            depth,
                            q as nat,
                        );
                    assert(ids[q] == d[q]);
                }
            } else {
                assert(ids[number as int] == ids.last());
            }
        }
    }
}

/// The places of a tree: the root comes last and is not deep at all; every other
/// place hangs on one that is one less deep, by an edge, and a leaf has the number of
/// that edge; a node that edges leave lies between the targets of the first and the
/// last of them, and any other is a leaf.
pub proof fn law_tree_places(g: GraphM, root: Seq<char>, i: int)
    requires
        g.edges.len() < usize::MAX,
        0 <= i < tree_slots_of(g, root).len(),
    ensures
        tree_slots_of(g, root).last().id == root,
        tree_slots_of(g, root).last().depth == 0,
        i < tree_slots_of(g, root).len() - 1 ==> hangs_on(
            g,
            tree_slots_of(g, root),
            tree_slots_of(g, root)[i],
        ),
        across_ok(g, tree_slots_of(g, root)[i]),
{
    let none = PlanM { met: Seq::<Seq<char>>::empty(), slots: Seq::<TreeSlotM>::empty() };
    lemma_laid_places(g, root, 0, 0, none, g.edges.len() + 1);
}

// ---- Breadth first ---------------------------------------------------------

/// A breadth-first walk follows the edges of the earlier node first, and of one
/// node the earlier edge first: if an edge leads to one node before any leads to
/// another, that node is met before the other.
pub proof fn law_breadth_first_order(
    g: GraphM,
    start: Seq<char>,
    ids: Seq<Seq<char>>,
    steps: Seq<(int, int)>,
    p: int,
    a: int,
    j: int,
    k: int,
)
    requires
        breadth_first(g, start, ids, steps),
        0 < j < ids.len(),
        0 < k < ids.len(),
        0 <= p < ids.len(),
        0 <= a < g.edges.len(),
        node_at(g, ids[p]) is Some,
        g.edges[a].from == ids[p],
        g.edges[a].to == ids[j],
        forall|q: int, b: int|
            #![trigger ids[q], g.edges[b]]
            0 <= q < ids.len() && 0 <= b < g.edges.len() && g.edges[b].from == ids[q]
                && g.edges[b].to == ids[k] ==> p < q || p == q && a < b,
    ensures
        j < k,
{
    assert(crate::graph::walk::step_from(g, ids, p, a));
    assert(crate::graph::walk::reached_by(ids, steps, ids[j], (p, a)));
    let m = choose|m: int|
        0 <= m < ids.len() && #[trigger] ids[m] == ids[j] && (m == 0
            || crate::graph::walk::no_later(steps[m], (p, a)));
    assert(m == j);
    assert(crate::graph::walk::step_ok(g, ids, steps, k));
    let (q, b) = steps[k];
    assert(crate::graph::walk::step_from(g, ids, q, b));
    assert(g.edges[b].from == ids[q]);
    if k < j {
        assert(crate::graph::walk::no_later(steps[k], steps[j]));
    }
}

} // verus!
