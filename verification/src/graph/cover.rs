//! What orders and layouts of a graph cover.

use vstd::prelude::*;
use vstd::set_lib::{lemma_len_subset, lemma_subset_equality};

use crate::graph::layout::{
    has_slot, laid, laids, node_ids, slots_of, tree_slots_of, PlanM, TreeSlotM,
};
use crate::graph::model::{EdgeM, GraphM, GraphNodeM};
use crate::graph::order::along_edges;
use crate::graph::walk::{count_unmet, lemma_count_unmet, lemma_target_edge, lemma_targets, targets};

verus! {

/// An order along the edges holds every node.
pub proof fn law_order_complete(g: GraphM, order: Seq<GraphNodeM>, i: int)
    requires
        along_edges(g, order),
        0 <= i < g.nodes.len(),
    ensures
        exists|k: int| 0 <= k < order.len() && (#[trigger] order[k]).id == g.nodes[i].id,
{
    broadcast use vstd::seq_lib::seq_to_set_is_finite;

    let a = node_ids(order);
    let b = node_ids(g.nodes);
    assert(a.no_duplicates()) by {
        assert forall|j: int, k: int| 0 <= j < a.len() && 0 <= k < a.len() && j != k implies a[j]
            != a[k] by {
            if j < k {
                assert(order[j].id != order[k].id);
            } else {
                assert(order[k].id != order[j].id);
            }
        }
    }
    a.unique_seq_to_set();
    b.lemma_cardinality_of_set();
    assert(a.to_set().subset_of(b.to_set())) by {
        assert forall|x: Seq<char>| a.to_set().contains(x) implies b.to_set().contains(x) by {
            let k = choose|k: int| 0 <= k < a.len() && a[k] == x;
            assert(g.nodes.contains(order[k]));
            let j = choose|j: int| 0 <= j < g.nodes.len() && g.nodes[j] == order[k];
            assert(b[j] == x);
        }
    }
    lemma_len_subset(a.to_set(), b.to_set());
    lemma_subset_equality(a.to_set(), b.to_set());
    assert(b[i] == g.nodes[i].id);
    assert(b.to_set().contains(b[i]));
    assert(a.contains(b[i]));
    let k = choose|k: int| 0 <= k < a.len() && a[k] == b[i];
    assert(order[k].id == g.nodes[i].id);
}

/// Layers hold one place for each node.
pub proof fn law_layers_cover(g: GraphM, order: Seq<GraphNodeM>, i: int)
    requires
        along_edges(g, order),
        0 <= i < g.nodes.len(),
    ensures
        slots_of(g, node_ids(order)).len() == g.nodes.len(),
        exists|k: int|
            0 <= k < slots_of(g, node_ids(order)).len() && (#[trigger] slots_of(
                g,
                node_ids(order),
            )[k]).id == g.nodes[i].id,
{
    law_order_complete(g, order, i);
    let k = choose|k: int| 0 <= k < order.len() && (#[trigger] order[k]).id == g.nodes[i].id;
    assert(slots_of(g, node_ids(order))[k].id == g.nodes[i].id);
}

// ---- Trees -----------------------------------------------------------------

/// `n` edges lead from `start` to `x`.
pub open spec fn leads(g: GraphM, start: Seq<char>, x: Seq<char>, n: nat) -> bool
    decreases n,
{
    if n == 0 {
        x == start
    } else {
        exists|e: int|
            0 <= e < g.edges.len() && (#[trigger] g.edges[e]).to == x && leads(
                g,
                start,
                g.edges[e].from,
                (n - 1) as nat,
            )
    }
}

/// Edges lead from `start` to `x`.
pub open spec fn leads_to(g: GraphM, start: Seq<char>, x: Seq<char>) -> bool {
    exists|n: nat| leads(g, start, x, n)
}

/// No identity was met twice or has two places, and what has a place was met.
pub open spec fn sane(p: PlanM) -> bool {
    &&& p.met.no_duplicates()
    &&& forall|i: int, j: int|
        0 <= i < j < p.slots.len() ==> (#[trigger] p.slots[i]).id != (#[trigger] p.slots[j]).id
    &&& forall|x: Seq<char>| #[trigger] has_slot(p.slots, x) ==> p.met.contains(x)
}

/// Where every edge from `y` leads was met.
pub open spec fn followed(g: GraphM, met: Seq<Seq<char>>, y: Seq<char>) -> bool {
    forall|e: int|
        0 <= e < g.edges.len() && (#[trigger] g.edges[e]).from == y ==> met.contains(g.edges[e].to)
}

/// A layout grew: what was met stays so, and exactly what was met anew got a
/// place and was followed.
pub open spec fn grown(g: GraphM, a: PlanM, b: PlanM) -> bool {
    &&& sane(b)
    &&& forall|x: Seq<char>| a.met.contains(x) ==> #[trigger] b.met.contains(x)
    &&& forall|x: Seq<char>| #[trigger]
        has_slot(b.slots, x) <==> has_slot(a.slots, x) || b.met.contains(x) && !a.met.contains(x)
    &&& forall|x: Seq<char>| #[trigger]
        b.met.contains(x) && !a.met.contains(x) ==> followed(g, b.met, x)
}

proof fn lemma_grown_trans(g: GraphM, a: PlanM, b: PlanM, c: PlanM)
    requires
        grown(g, a, b),
        grown(g, b, c),
    ensures
        grown(g, a, c),
{
    assert forall|x: Seq<char>| a.met.contains(x) implies #[trigger] c.met.contains(x) by {
        assert(b.met.contains(x));
    }
    assert forall|x: Seq<char>| #[trigger]
        has_slot(c.slots, x) <==> has_slot(a.slots, x) || c.met.contains(x) && !a.met.contains(
            x,
        ) by {
        assert(has_slot(b.slots, x) <==> has_slot(a.slots, x) || b.met.contains(x)
            && !a.met.contains(x));
        if b.met.contains(x) {
            assert(c.met.contains(x));
        }
        if a.met.contains(x) {
            assert(b.met.contains(x));
        }
    }
    assert forall|x: Seq<char>| #[trigger] c.met.contains(x) && !a.met.contains(x) implies followed(
        g,
        c.met,
        x,
    ) by {
        if b.met.contains(x) {
            assert(followed(g, b.met, x));
            assert forall|e: int| 0 <= e < g.edges.len() && (#[trigger] g.edges[e]).from == x implies c.met.contains(
                g.edges[e].to,
            ) by {
                assert(b.met.contains(g.edges[e].to));
            }
        }
    }
}

proof fn lemma_unmet_subset(es: Seq<EdgeM>, a: Seq<Seq<char>>, b: Seq<Seq<char>>)
    requires
        forall|x: Seq<char>| a.contains(x) ==> #[trigger] b.contains(x),
    ensures
        count_unmet(es, b) <= count_unmet(es, a) <= es.len(),
    decreases es.len(),
{
    if es.len() > 0 {
        lemma_unmet_subset(es.drop_last(), a, b);
        if a.contains(es.last().to) {
            assert(b.contains(es.last().to));
        }
    }
}

proof fn lemma_push_slot(slots: Seq<TreeSlotM>, s: TreeSlotM)
    ensures
        forall|x: Seq<char>| #[trigger]
            has_slot(slots.push(s), x) <==> has_slot(slots, x) || x == s.id,
{
    let more = slots.push(s);
    assert forall|x: Seq<char>| #[trigger]
        has_slot(more, x) <==> has_slot(slots, x) || x == s.id by {
        if has_slot(slots, x) {
            let i = choose|i: int| 0 <= i < slots.len() && (#[trigger] slots[i]).id == x;
            assert(more[i].id == x);
        }
        if x == s.id {
            assert(more[slots.len() as int].id == x);
        }
        if has_slot(more, x) && x != s.id {
            let i = choose|i: int| 0 <= i < more.len() && (#[trigger] more[i]).id == x;
            assert(slots[i].id == x);
        }
    }
}

proof fn lemma_begun(plan: PlanM, id: Seq<char>)
    requires
        sane(plan),
        !plan.met.contains(id),
    ensures
        sane(PlanM { met: plan.met.push(id), ..plan }),
        forall|x: Seq<char>| #[trigger]
            plan.met.push(id).contains(x) <==> plan.met.contains(x) || x == id,
{
    let one = plan.met.push(id);
    assert forall|x: Seq<char>| #[trigger]
        one.contains(x) <==> plan.met.contains(x) || x == id by {
        if plan.met.contains(x) {
            let k = choose|k: int| 0 <= k < plan.met.len() && plan.met[k] == x;
            assert(one[k] == x);
        }
        if x == id {
            assert(one[plan.met.len() as int] == x);
        }
        if one.contains(x) && x != id {
            let k = choose|k: int| 0 <= k < one.len() && one[k] == x;
            assert(plan.met[k] == x);
        }
    }
    assert forall|a: int, b: int| 0 <= a < one.len() && 0 <= b < one.len() && a != b implies one[a]
        != one[b] by {
        if a < plan.met.len() {
            assert(one[a] == plan.met[a]);
            assert(plan.met.contains(plan.met[a]));
        }
        if b < plan.met.len() {
            assert(one[b] == plan.met[b]);
            assert(plan.met.contains(plan.met[b]));
        }
    }
}

/// Placing a node whose edges were all followed.
proof fn lemma_placed(g: GraphM, plan: PlanM, begun: PlanM, all: PlanM, s: TreeSlotM)
    requires
        sane(plan),
        !plan.met.contains(s.id),
        begun == (PlanM { met: plan.met.push(s.id), ..plan }),
        grown(g, begun, all),
        followed(g, all.met, s.id),
    ensures
        grown(g, plan, (PlanM { slots: all.slots.push(s), ..all })),
{
    let out = PlanM { slots: all.slots.push(s), ..all };
    lemma_begun(plan, s.id);
    lemma_push_slot(all.slots, s);
    assert(begun.met.contains(s.id));
    assert(all.met.contains(s.id));
    assert(!has_slot(plan.slots, s.id));
    assert(!has_slot(all.slots, s.id));
    assert forall|i: int, j: int| 0 <= i < j < out.slots.len() implies (#[trigger] out.slots[i]).id
        != (#[trigger] out.slots[j]).id by {
        if j == all.slots.len() {
            assert(all.slots[i].id == out.slots[i].id);
            assert(has_slot(all.slots, all.slots[i].id));
        } else {
            assert(all.slots[i].id != all.slots[j].id);
        }
    }
    assert forall|x: Seq<char>| plan.met.contains(x) implies #[trigger] out.met.contains(x) by {
        assert(begun.met.contains(x));
    }
    assert forall|x: Seq<char>| #[trigger] out.met.contains(x) && !plan.met.contains(x) implies followed(
        g,
        out.met,
        x,
    ) by {
        if x != s.id {
            assert(!begun.met.contains(x));
        }
    }
}

proof fn lemma_laid(g: GraphM, id: Seq<char>, depth: nat, number: nat, plan: PlanM, n: nat)
    requires
        sane(plan),
        !plan.met.contains(id) ==> n > count_unmet(g.edges, plan.met.push(id)),
    ensures
        grown(g, plan, laid(g, id, depth, number, plan, n)),
        laid(g, id, depth, number, plan, n).met.contains(id),
    decreases n, 0nat,
{
    if !plan.met.contains(id) {
        let kids = targets(g.edges, id);
        let begun = PlanM { met: plan.met.push(id), ..plan };
        let m = (n - 1) as nat;
        let out = laid(g, id, depth, number, plan, n);
        let s = out.slots.last();
        lemma_begun(plan, id);
        let all = laids(g, kids, depth + 1, begun, m);
        assert forall|k: int| 0 <= k < kids.len() implies exists|e: int|
            0 <= e < g.edges.len() && (#[trigger] g.edges[e]).to == #[trigger] kids[k] by {
            let e = lemma_target_edge(g.edges, id, k);
            assert(g.edges[e].to == kids[k]);
        }
        lemma_laids(g, kids, depth + 1, begun, m);
        assert(followed(g, all.met, id)) by {
            assert forall|e: int| 0 <= e < g.edges.len() && (#[trigger] g.edges[e]).from == id implies all.met.contains(
                g.edges[e].to,
            ) by {
                lemma_targets(g.edges, id, e);
                let k = choose|k: int| 0 <= k < kids.len() && kids[k] == g.edges[e].to;
                assert(all.met.contains(kids[k]));
            }
        }
        assert(begun.met.contains(id));
        lemma_placed(g, plan, begun, all, s);
        assert(out =~= PlanM { slots: all.slots.push(s), ..all });
    }
}

proof fn lemma_laids(g: GraphM, ids: Seq<Seq<char>>, depth: nat, plan: PlanM, n: nat)
    requires
        sane(plan),
        n >= count_unmet(g.edges, plan.met),
        forall|k: int|
            0 <= k < ids.len() ==> exists|e: int|
                0 <= e < g.edges.len() && (#[trigger] g.edges[e]).to == #[trigger] ids[k],
    ensures
        grown(g, plan, laids(g, ids, depth, plan, n)),
        forall|k: int|
            0 <= k < ids.len() ==> laids(g, ids, depth, plan, n).met.contains(#[trigger] ids[k]),
    decreases n, ids.len() + 1,
{
    if ids.len() > 0 {
        let d = ids.drop_last();
        let mid = laids(g, d, depth, plan, n);
        let out = laids(g, ids, depth, plan, n);
        let c = ids.last();
        assert forall|k: int| 0 <= k < d.len() implies exists|e: int|
            0 <= e < g.edges.len() && (#[trigger] g.edges[e]).to == #[trigger] d[k] by {
            assert(d[k] == ids[k]);
        }
        lemma_laids(g, d, depth, plan, n);
        lemma_unmet_subset(g.edges, plan.met, mid.met);
        if !mid.met.contains(c) {
            assert(c == ids[ids.len() - 1]);
            lemma_count_unmet(g.edges, mid.met, c);
        }
        lemma_laid(g, c, depth, (ids.len() - 1) as nat, mid, n);
        lemma_grown_trans(g, plan, mid, out);
        assert forall|k: int| 0 <= k < ids.len() implies out.met.contains(#[trigger] ids[k]) by {
            if k < d.len() {
                assert(d[k] == ids[k]);
                assert(mid.met.contains(ids[k]));
            }
        }
    }
}

/// Everything met lies where edges from `start` lead.
pub open spec fn all_led(g: GraphM, start: Seq<char>, met: Seq<Seq<char>>) -> bool {
    forall|x: Seq<char>| #[trigger] met.contains(x) ==> leads_to(g, start, x)
}

proof fn lemma_laid_sound(
    g: GraphM,
    start: Seq<char>,
    id: Seq<char>,
    depth: nat,
    number: nat,
    plan: PlanM,
    n: nat,
)
    requires
        leads_to(g, start, id),
        all_led(g, start, plan.met),
    ensures
        all_led(g, start, laid(g, id, depth, number, plan, n).met),
    decreases n, 0nat,
{
    if !(n == 0 || plan.met.contains(id)) {
        let one = plan.met.push(id);
        let begun = PlanM { met: one, ..plan };
        assert forall|x: Seq<char>| #[trigger] one.contains(x) implies leads_to(g, start, x) by {
            let k = choose|k: int| 0 <= k < one.len() && one[k] == x;
            if k < plan.met.len() {
                assert(plan.met[k] == x);
                assert(plan.met.contains(x));
            }
        }
        let kids = targets(g.edges, id);
        let m = choose|m: nat| leads(g, start, id, m);
        assert forall|k: int| 0 <= k < kids.len() implies leads_to(g, start, #[trigger] kids[k]) by {
            let e = lemma_target_edge(g.edges, id, k);
            assert(g.edges[e].to == kids[k]);
            assert(leads(g, start, kids[k], m + 1));
        }
        lemma_laids_sound(g, start, kids, depth + 1, begun, (n - 1) as nat);
    }
}

proof fn lemma_laids_sound(
    g: GraphM,
    start: Seq<char>,
    ids: Seq<Seq<char>>,
    depth: nat,
    plan: PlanM,
    n: nat,
)
    requires
        forall|k: int| 0 <= k < ids.len() ==> leads_to(g, start, #[trigger] ids[k]),
        all_led(g, start, plan.met),
    ensures
        all_led(g, start, laids(g, ids, depth, plan, n).met),
    decreases n, ids.len() + 1,
{
    if ids.len() > 0 {
        let d = ids.drop_last();
        assert forall|k: int| 0 <= k < d.len() implies leads_to(g, start, #[trigger] d[k]) by {
            assert(d[k] == ids[k]);
        }
        lemma_laids_sound(g, start, d, depth, plan, n);
        assert(ids.last() == ids[ids.len() - 1]);
        lemma_laid_sound(
            g,
            start,
            ids.last(),
            depth,
            (ids.len() - 1) as nat,
            laids(g, d, depth, plan, n),
            n,
        );
    }
}

proof fn lemma_led_met(g: GraphM, start: Seq<char>, met: Seq<Seq<char>>, x: Seq<char>, n: nat)
    requires
        met.contains(start),
        forall|y: Seq<char>| #[trigger] met.contains(y) ==> followed(g, met, y),
        leads(g, start, x, n),
    ensures
        met.contains(x),
    decreases n,
{
    if n > 0 {
        let e = choose|e: int|
            0 <= e < g.edges.len() && (#[trigger] g.edges[e]).to == x && leads(
                g,
                start,
                g.edges[e].from,
                (n - 1) as nat,
            );
        lemma_led_met(g, start, met, g.edges[e].from, (n - 1) as nat);
        assert(followed(g, met, g.edges[e].from));
    }
}

/// A tree layout gives a place to exactly the identities that edges from the
/// root lead to, and to each of them one.
pub proof fn law_tree_layout_covers(g: GraphM, root: Seq<char>, x: Seq<char>)
    ensures
        has_slot(tree_slots_of(g, root), x) <==> leads_to(g, root, x),
        forall|i: int, j: int|
            0 <= i < j < tree_slots_of(g, root).len() ==> (#[trigger] tree_slots_of(
                g,
                root,
            )[i]).id != (#[trigger] tree_slots_of(g, root)[j]).id,
{
    let none = PlanM { met: seq![], slots: seq![] };
    let n = g.edges.len() + 1;
    let out = laid(g, root, 0, 0, none, n);
    lemma_unmet_subset(g.edges, none.met.push(root), none.met.push(root));
    lemma_laid(g, root, 0, 0, none, n);
    assert(leads(g, root, root, 0));
    lemma_laid_sound(g, root, root, 0, 0, none, n);
    assert(has_slot(out.slots, x) <==> out.met.contains(x)) by {
        assert(!has_slot(none.slots, x));
        assert(!none.met.contains(x));
    }
    if leads_to(g, root, x) {
        let m = choose|m: nat| leads(g, root, x, m);
        assert forall|y: Seq<char>| #[trigger] out.met.contains(y) implies followed(
            g,
            out.met,
            y,
        ) by {
            assert(!none.met.contains(y));
        }
        lemma_led_met(g, root, out.met, x, m);
    }
}

} // verus!
