//! Walks through a graph along its edges, and the order that follows them.

use vstd::prelude::*;

use crate::graph::model::{
    lemma_node_at, node_at, node_of, refs_view, EdgeM, Graph, GraphM, GraphNode, GraphNodeM, NodeId,
};

verus! {

broadcast use vstd::std_specs::vec::group_vec_axioms;

/// The nodes that identities belong to, in order.
pub open spec fn nodes_of(g: GraphM, ids: Seq<Seq<char>>) -> Seq<GraphNodeM>
    decreases ids.len(),
{
    if ids.len() == 0 {
        seq![]
    } else {
        match node_of(g, ids.last()) {
            Some(n) => nodes_of(g, ids.drop_last()).push(n),
            None => nodes_of(g, ids.drop_last()),
        }
    }
}

/// Whether an identity is among others.
fn seen(ids: &Vec<NodeId>, id: &NodeId) -> (r: bool)
    ensures
        r == ids.deep_view().contains(id.deep_view()),
{
    let ghost all = ids.deep_view();
    let mut i: usize = 0;
    while i < ids.len()
        invariant
            i <= ids.len(),
            all == ids.deep_view(),
            forall|j: int| 0 <= j < i ==> #[trigger] all[j] != id.deep_view(),
        decreases ids.len() - i,
    {
        assert(all[i as int] == ids@[i as int].deep_view());
        if ids[i].same(id) {
            assert(all[i as int] == id.deep_view());
            return true;
        }
        i = i + 1;
    }
    false
}

// ---- Breadth first ---------------------------------------------------------

/// The position `(p, e)` comes no later than `(q, f)`.
pub open spec fn no_later(a: (int, int), b: (int, int)) -> bool {
    a.0 < b.0 || a.0 == b.0 && a.1 <= b.1
}

/// Edge `e` leaves the node at place `p` of the walk.
pub open spec fn step_from(g: GraphM, ids: Seq<Seq<char>>, p: int, e: int) -> bool {
    &&& 0 <= p < ids.len()
    &&& 0 <= e < g.edges.len()
    &&& g.edges[e].from == ids[p]
    &&& node_at(g, ids[p]) is Some
}

/// Every identity of the walk but the first was reached at the step noted for
/// it, and these steps follow each other.
pub open spec fn steps_ok(
    g: GraphM,
    start: Seq<char>,
    ids: Seq<Seq<char>>,
    steps: Seq<(int, int)>,
) -> bool {
    &&& ids.len() == steps.len()
    &&& ids.len() > 0
    &&& ids[0] == start
    &&& ids.no_duplicates()
    &&& forall|k: int| 0 < k < ids.len() ==> #[trigger] step_ok(g, ids, steps, k)
    &&& forall|j: int, k: int|
        0 < j < k < ids.len() ==> no_later(#[trigger] steps[j], #[trigger] steps[k]) && steps[j]
            != steps[k]
}

/// The identity at a place was reached at the step noted for it, from an
/// earlier place.
pub open spec fn step_ok(g: GraphM, ids: Seq<Seq<char>>, steps: Seq<(int, int)>, k: int) -> bool {
    &&& steps[k].0 < k
    &&& step_from(g, ids, steps[k].0, steps[k].1)
    &&& g.edges[steps[k].1].to == ids[k]
}

/// Every step before `(p, e)` leads to an identity of the walk that was
/// reached at that step or earlier.
pub open spec fn closed_before(
    g: GraphM,
    ids: Seq<Seq<char>>,
    steps: Seq<(int, int)>,
    p: int,
    e: int,
) -> bool {
    forall|q: int, f: int|
        (q < p || q == p && f < e) && #[trigger] step_from(g, ids, q, f) ==> reached_by(
            ids,
            steps,
            g.edges[f].to,
            (q, f),
        )
}

/// The identity is part of the walk, and was reached no later than the step.
pub open spec fn reached_by(
    ids: Seq<Seq<char>>,
    steps: Seq<(int, int)>,
    id: Seq<char>,
    by: (int, int),
) -> bool {
    exists|k: int|
        0 <= k < ids.len() && #[trigger] ids[k] == id && (k == 0 || no_later(steps[k], by))
}

/// The identities in the order in which a breadth-first walk meets them: one
/// after the other every node sends out its edges in their order, and an
/// identity is met at the first edge that leads to it.
pub open spec fn breadth_first(
    g: GraphM,
    start: Seq<char>,
    ids: Seq<Seq<char>>,
    steps: Seq<(int, int)>,
) -> bool {
    &&& steps_ok(g, start, ids, steps)
    &&& closed_before(g, ids, steps, ids.len() as int, 0)
}

/// `x` can be reached from `start` in `n` steps along edges that leave nodes.
pub open spec fn reachable(g: GraphM, start: Seq<char>, x: Seq<char>, n: nat) -> bool
    decreases n,
{
    if n == 0 {
        x == start
    } else {
        exists|e: int|
            0 <= e < g.edges.len() && (#[trigger] g.edges[e]).to == x && node_at(
                g,
                g.edges[e].from,
            ) is Some && reachable(g, start, g.edges[e].from, (n - 1) as nat)
    }
}

/// `x` can be reached from `start` along edges that leave nodes.
pub open spec fn can_reach(g: GraphM, start: Seq<char>, x: Seq<char>) -> bool {
    exists|n: nat| reachable(g, start, x, n)
}

/// A breadth-first walk meets exactly what can be reached, each identity once.
pub proof fn law_breadth_first_reaches(
    g: GraphM,
    start: Seq<char>,
    ids: Seq<Seq<char>>,
    steps: Seq<(int, int)>,
    x: Seq<char>,
)
    requires
        breadth_first(g, start, ids, steps),
    ensures
        ids.contains(x) <==> can_reach(g, start, x),
        ids.no_duplicates(),
{
    if ids.contains(x) {
        let k = choose|k: int| 0 <= k < ids.len() && ids[k] == x;
        lemma_walk_reachable(g, start, ids, steps, k);
    }
    if can_reach(g, start, x) {
        let n = choose|n: nat| reachable(g, start, x, n);
        lemma_reachable_met(g, start, ids, steps, x, n);
    }
}

proof fn lemma_walk_reachable(
    g: GraphM,
    start: Seq<char>,
    ids: Seq<Seq<char>>,
    steps: Seq<(int, int)>,
    k: int,
)
    requires
        breadth_first(g, start, ids, steps),
        0 <= k < ids.len(),
    ensures
        can_reach(g, start, ids[k]),
    decreases k,
{
    if k == 0 {
        assert(reachable(g, start, ids[0], 0));
    } else {
        let (p, e) = steps[k];
        assert(step_ok(g, ids, steps, k));
        assert(step_from(g, ids, p, e));
        lemma_walk_reachable(g, start, ids, steps, p);
        let n = choose|n: nat| reachable(g, start, ids[p], n);
        assert(g.edges[e].to == ids[k]);
        assert(reachable(g, start, ids[k], n + 1));
    }
}

proof fn lemma_reachable_met(
    g: GraphM,
    start: Seq<char>,
    ids: Seq<Seq<char>>,
    steps: Seq<(int, int)>,
    x: Seq<char>,
    n: nat,
)
    requires
        breadth_first(g, start, ids, steps),
        reachable(g, start, x, n),
    ensures
        ids.contains(x),
    decreases n,
{
    if n > 0 {
        let e = choose|e: int|
            0 <= e < g.edges.len() && (#[trigger] g.edges[e]).to == x && node_at(
                g,
                g.edges[e].from,
            ) is Some && reachable(g, start, g.edges[e].from, (n - 1) as nat);
        let y = g.edges[e].from;
        lemma_reachable_met(g, start, ids, steps, y, (n - 1) as nat);
        let p = choose|p: int| 0 <= p < ids.len() && ids[p] == y;
        assert(step_from(g, ids, p, e));
        assert(reached_by(ids, steps, x, (p, e)));
    } else {
        assert(ids[0] == x);
    }
}

/// `n` is the least number of steps in which `x` can be reached from `start`.
pub open spec fn fewest_steps(g: GraphM, start: Seq<char>, x: Seq<char>, n: nat) -> bool {
    reachable(g, start, x, n) && forall|m: nat| #[trigger] reachable(g, start, x, m) ==> n <= m
}

/// How many steps of the walk lead to the identity at a place.
spec fn depth_at(steps: Seq<(int, int)>, k: int) -> nat
    decreases k,
{
    if k <= 0 || !(0 <= steps[k].0 < k) {
        0
    } else {
        depth_at(steps, steps[k].0) + 1
    }
}

proof fn lemma_depth_order(
    g: GraphM,
    start: Seq<char>,
    ids: Seq<Seq<char>>,
    steps: Seq<(int, int)>,
    j: int,
    k: int,
)
    requires
        breadth_first(g, start, ids, steps),
        0 <= j <= k < ids.len(),
    ensures
        depth_at(steps, j) <= depth_at(steps, k),
    decreases k,
{
    if 0 < j < k {
        assert(step_ok(g, ids, steps, j) && step_ok(g, ids, steps, k));
        assert(no_later(steps[j], steps[k]));
        lemma_depth_order(g, start, ids, steps, steps[j].0, steps[k].0);
    }
}

proof fn lemma_depth_reachable(
    g: GraphM,
    start: Seq<char>,
    ids: Seq<Seq<char>>,
    steps: Seq<(int, int)>,
    k: int,
)
    requires
        breadth_first(g, start, ids, steps),
        0 <= k < ids.len(),
    ensures
        reachable(g, start, ids[k], depth_at(steps, k)),
    decreases k,
{
    if k > 0 {
        let (p, e) = steps[k];
        assert(step_ok(g, ids, steps, k));
        assert(step_from(g, ids, p, e));
        lemma_depth_reachable(g, start, ids, steps, p);
        assert(g.edges[e].to == ids[k]);
    }
}

/// What can be reached in `n` steps stands at a place that no more lead to.
proof fn lemma_depth_least(
    g: GraphM,
    start: Seq<char>,
    ids: Seq<Seq<char>>,
    steps: Seq<(int, int)>,
    x: Seq<char>,
    n: nat,
) -> (k: int)
    requires
        breadth_first(g, start, ids, steps),
        reachable(g, start, x, n),
    ensures
        0 <= k < ids.len(),
        ids[k] == x,
        depth_at(steps, k) <= n,
    decreases n,
{
    if n == 0 {
        0
    } else {
        let e = choose|e: int|
            0 <= e < g.edges.len() && (#[trigger] g.edges[e]).to == x && node_at(
                g,
                g.edges[e].from,
            ) is Some && reachable(g, start, g.edges[e].from, (n - 1) as nat);
        let p = lemma_depth_least(g, start, ids, steps, g.edges[e].from, (n - 1) as nat);
        assert(step_from(g, ids, p, e));
        assert(reached_by(ids, steps, x, (p, e)));
        let k = choose|k: int|
            0 <= k < ids.len() && #[trigger] ids[k] == x && (k == 0 || no_later(steps[k], (p, e)));
        if k > 0 {
            assert(step_ok(g, ids, steps, k));
            lemma_depth_order(g, start, ids, steps, steps[k].0, p);
        }
        k
    }
}

/// A breadth-first walk meets identities by the least number of steps in which
/// they can be reached, those with fewer steps first.
pub proof fn law_breadth_first_by_distance(
    g: GraphM,
    start: Seq<char>,
    ids: Seq<Seq<char>>,
    steps: Seq<(int, int)>,
    i: int,
    j: int,
) -> (r: (nat, nat))
    requires
        breadth_first(g, start, ids, steps),
        0 <= i <= j < ids.len(),
    ensures
        fewest_steps(g, start, ids[i], r.0),
        fewest_steps(g, start, ids[j], r.1),
        r.0 <= r.1,
{
    lemma_depth_order(g, start, ids, steps, i, j);
    lemma_depth_fewest(g, start, ids, steps, i);
    lemma_depth_fewest(g, start, ids, steps, j);
    (depth_at(steps, i), depth_at(steps, j))
}

proof fn lemma_depth_fewest(
    g: GraphM,
    start: Seq<char>,
    ids: Seq<Seq<char>>,
    steps: Seq<(int, int)>,
    k: int,
)
    requires
        breadth_first(g, start, ids, steps),
        0 <= k < ids.len(),
    ensures
        fewest_steps(g, start, ids[k], depth_at(steps, k)),
{
    lemma_depth_reachable(g, start, ids, steps, k);
    assert forall|m: nat| #[trigger] reachable(g, start, ids[k], m) implies depth_at(steps, k)
        <= m by {
        let p = lemma_depth_least(g, start, ids, steps, ids[k], m);
        assert(p == k);
    }
}

/// Two breadth-first walks from one start are the same.
pub proof fn law_breadth_first_unique(
    g: GraphM,
    start: Seq<char>,
    a: Seq<Seq<char>>,
    sa: Seq<(int, int)>,
    b: Seq<Seq<char>>,
    sb: Seq<(int, int)>,
)
    requires
        breadth_first(g, start, a, sa),
        breadth_first(g, start, b, sb),
    ensures
        a == b,
{
    lemma_prefix_equal(g, start, a, sa, b, sb, a.len() as int);
    lemma_prefix_equal(g, start, b, sb, a, sa, b.len() as int);
    assert(a =~= b);
}

/// The first `n` identities of one walk are those of the other.
proof fn lemma_prefix_equal(
    g: GraphM,
    start: Seq<char>,
    a: Seq<Seq<char>>,
    sa: Seq<(int, int)>,
    b: Seq<Seq<char>>,
    sb: Seq<(int, int)>,
    n: int,
)
    requires
        breadth_first(g, start, a, sa),
        breadth_first(g, start, b, sb),
        0 < n <= a.len(),
    ensures
        n <= b.len(),
        forall|i: int| 0 <= i < n ==> #[trigger] a[i] == b[i],
    decreases n,
{
    if n > 1 {
        lemma_prefix_equal(g, start, a, sa, b, sb, n - 1);
        let k = n - 1;
        let (p, e) = sa[k];
        assert(step_ok(g, a, sa, k));
        assert(step_from(g, a, p, e));
        assert(a[p] == b[p]);
        assert(step_from(g, b, p, e));
        assert(g.edges[e].to == a[k]);
        assert(reached_by(b, sb, a[k], (p, e)));
        let m = choose|m: int|
            0 <= m < b.len() && #[trigger] b[m] == a[k] && (m == 0 || no_later(sb[m], (p, e)));
        // `a[k]` is new, so it stands behind the common part of `b` too.
        assert(m >= k) by {
            if m < k {
                assert(a[m] == b[m]);
            }
        }
        if m > k {
            // What stands at `k` in `b` was met earlier than `(p, e)`, and so
            // is met by `a` among its first `k`.
            let (q, f) = sb[k];
            assert(no_later(sb[k], sb[m]) && sb[k] != sb[m]);
            assert(step_ok(g, b, sb, k));
            assert(step_from(g, b, q, f));
            assert(q < k);
            assert(a[q] == b[q]);
            assert(step_from(g, a, q, f));
            assert(g.edges[f].to == b[k]);
            assert(reached_by(a, sa, b[k], (q, f)));
            let j = choose|j: int|
                0 <= j < a.len() && #[trigger] a[j] == b[k] && (j == 0 || no_later(sa[j], (q, f)));
            if j >= k {
                if j > k {
                    assert(no_later(sa[k], sa[j]) && sa[k] != sa[j]);
                }
                assert(false);
            } else {
                assert(a[j] == b[j]);
                assert(b[j] == b[k]);
            }
        }
    }
}

impl Graph {
    /// The nodes that can be reached from `start` along the edges, in
    /// breadth-first order.
    pub fn bfs(&self, start: &NodeId) -> (r: Vec<&GraphNode>)
        ensures
            if node_at(self.deep_view(), start.deep_view()) is None {
                r@.len() == 0
            } else {
                exists|ids: Seq<Seq<char>>, steps: Seq<(int, int)>|
                    #[trigger] breadth_first(self.deep_view(), start.deep_view(), ids, steps)
                        && refs_view(r@) == nodes_of(self.deep_view(), ids)
            },
    {
        let ghost g = self.deep_view();
        let mut result: Vec<&GraphNode> = Vec::new();
        if self.position(start).is_none() {
            return result;
        }
        let mut queue: Vec<NodeId> = Vec::new();
        queue.push(start.clone());
        let ghost mut steps: Seq<(int, int)> = seq![(0int, 0int)];
        let mut head: usize = 0;
        assert(queue.deep_view() =~= seq![start.deep_view()]);
        assert(refs_view(result@) =~= nodes_of(g, queue.deep_view().take(0)));
        while head < queue.len()
            invariant
                g == self.deep_view(),
                head <= queue.len(),
                steps_ok(g, start.deep_view(), queue.deep_view(), steps),
                forall|k: int| 0 < k < steps.len() ==> (#[trigger] steps[k]).0 < head,
                closed_before(g, queue.deep_view(), steps, head as int, 0),
                refs_view(result@) == nodes_of(g, queue.deep_view().take(head as int)),
            decreases unmet(g, queue.deep_view()) + (queue.len() - head),
        {
            let ghost before = queue.deep_view();
            let current = queue[head].clone();
            let ghost p = head as int;
            assert(before[p] == current.deep_view());
            assert(before.take(p + 1).drop_last() =~= before.take(p));
            let found = self.get_node(&current);
            if let Some(node) = found {
                let ghost done = result@;
                result.push(node);
                assert(refs_view(result@) =~= refs_view(done).push(node.deep_view()));
                let mut i: usize = 0;
                while i < self.edges.len()
                    invariant
                        g == self.deep_view(),
                        i <= self.edges.len(),
                        0 <= p < before.len(),
                        p == head,
                        current.deep_view() == before[p],
                        node_at(g, current.deep_view()) is Some,
                        before.len() <= queue@.len(),
                        queue.deep_view().take(before.len() as int) == before,
                        steps_ok(g, start.deep_view(), queue.deep_view(), steps),
                        forall|k: int|
                            0 < k < steps.len() ==> (#[trigger] steps[k]).0 < p || steps[k].0 == p
                                && steps[k].1 < i,
                        closed_before(g, queue.deep_view(), steps, p, i as int),
                        unmet(g, queue.deep_view()) + queue@.len() <= unmet(g, before)
                            + before.len(),
                    decreases self.edges.len() - i,
                {
                    let e = &self.edges[i];
                    assert(g.edges[i as int] == e.deep_view());
                    let ghost ids = queue.deep_view();
                    assert(ids[p] == before[p]) by {
                        assert(ids.take(before.len() as int)[p] == ids[p]);
                    }
                    if e.from.same(&current) {
                        if !seen(&queue, &e.to) {
                            let ghost old_steps = steps;
                            queue.push(e.to.clone());
                            proof {
                                steps = steps.push((p, i as int));
                                assert(queue.deep_view() =~= ids.push(e.to.deep_view()));
                                lemma_push_step(
                                    g,
                                    start.deep_view(),
                                    ids,
                                    old_steps,
                                    p,
                                    i as int,
                                );
                                lemma_unmet(g, ids, i as int);
                                assert(queue.deep_view().take(before.len() as int) =~= before);
                            }
                        } else {
                            proof {
                                let k = choose|k: int|
                                    0 <= k < ids.len() && ids[k] == e.to.deep_view();
                                assert(reached_by(ids, steps, e.to.deep_view(), (p, i as int)));
                                lemma_closed_one_more(g, ids, steps, p, i as int);
                            }
                        }
                    } else {
                        proof {
                            assert(!step_from(g, ids, p, i as int));
                            lemma_closed_one_more(g, ids, steps, p, i as int);
                        }
                    }
                    i = i + 1;
                }
                proof {
                    lemma_closed_next(g, queue.deep_view(), steps, p);
                    assert(queue.deep_view().take(p + 1) =~= before.take(p + 1)) by {
                        let q = queue.deep_view();
                        assert forall|k: int| 0 <= k < p + 1 implies q[k] == before[k] by {
                            assert(q.take(before.len() as int)[k] == q[k]);
                        }
                    }
                }
            } else {
                proof {
                    lemma_closed_skip(g, before, steps, p);
                }
            }
            head = head + 1;
        }
        proof {
            assert(queue.deep_view().take(head as int) =~= queue.deep_view());
            assert(breadth_first(g, start.deep_view(), queue.deep_view(), steps));
        }
        result
    }
}

/// How many edges lead to an identity that was not met.
pub open spec fn unmet(g: GraphM, ids: Seq<Seq<char>>) -> nat {
    count_unmet(g.edges, ids)
}

pub open spec fn count_unmet(es: Seq<EdgeM>, ids: Seq<Seq<char>>) -> nat
    decreases es.len(),
{
    if es.len() == 0 {
        0
    } else if ids.contains(es.last().to) {
        count_unmet(es.drop_last(), ids)
    } else {
        count_unmet(es.drop_last(), ids) + 1
    }
}

pub proof fn lemma_count_unmet(es: Seq<EdgeM>, ids: Seq<Seq<char>>, x: Seq<char>)
    ensures
        count_unmet(es, ids.push(x)) <= count_unmet(es, ids),
        !ids.contains(x) && (exists|e: int| 0 <= e < es.len() && (#[trigger] es[e]).to == x)
            ==> count_unmet(es, ids.push(x)) < count_unmet(es, ids),
    decreases es.len(),
{
    if es.len() > 0 {
        let d = es.drop_last();
        lemma_count_unmet(d, ids, x);
        let y = es.last().to;
        let q = ids.push(x);
        if ids.contains(y) {
            let k = choose|k: int| 0 <= k < ids.len() && ids[k] == y;
            assert(q[k] == y);
        }
        if !ids.contains(x) && exists|e: int| 0 <= e < es.len() && (#[trigger] es[e]).to == x {
            let e = choose|e: int| 0 <= e < es.len() && (#[trigger] es[e]).to == x;
            if e < d.len() {
                assert(d[e] == es[e]);
            } else {
                assert(q[ids.len() as int] == x);
                assert(q.contains(y));
            }
        }
        if q.contains(y) && !ids.contains(y) {
            assert(y == x) by {
                let k = choose|k: int| 0 <= k < q.len() && q[k] == y;
                if k < ids.len() {
                    assert(ids[k] == y);
                }
            }
        }
    }
}

proof fn lemma_unmet(g: GraphM, ids: Seq<Seq<char>>, e: int)
    requires
        0 <= e < g.edges.len(),
        !ids.contains(g.edges[e].to),
    ensures
        unmet(g, ids.push(g.edges[e].to)) + 1 <= unmet(g, ids),
{
    lemma_count_unmet(g.edges, ids, g.edges[e].to);
    assert(g.edges[e].to == g.edges[e].to);
}

/// One more step that leads to an identity already met, or to none.
proof fn lemma_closed_one_more(
    g: GraphM,
    ids: Seq<Seq<char>>,
    steps: Seq<(int, int)>,
    p: int,
    e: int,
)
    requires
        closed_before(g, ids, steps, p, e),
        step_from(g, ids, p, e) ==> reached_by(ids, steps, g.edges[e].to, (p, e)),
    ensures
        closed_before(g, ids, steps, p, e + 1),
{
    assert forall|q: int, f: int|
        (q < p || q == p && f < e + 1) && #[trigger] step_from(g, ids, q, f) implies reached_by(
        ids,
        steps,
        g.edges[f].to,
        (q, f),
    ) by {
        if q == p && f == e {
        }
    }
}

/// All edges of a place are done.
proof fn lemma_closed_next(g: GraphM, ids: Seq<Seq<char>>, steps: Seq<(int, int)>, p: int)
    requires
        closed_before(g, ids, steps, p, g.edges.len() as int),
    ensures
        closed_before(g, ids, steps, p + 1, 0),
{
    assert forall|q: int, f: int|
        (q < p + 1 || q == p + 1 && f < 0) && #[trigger] step_from(g, ids, q, f) implies reached_by(
        ids,
        steps,
        g.edges[f].to,
        (q, f),
    ) by {}
}

/// A place that is no node sends out nothing.
proof fn lemma_closed_skip(g: GraphM, ids: Seq<Seq<char>>, steps: Seq<(int, int)>, p: int)
    requires
        closed_before(g, ids, steps, p, 0),
        0 <= p < ids.len(),
        node_at(g, ids[p]) is None,
    ensures
        closed_before(g, ids, steps, p + 1, 0),
{
    assert forall|q: int, f: int|
        (q < p + 1 || q == p + 1 && f < 0) && #[trigger] step_from(g, ids, q, f) implies reached_by(
        ids,
        steps,
        g.edges[f].to,
        (q, f),
    ) by {}
}

/// A step that leads to a new identity.
proof fn lemma_push_step(
    g: GraphM,
    start: Seq<char>,
    ids: Seq<Seq<char>>,
    steps: Seq<(int, int)>,
    p: int,
    e: int,
)
    requires
        steps_ok(g, start, ids, steps),
        step_from(g, ids, p, e),
        !ids.contains(g.edges[e].to),
        forall|k: int|
            0 < k < steps.len() ==> (#[trigger] steps[k]).0 < p || steps[k].0 == p && steps[k].1
                < e,
        closed_before(g, ids, steps, p, e),
    ensures
        steps_ok(g, start, ids.push(g.edges[e].to), steps.push((p, e))),
        closed_before(g, ids.push(g.edges[e].to), steps.push((p, e)), p, e + 1),
{
    let x = g.edges[e].to;
    let a = ids.push(x);
    let s = steps.push((p, e));
    assert(a[0] == ids[0]);
    assert(a.no_duplicates()) by {
        assert forall|i: int, j: int| 0 <= i < a.len() && 0 <= j < a.len() && i != j implies a[i]
            != a[j] by {
            if i < ids.len() {
                assert(a[i] == ids[i]);
            }
            if j < ids.len() {
                assert(a[j] == ids[j]);
            }
        }
    }
    assert forall|k: int| 0 < k < a.len() implies #[trigger] step_ok(g, a, s, k) by {
        if k < ids.len() {
            assert(a[k] == ids[k] && s[k] == steps[k]);
            assert(step_ok(g, ids, steps, k));
            assert(a[steps[k].0] == ids[steps[k].0]);
        } else {
            assert(s[k] == (p, e) && a[k] == x);
            assert(a[p] == ids[p]);
        }
    }
    assert forall|j: int, k: int| 0 < j < k < a.len() implies no_later(
        #[trigger] s[j],
        #[trigger] s[k],
    ) && s[j] != s[k] by {
        assert(s[j] == steps[j]);
        if k < ids.len() {
            assert(s[k] == steps[k]);
        }
    }
    assert forall|q: int, f: int|
        (q < p || q == p && f < e + 1) && #[trigger] step_from(g, a, q, f) implies reached_by(
        a,
        s,
        g.edges[f].to,
        (q, f),
    ) by {
        if q == p && f == e {
            assert(a[ids.len() as int] == x);
            assert(reached_by(a, s, x, (p, e)));
        } else {
            assert(step_from(g, ids, q, f));
            assert(reached_by(ids, steps, g.edges[f].to, (q, f)));
            let k = choose|k: int|
                0 <= k < ids.len() && #[trigger] ids[k] == g.edges[f].to && (k == 0 || no_later(
                    steps[k],
                    (q, f),
                ));
            assert(a[k] == ids[k] && s[k] == steps[k]);
        }
    }
}


// ---- Depth first -----------------------------------------------------------

/// Where the edges that leave a node lead, in order.
pub open spec fn targets(es: Seq<EdgeM>, id: Seq<char>) -> Seq<Seq<char>>
    decreases es.len(),
{
    if es.len() == 0 {
        seq![]
    } else if es.last().from == id {
        targets(es.drop_last(), id).push(es.last().to)
    } else {
        targets(es.drop_last(), id)
    }
}

/// The identities met so far with those that a depth-first walk from `id`
/// adds: `id`, if it is a node and was not met, then what the walks from its
/// targets add, one after the other. No path is followed beyond `n` nodes.
pub open spec fn depth_first(g: GraphM, id: Seq<char>, met: Seq<Seq<char>>, n: nat) -> Seq<
    Seq<char>,
>
    decreases n, 0nat,
{
    if n == 0 || node_at(g, id) is None || met.contains(id) {
        met
    } else {
        depth_firsts(g, targets(g.edges, id), met.push(id), (n - 1) as nat)
    }
}

/// Depth-first walks from several identities, one after the other.
pub open spec fn depth_firsts(
    g: GraphM,
    ids: Seq<Seq<char>>,
    met: Seq<Seq<char>>,
    n: nat,
) -> Seq<Seq<char>>
    decreases n, ids.len() + 1,
{
    if ids.len() == 0 {
        met
    } else {
        depth_first(g, ids.last(), depth_firsts(g, ids.drop_last(), met, n), n)
    }
}

/// The identities in the order in which a depth-first walk meets them. No path
/// can be longer than there are nodes.
pub open spec fn depth_walk(g: GraphM, start: Seq<char>) -> Seq<Seq<char>> {
    depth_first(g, start, seq![], g.nodes.len())
}

impl Graph {
    /// The nodes that can be reached from `start` along the edges, in
    /// depth-first order.
    pub fn dfs(&self, start: &NodeId) -> (r: Vec<&GraphNode>)
        ensures
            refs_view(r@) == nodes_of(
                self.deep_view(),
                depth_walk(self.deep_view(), start.deep_view()),
            ),
    {
        let ghost g = self.deep_view();
        let mut met: Vec<NodeId> = Vec::new();
        assert(met.deep_view() =~= seq![]);
        assert(g.nodes.len() == self.nodes.len());
        self.dfs_visit(start, &mut met, self.nodes.len());
        self.nodes_with(&met)
    }

    /// The nodes that identities belong to, in order.
    pub(crate) fn nodes_with(&self, ids: &Vec<NodeId>) -> (r: Vec<&GraphNode>)
        ensures
            refs_view(r@) == nodes_of(self.deep_view(), ids.deep_view()),
    {
        let ghost g = self.deep_view();
        let ghost all = ids.deep_view();
        let mut r: Vec<&GraphNode> = Vec::new();
        let mut i: usize = 0;
        assert(refs_view(r@) =~= nodes_of(g, all.take(0)));
        while i < ids.len()
            invariant
                i <= ids.len(),
                g == self.deep_view(),
                all == ids.deep_view(),
                refs_view(r@) == nodes_of(g, all.take(i as int)),
            decreases ids.len() - i,
        {
            assert(all.take(i + 1).drop_last() =~= all.take(i as int));
            assert(all.take(i + 1).last() == ids@[i as int].deep_view());
            let ghost done = r@;
            if let Some(n) = self.get_node(&ids[i]) {
                r.push(n);
                assert(refs_view(r@) =~= refs_view(done).push(n.deep_view()));
            }
            i = i + 1;
        }
        assert(all.take(i as int) =~= all);
        r
    }

    fn dfs_visit(&self, id: &NodeId, met: &mut Vec<NodeId>, n: usize)
        ensures
            final(met).deep_view() == depth_first(
                self.deep_view(),
                id.deep_view(),
                old(met).deep_view(),
                n as nat,
            ),
        decreases n,
    {
        let ghost g = self.deep_view();
        if n == 0 || self.position(id).is_none() || seen(met, id) {
            return;
        }
        let ghost start = met.deep_view();
        met.push(id.clone());
        assert(met.deep_view() =~= start.push(id.deep_view()));
        let ghost m = (n - 1) as nat;
        let mut i: usize = 0;
        while i < self.edges.len()
            invariant
                g == self.deep_view(),
                n > 0,
                m == n - 1,
                i <= self.edges.len(),
                met.deep_view() == depth_firsts(
                    g,
                    targets(g.edges.take(i as int), id.deep_view()),
                    start.push(id.deep_view()),
                    m,
                ),
            decreases self.edges.len() - i,
        {
            let e = &self.edges[i];
            assert(g.edges.take(i + 1).drop_last() =~= g.edges.take(i as int));
            assert(g.edges.take(i + 1).last() == e.deep_view());
            if e.from.same(id) {
                let ghost ts = targets(g.edges.take(i as int), id.deep_view());
                assert(ts.push(e.to.deep_view()).drop_last() =~= ts);
                self.dfs_visit(&e.to, met, n - 1);
            }
            i = i + 1;
        }
        assert(g.edges.take(i as int) =~= g.edges);
    }
}

/// How many nodes were not met.
pub open spec fn unmet_nodes(ns: Seq<GraphNodeM>, met: Seq<Seq<char>>) -> nat
    decreases ns.len(),
{
    if ns.len() == 0 {
        0
    } else if met.contains(ns.last().id) {
        unmet_nodes(ns.drop_last(), met)
    } else {
        unmet_nodes(ns.drop_last(), met) + 1
    }
}

pub proof fn lemma_unmet_nodes_mono(ns: Seq<GraphNodeM>, a: Seq<Seq<char>>, b: Seq<Seq<char>>)
    requires
        forall|x: Seq<char>| a.contains(x) ==> #[trigger] b.contains(x),
    ensures
        unmet_nodes(ns, b) <= unmet_nodes(ns, a) <= ns.len(),
        (exists|i: int|
            0 <= i < ns.len() && !a.contains((#[trigger] ns[i]).id) && b.contains(ns[i].id))
            ==> unmet_nodes(ns, b) < unmet_nodes(ns, a),
    decreases ns.len(),
{
    if ns.len() > 0 {
        let d = ns.drop_last();
        lemma_unmet_nodes_mono(d, a, b);
        if exists|i: int|
            0 <= i < ns.len() && !a.contains((#[trigger] ns[i]).id) && b.contains(ns[i].id) {
            let i = choose|i: int|
                0 <= i < ns.len() && !a.contains((#[trigger] ns[i]).id) && b.contains(ns[i].id);
            if i < d.len() {
                assert(d[i] == ns[i]);
            }
        }
    }
}

proof fn lemma_all_met(ns: Seq<GraphNodeM>, met: Seq<Seq<char>>, i: int)
    requires
        unmet_nodes(ns, met) == 0,
        0 <= i < ns.len(),
    ensures
        met.contains(ns[i].id),
    decreases ns.len(),
{
    if i < ns.len() - 1 {
        assert(ns.drop_last()[i] == ns[i]);
        lemma_all_met(ns.drop_last(), met, i);
    }
}

/// Every node that an edge from `y` leads to was met.
pub open spec fn done_with(g: GraphM, met: Seq<Seq<char>>, y: Seq<char>) -> bool {
    forall|e: int|
        0 <= e < g.edges.len() && (#[trigger] g.edges[e]).from == y && node_at(g, g.edges[e].to)
            is Some ==> met.contains(g.edges[e].to)
}

/// A walk only adds, adds nodes that were not met, and is done with what it
/// added.
pub open spec fn walk_ok(g: GraphM, met: Seq<Seq<char>>, out: Seq<Seq<char>>) -> bool {
    &&& met.no_duplicates() ==> out.no_duplicates()
    &&& forall|x: Seq<char>| met.contains(x) ==> #[trigger] out.contains(x)
    &&& forall|x: Seq<char>|
        #[trigger] out.contains(x) && !met.contains(x) ==> node_at(g, x) is Some && done_with(
            g,
            out,
            x,
        )
}

pub proof fn lemma_walk_trans(
    g: GraphM,
    a: Seq<Seq<char>>,
    b: Seq<Seq<char>>,
    c: Seq<Seq<char>>,
)
    requires
        walk_ok(g, a, b),
        walk_ok(g, b, c),
    ensures
        walk_ok(g, a, c),
{
    assert forall|x: Seq<char>| #[trigger] c.contains(x) && !a.contains(x) implies node_at(g, x)
        is Some && done_with(g, c, x) by {
        if b.contains(x) {
            assert(done_with(g, b, x));
            assert forall|e: int|
                0 <= e < g.edges.len() && (#[trigger] g.edges[e]).from == x && node_at(
                    g,
                    g.edges[e].to,
                ) is Some implies c.contains(g.edges[e].to) by {
                assert(b.contains(g.edges[e].to));
            }
        }
    }
    assert forall|x: Seq<char>| a.contains(x) implies #[trigger] c.contains(x) by {
        assert(b.contains(x));
    }
}

pub proof fn lemma_targets(es: Seq<EdgeM>, id: Seq<char>, e: int)
    requires
        0 <= e < es.len(),
        es[e].from == id,
    ensures
        targets(es, id).contains(es[e].to),
    decreases es.len(),
{
    let d = es.drop_last();
    let t = targets(d, id);
    if e < d.len() {
        assert(d[e] == es[e]);
        lemma_targets(d, id, e);
        let k = choose|k: int| 0 <= k < t.len() && t[k] == es[e].to;
        if es.last().from == id {
            assert(t.push(es.last().to)[k] == es[e].to);
        }
    } else {
        assert(t.push(es.last().to)[t.len() as int] == es[e].to);
    }
}

pub proof fn lemma_target_edge(es: Seq<EdgeM>, id: Seq<char>, k: int) -> (e: int)
    requires
        0 <= k < targets(es, id).len(),
    ensures
        0 <= e < es.len(),
        es[e].from == id,
        es[e].to == targets(es, id)[k],
    decreases es.len(),
{
    let d = es.drop_last();
    if es.last().from == id && k == targets(es, id).len() - 1 {
        es.len() - 1
    } else {
        let e = lemma_target_edge(d, id, k);
        assert(d[e] == es[e]);
        e
    }
}

pub proof fn lemma_depth_first(g: GraphM, id: Seq<char>, met: Seq<Seq<char>>, n: nat)
    requires
        unmet_nodes(g.nodes, met) <= n,
    ensures
        walk_ok(g, met, depth_first(g, id, met, n)),
        node_at(g, id) is Some ==> depth_first(g, id, met, n).contains(id),
    decreases n, 0nat,
{
    lemma_node_at(g, id);
    if node_at(g, id) is Some && !met.contains(id) {
        let i = node_at(g, id)->0;
        if n == 0 {
            lemma_all_met(g.nodes, met, i);
        } else {
            let one = met.push(id);
            let m = (n - 1) as nat;
            let ts = targets(g.edges, id);
            let out = depth_firsts(g, ts, one, m);
            assert(one[met.len() as int] == id);
            assert forall|x: Seq<char>| met.contains(x) implies #[trigger] one.contains(x) by {
                let k = choose|k: int| 0 <= k < met.len() && met[k] == x;
                assert(one[k] == x);
            }
            assert(!met.contains(g.nodes[i].id) && one.contains(g.nodes[i].id));
            lemma_unmet_nodes_mono(g.nodes, met, one);
            lemma_depth_firsts(g, ts, one, m);
            assert(out.contains(id));
            assert(met.no_duplicates() ==> one.no_duplicates()) by {
                if met.no_duplicates() {
                    assert forall|a: int, b: int|
                        0 <= a < one.len() && 0 <= b < one.len() && a != b implies one[a]
                        != one[b] by {
                        if a < met.len() {
                            assert(one[a] == met[a]);
                        }
                        if b < met.len() {
                            assert(one[b] == met[b]);
                        }
                    }
                }
            }
            assert(done_with(g, out, id)) by {
                assert forall|e: int|
                    0 <= e < g.edges.len() && (#[trigger] g.edges[e]).from == id && node_at(
                        g,
                        g.edges[e].to,
                    ) is Some implies out.contains(g.edges[e].to) by {
                    lemma_targets(g.edges, id, e);
                    let k = choose|k: int| 0 <= k < ts.len() && ts[k] == g.edges[e].to;
                    assert(node_at(g, ts[k]) is Some);
                }
            }
            assert forall|x: Seq<char>| #[trigger] out.contains(x) && !met.contains(x) implies node_at(
                g,
                x,
            ) is Some && done_with(g, out, x) by {
                if x != id && one.contains(x) {
                    let k = choose|k: int| 0 <= k < one.len() && one[k] == x;
                    assert(met[k] == x);
                }
            }
            assert forall|x: Seq<char>| met.contains(x) implies #[trigger] out.contains(x) by {
                assert(one.contains(x));
            }
        }
    }
}

pub proof fn lemma_depth_firsts(g: GraphM, ids: Seq<Seq<char>>, met: Seq<Seq<char>>, n: nat)
    requires
        unmet_nodes(g.nodes, met) <= n,
    ensures
        walk_ok(g, met, depth_firsts(g, ids, met, n)),
        forall|k: int|
            0 <= k < ids.len() && node_at(g, #[trigger] ids[k]) is Some ==> depth_firsts(
                g,
                ids,
                met,
                n,
            ).contains(ids[k]),
    decreases n, ids.len() + 1,
{
    if ids.len() > 0 {
        let d = ids.drop_last();
        let mid = depth_firsts(g, d, met, n);
        let out = depth_firsts(g, ids, met, n);
        lemma_depth_firsts(g, d, met, n);
        lemma_unmet_nodes_mono(g.nodes, met, mid);
        lemma_depth_first(g, ids.last(), mid, n);
        lemma_walk_trans(g, met, mid, out);
        assert forall|k: int| 0 <= k < ids.len() && node_at(g, #[trigger] ids[k]) is Some implies out.contains(
            ids[k],
        ) by {
            if k < d.len() {
                assert(d[k] == ids[k]);
                assert(mid.contains(ids[k]));
            }
        }
    }
}

/// Everything met can be reached from `start`.
pub open spec fn all_reachable(g: GraphM, start: Seq<char>, met: Seq<Seq<char>>) -> bool {
    forall|x: Seq<char>| #[trigger] met.contains(x) ==> can_reach(g, start, x)
}

proof fn lemma_depth_first_sound(
    g: GraphM,
    start: Seq<char>,
    id: Seq<char>,
    met: Seq<Seq<char>>,
    n: nat,
)
    requires
        can_reach(g, start, id),
        all_reachable(g, start, met),
    ensures
        all_reachable(g, start, depth_first(g, id, met, n)),
    decreases n, 0nat,
{
    if !(n == 0 || node_at(g, id) is None || met.contains(id)) {
        let one = met.push(id);
        assert forall|x: Seq<char>| #[trigger] one.contains(x) implies can_reach(
            g,
            start,
            x,
        ) by {
            let k = choose|k: int| 0 <= k < one.len() && one[k] == x;
            if k < met.len() {
                assert(met[k] == x);
                assert(met.contains(x));
            }
        }
        let ts = targets(g.edges, id);
        let m = choose|m: nat| reachable(g, start, id, m);
        assert forall|k: int| 0 <= k < ts.len() implies can_reach(
            g,
            start,
            #[trigger] ts[k],
        ) by {
            let e = lemma_target_edge(g.edges, id, k);
            assert(g.edges[e].to == ts[k]);
            assert(reachable(g, start, ts[k], m + 1));
        }
        lemma_depth_firsts_sound(g, start, ts, one, (n - 1) as nat);
    }
}

proof fn lemma_depth_firsts_sound(
    g: GraphM,
    start: Seq<char>,
    ids: Seq<Seq<char>>,
    met: Seq<Seq<char>>,
    n: nat,
)
    requires
        forall|k: int| 0 <= k < ids.len() ==> can_reach(g, start, #[trigger] ids[k]),
        all_reachable(g, start, met),
    ensures
        all_reachable(g, start, depth_firsts(g, ids, met, n)),
    decreases n, ids.len() + 1,
{
    if ids.len() > 0 {
        let d = ids.drop_last();
        assert forall|k: int| 0 <= k < d.len() implies can_reach(
            g,
            start,
            #[trigger] d[k],
        ) by {
            assert(d[k] == ids[k]);
        }
        lemma_depth_firsts_sound(g, start, d, met, n);
        assert(ids.last() == ids[ids.len() - 1]);
        lemma_depth_first_sound(g, start, ids.last(), depth_firsts(g, d, met, n), n);
    }
}

/// A depth-first walk meets exactly the nodes that can be reached, each once.
pub proof fn law_depth_first_reaches(g: GraphM, start: Seq<char>, x: Seq<char>)
    ensures
        depth_walk(g, start).contains(x) <==> node_at(g, x) is Some && can_reach(
            g,
            start,
            x,
        ),
        depth_walk(g, start).no_duplicates(),
{
    let none = Seq::<Seq<char>>::empty();
    let out = depth_walk(g, start);
    lemma_unmet_nodes_mono(g.nodes, none, none);
    lemma_depth_first(g, start, none, g.nodes.len());
    assert(reachable(g, start, start, 0));
    lemma_depth_first_sound(g, start, start, none, g.nodes.len());
    if node_at(g, x) is Some && can_reach(g, start, x) {
        let n = choose|n: nat| reachable(g, start, x, n);
        lemma_depth_complete(g, start, x, n);
    }
}

proof fn lemma_depth_complete(g: GraphM, start: Seq<char>, x: Seq<char>, n: nat)
    requires
        reachable(g, start, x, n),
        node_at(g, x) is Some,
    ensures
        depth_walk(g, start).contains(x),
    decreases n,
{
    let none = Seq::<Seq<char>>::empty();
    let out = depth_walk(g, start);
    lemma_unmet_nodes_mono(g.nodes, none, none);
    lemma_depth_first(g, start, none, g.nodes.len());
    if n > 0 {
        let e = choose|e: int|
            0 <= e < g.edges.len() && (#[trigger] g.edges[e]).to == x && node_at(
                g,
                g.edges[e].from,
            ) is Some && reachable(g, start, g.edges[e].from, (n - 1) as nat);
        let y = g.edges[e].from;
        lemma_depth_complete(g, start, y, (n - 1) as nat);
        assert(done_with(g, out, y));
    }
}

} // verus!
