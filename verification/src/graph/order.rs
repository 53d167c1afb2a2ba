//! The order of a graph along its edges, and the layers that follow from it.

use vstd::prelude::*;

use crate::graph::model::{
    lemma_node_at, node_at, refs_view, Graph, GraphError, GraphErrorM, GraphM, GraphNode,
    GraphNodeM, NodeId,
};
use crate::graph::walk::nodes_of;

verus! {

broadcast use vstd::std_specs::vec::group_vec_axioms;

/// An identity that the graph knows: that of a node, or where an edge leads.
pub open spec fn known(g: GraphM, id: Seq<char>) -> bool {
    node_at(g, id) is Some || exists|e: int|
        0 <= e < g.edges.len() && (#[trigger] g.edges[e]).to == id
}

/// Every path of edges that ends at `id` starts, within `n` steps, at a known
/// identity that no edge leads to.
pub open spec fn settled(g: GraphM, id: Seq<char>, n: nat) -> bool
    decreases n,
{
    &&& n > 0
    &&& known(g, id)
    &&& forall|e: int|
        0 <= e < g.edges.len() && (#[trigger] g.edges[e]).to == id ==> settled(
            g,
            g.edges[e].from,
            (n - 1) as nat,
        )
}

/// No two nodes share an identity.
pub open spec fn nodes_differ(g: GraphM) -> bool {
    forall|i: int, j: int|
        0 <= i < j < g.nodes.len() ==> (#[trigger] g.nodes[i]).id != (#[trigger] g.nodes[j]).id
}

/// The nodes can be put into an order along the edges.
pub open spec fn sortable(g: GraphM) -> bool {
    nodes_differ(g) && forall|i: int|
        0 <= i < g.nodes.len() ==> exists|n: nat| settled(g, (#[trigger] g.nodes[i]).id, n)
}

/// A list of all nodes, each once, in which every edge leads forwards.
pub open spec fn along_edges(g: GraphM, r: Seq<GraphNodeM>) -> bool {
    &&& r.len() == g.nodes.len()
    &&& forall|i: int| 0 <= i < r.len() ==> g.nodes.contains(#[trigger] r[i])
    &&& forall|i: int, j: int| 0 <= i < j < r.len() ==> (#[trigger] r[i]).id != (#[trigger] r[j]).id
    &&& forall|e: int, i: int, j: int|
        #![trigger g.edges[e], r[i], r[j]]
        0 <= e < g.edges.len() && 0 <= i < r.len() && 0 <= j < r.len() && g.edges[e].from == r[i].id
            && g.edges[e].to == r[j].id ==> i < j
}

/// How many marks are not set.
pub open spec fn open_marks(c: Seq<bool>) -> nat
    decreases c.len(),
{
    if c.len() == 0 {
        0
    } else if c.last() {
        open_marks(c.drop_last())
    } else {
        open_marks(c.drop_last()) + 1
    }
}

proof fn lemma_set_mark(c: Seq<bool>, i: int)
    requires
        0 <= i < c.len(),
        !c[i],
    ensures
        open_marks(c.update(i, true)) + 1 == open_marks(c),
    decreases c.len(),
{
    let u = c.update(i, true);
    if i == c.len() - 1 {
        assert(u.drop_last() =~= c.drop_last());
    } else {
        assert(u.drop_last() =~= c.drop_last().update(i, true));
        lemma_set_mark(c.drop_last(), i);
    }
}

/// All edges that lead to `t` are marked.
pub open spec fn cleared(g: GraphM, c: Seq<bool>, t: Seq<char>) -> bool {
    forall|e: int| 0 <= e < g.edges.len() && (#[trigger] g.edges[e]).to == t ==> c[e]
}

/// The line holds exactly the known identities whose edges are all marked,
/// each once.
pub open spec fn line_ok(g: GraphM, line: Seq<Seq<char>>, c: Seq<bool>) -> bool {
    &&& c.len() == g.edges.len()
    &&& line.no_duplicates()
    &&& forall|t: Seq<char>| #[trigger] line.contains(t) <==> known(g, t) && cleared(g, c, t)
    &&& forall|k: int| 0 <= k < line.len() ==> #[trigger] sources_ahead(g, line, k)
}

/// Every edge to the identity at a place of the line comes from an earlier
/// place.
pub open spec fn sources_ahead(g: GraphM, line: Seq<Seq<char>>, k: int) -> bool {
    forall|e: int|
        0 <= e < g.edges.len() && (#[trigger] g.edges[e]).to == line[k] ==> line.take(k).contains(
            g.edges[e].from,
        )
}

/// The marked edges are those that leave the first `p` of the line, and, of
/// the one at `p`, those before `i`.
pub open spec fn marks_ok(g: GraphM, line: Seq<Seq<char>>, c: Seq<bool>, p: int, i: int) -> bool {
    forall|e: int|
        0 <= e < g.edges.len() ==> (c[e] <==> line.take(p).contains((#[trigger] g.edges[e]).from)
            || p < line.len() && g.edges[e].from == line[p] && e < i)
}

proof fn lemma_take_contains(line: Seq<Seq<char>>, p: int, x: Seq<char>)
    requires
        0 <= p < line.len(),
    ensures
        line.take(p + 1).contains(x) <==> line.take(p).contains(x) || line[p] == x,
{
    let a = line.take(p);
    let b = line.take(p + 1);
    assert(b[p] == line[p]);
    if a.contains(x) {
        let k = choose|k: int| 0 <= k < a.len() && a[k] == x;
        assert(b[k] == x);
    }
    if b.contains(x) {
        let k = choose|k: int| 0 <= k < b.len() && b[k] == x;
        if k < p {
            assert(a[k] == x);
        }
    }
}

/// Marking the next edge that leaves the place `p`.
proof fn lemma_mark(
    g: GraphM,
    line: Seq<Seq<char>>,
    c: Seq<bool>,
    p: int,
    i: int,
    grown: Seq<Seq<char>>,
)
    requires
        line_ok(g, line, c),
        marks_ok(g, line, c, p, i),
        0 <= p < line.len(),
        0 <= i < g.edges.len(),
        g.edges[i].from == line[p],
        grown == if cleared(g, c.update(i, true), g.edges[i].to) {
            line.push(g.edges[i].to)
        } else {
            line
        },
    ensures
        !c[i],
        line_ok(g, grown, c.update(i, true)),
        marks_ok(g, grown, c.update(i, true), p, i + 1),
{
    let d = c.update(i, true);
    let x = g.edges[i].to;
    assert(!line.take(p).contains(line[p])) by {
        if line.take(p).contains(line[p]) {
            let k = choose|k: int| 0 <= k < p && line.take(p)[k] == line[p];
            assert(line[k] == line[p]);
        }
    }
    assert(!c[i]);
    assert(!cleared(g, c, x));
    assert(!line.contains(x));
    assert(known(g, x));
    assert(grown.take(p) =~= line.take(p));
    assert(grown[p] == line[p]);
    assert(marks_ok(g, grown, d, p, i + 1));
    assert forall|t: Seq<char>| #[trigger] grown.contains(t) <==> known(g, t) && cleared(g, d, t) by {
        if t == x {
            if cleared(g, d, x) {
                assert(grown[line.len() as int] == x);
            }
        } else {
            assert(line.contains(t) <==> known(g, t) && cleared(g, c, t));
            assert(cleared(g, c, t) <==> cleared(g, d, t)) by {
                if cleared(g, d, t) {
                    assert forall|e: int| 0 <= e < g.edges.len() && (#[trigger] g.edges[e]).to
                        == t implies c[e] by {
                        assert(d[e]);
                    }
                }
                if cleared(g, c, t) {
                    assert forall|e: int| 0 <= e < g.edges.len() && (#[trigger] g.edges[e]).to
                        == t implies d[e] by {
                        assert(c[e]);
                    }
                }
            }
            if line.contains(t) {
                let k = choose|k: int| 0 <= k < line.len() && line[k] == t;
                assert(grown[k] == t);
            }
            if grown.contains(t) {
                let k = choose|k: int| 0 <= k < grown.len() && grown[k] == t;
                if k < line.len() {
                    assert(line[k] == t);
                }
            }
        }
    }
    assert(grown.no_duplicates()) by {
        assert forall|a: int, b: int|
            0 <= a < grown.len() && 0 <= b < grown.len() && a != b implies grown[a] != grown[b] by {
            if a < line.len() {
                assert(grown[a] == line[a]);
            }
            if b < line.len() {
                assert(grown[b] == line[b]);
            }
        }
    }
    assert forall|k: int| 0 <= k < grown.len() implies #[trigger] sources_ahead(g, grown, k) by {
        if k < line.len() {
            assert(sources_ahead(g, line, k));
            assert(grown.take(k) =~= line.take(k));
            assert(grown[k] == line[k]);
        } else {
            assert forall|e: int| 0 <= e < g.edges.len() && (#[trigger] g.edges[e]).to
                == grown[k] implies grown.take(k).contains(g.edges[e].from) by {
                assert(d[e]);
                assert(grown.take(k) =~= line);
                if line.take(p).contains(g.edges[e].from) {
                    let m = choose|m: int|
                        0 <= m < p && line.take(p)[m] == g.edges[e].from;
                    assert(line[m] == g.edges[e].from);
                } else {
                    assert(g.edges[e].from == line[p]);
                }
            }
        }
    }
}

/// What stands in the finished line is settled.
proof fn lemma_line_settled(g: GraphM, line: Seq<Seq<char>>, c: Seq<bool>, k: int)
    requires
        line_ok(g, line, c),
        0 <= k < line.len(),
    ensures
        settled(g, line[k], (k + 1) as nat),
    decreases k,
{
    assert(line.contains(line[k]));
    assert(sources_ahead(g, line, k));
    assert forall|e: int| 0 <= e < g.edges.len() && (#[trigger] g.edges[e]).to
        == line[k] implies settled(g, g.edges[e].from, k as nat) by {
        let j = choose|j: int| 0 <= j < k && line.take(k)[j] == g.edges[e].from;
        assert(line[j] == g.edges[e].from);
        lemma_line_settled(g, line, c, j);
        lemma_settled_mono(g, line[j], (j + 1) as nat, k as nat);
    }
}

pub proof fn lemma_settled_mono(g: GraphM, id: Seq<char>, n: nat, m: nat)
    requires
        settled(g, id, n),
        n <= m,
    ensures
        settled(g, id, m),
    decreases n,
{
    assert forall|e: int| 0 <= e < g.edges.len() && (#[trigger] g.edges[e]).to
        == id implies settled(g, g.edges[e].from, (m - 1) as nat) by {
        lemma_settled_mono(g, g.edges[e].from, (n - 1) as nat, (m - 1) as nat);
    }
}

/// What is settled stands in the finished line.
proof fn lemma_settled_in_line(
    g: GraphM,
    line: Seq<Seq<char>>,
    c: Seq<bool>,
    id: Seq<char>,
    n: nat,
)
    requires
        line_ok(g, line, c),
        forall|e: int| 0 <= e < g.edges.len() ==> (c[e] <==> line.contains((#[trigger] g.edges[e]).from)),
        settled(g, id, n),
    ensures
        line.contains(id),
    decreases n,
{
    assert forall|e: int| 0 <= e < g.edges.len() && (#[trigger] g.edges[e]).to
        == id implies c[e] by {
        lemma_settled_in_line(g, line, c, g.edges[e].from, (n - 1) as nat);
    }
    assert(cleared(g, c, id));
}

/// Where the nodes that identities belong to stand.
pub open spec fn places_of(g: GraphM, ids: Seq<Seq<char>>) -> Seq<int>
    decreases ids.len(),
{
    if ids.len() == 0 {
        seq![]
    } else {
        match node_at(g, ids.last()) {
            Some(i) => places_of(g, ids.drop_last()).push(i),
            None => places_of(g, ids.drop_last()),
        }
    }
}

/// The places of nodes and the nodes go together.
proof fn lemma_places(g: GraphM, ids: Seq<Seq<char>>)
    requires
        ids.no_duplicates(),
    ensures
        places_of(g, ids).len() == nodes_of(g, ids).len(),
        forall|k: int| #![trigger places_of(g, ids)[k]]
            0 <= k < places_of(g, ids).len() ==> {
                let i = places_of(g, ids)[k];
                &&& 0 <= i < g.nodes.len()
                &&& nodes_of(g, ids)[k] == g.nodes[i]
                &&& node_at(g, g.nodes[i].id) == Some(i)
                &&& ids.contains(g.nodes[i].id)
            },
        places_of(g, ids).no_duplicates(),
        forall|x: Seq<char>|
            ids.contains(x) && node_at(g, x) is Some ==> #[trigger] places_of(g, ids).contains(
                node_at(g, x)->0,
            ),
    decreases ids.len(),
{
    if ids.len() > 0 {
        let d = ids.drop_last();
        let x = ids.last();
        assert(d.no_duplicates()) by {
            assert forall|a: int, b: int|
                0 <= a < d.len() && 0 <= b < d.len() && a != b implies d[a] != d[b] by {
                assert(d[a] == ids[a] && d[b] == ids[b]);
            }
        }
        lemma_places(g, d);
        lemma_node_at(g, x);
        let pd = places_of(g, d);
        let ps = places_of(g, ids);
        assert forall|y: Seq<char>| d.contains(y) implies ids.contains(y) && y != x by {
            let k = choose|k: int| 0 <= k < d.len() && d[k] == y;
            assert(ids[k] == y);
        }
        assert(ids[ids.len() - 1] == x);
        assert forall|k: int| #![trigger ps[k]] 0 <= k < ps.len() implies {
            let i = ps[k];
            &&& 0 <= i < g.nodes.len()
            &&& nodes_of(g, ids)[k] == g.nodes[i]
            &&& node_at(g, g.nodes[i].id) == Some(i)
            &&& ids.contains(g.nodes[i].id)
        } by {
            if k < pd.len() {
                assert(ps[k] == pd[k]);
                assert(d.contains(g.nodes[pd[k]].id));
            }
        }
        assert(ps.no_duplicates()) by {
            assert forall|a: int, b: int|
                0 <= a < ps.len() && 0 <= b < ps.len() && a != b implies ps[a] != ps[b] by {
                if a < pd.len() {
                    assert(ps[a] == pd[a]);
                    assert(d.contains(g.nodes[pd[a]].id));
                }
                if b < pd.len() {
                    assert(ps[b] == pd[b]);
                    assert(d.contains(g.nodes[pd[b]].id));
                }
            }
        }
        assert forall|y: Seq<char>|
            ids.contains(y) && node_at(g, y) is Some implies #[trigger] ps.contains(
            node_at(g, y)->0,
        ) by {
            if y == x {
                assert(ps[pd.len() as int] == node_at(g, x)->0);
            } else {
                let k = choose|k: int| 0 <= k < ids.len() && ids[k] == y;
                assert(d[k] == y);
                assert(pd.contains(node_at(g, y)->0));
                let m = choose|m: int| 0 <= m < pd.len() && pd[m] == node_at(g, y)->0;
                assert(ps[m] == pd[m]);
            }
        }
    }
}

/// As many nodes are found as there are exactly if no two share an identity
/// and the identity of each is among those looked for.
proof fn lemma_all_found(g: GraphM, ids: Seq<Seq<char>>)
    requires
        ids.no_duplicates(),
    ensures
        nodes_of(g, ids).len() == g.nodes.len() <==> nodes_differ(g) && forall|i: int|
            0 <= i < g.nodes.len() ==> ids.contains((#[trigger] g.nodes[i]).id),
{
    lemma_places(g, ids);
    let ps = places_of(g, ids);
    let n = g.nodes.len() as int;
    let all = vstd::set_lib::set_int_range(0, n);
    vstd::set_lib::lemma_int_range(0, n);
    ps.unique_seq_to_set();
    assert(ps.to_set().subset_of(all)) by {
        assert forall|i: int| ps.to_set().contains(i) implies all.contains(i) by {
            let k = choose|k: int| 0 <= k < ps.len() && ps[k] == i;
        }
    }
    vstd::set_lib::lemma_len_subset(ps.to_set(), all);
    if ps.len() == n {
        vstd::set_lib::lemma_subset_equality(ps.to_set(), all);
        assert forall|i: int| 0 <= i < g.nodes.len() implies ids.contains((#[trigger] g.nodes[i]).id)
            && node_at(g, g.nodes[i].id) == Some(i) by {
            assert(ps.to_set().contains(i));
            let k = choose|k: int| 0 <= k < ps.len() && ps[k] == i;
        }
        assert forall|i: int, j: int| 0 <= i < j < g.nodes.len() implies (#[trigger] g.nodes[i]).id
            != (#[trigger] g.nodes[j]).id by {
            assert(node_at(g, g.nodes[i].id) == Some(i));
            assert(node_at(g, g.nodes[j].id) == Some(j));
        }
    }
    if nodes_differ(g) && forall|i: int|
        0 <= i < g.nodes.len() ==> ids.contains((#[trigger] g.nodes[i]).id) {
        assert(all.subset_of(ps.to_set())) by {
            assert forall|i: int| all.contains(i) implies ps.to_set().contains(i) by {
                lemma_node_at(g, g.nodes[i].id);
                let j = node_at(g, g.nodes[i].id)->0;
                assert(g.nodes[j].id == g.nodes[i].id);
                assert(j == i);
                assert(ps.contains(node_at(g, g.nodes[i].id)->0));
            }
        }
        vstd::set_lib::lemma_len_subset(all, ps.to_set());
    }
}

/// The nodes of a finished line stand in the order of the line.
proof fn lemma_line_order(g: GraphM, line: Seq<Seq<char>>, c: Seq<bool>)
    requires
        line_ok(g, line, c),
        nodes_of(g, line).len() == g.nodes.len(),
    ensures
        along_edges(g, nodes_of(g, line)),
{
    let r = nodes_of(g, line);
    let ps = places_of(g, line);
    lemma_places(g, line);
    assert forall|i: int| 0 <= i < r.len() implies g.nodes.contains(#[trigger] r[i]) by {
        assert(r[i] == g.nodes[ps[i]]);
    }
    assert forall|i: int, j: int| 0 <= i < j < r.len() implies (#[trigger] r[i]).id
        != (#[trigger] r[j]).id by {
        assert(r[i] == g.nodes[ps[i]] && r[j] == g.nodes[ps[j]]);
        assert(ps[i] != ps[j]);
        if r[i].id == r[j].id {
            assert(node_at(g, r[i].id) == Some(ps[i]));
            assert(node_at(g, r[j].id) == Some(ps[j]));
        }
    }
    assert forall|e: int, i: int, j: int|
        #![trigger g.edges[e], r[i], r[j]]
        0 <= e < g.edges.len() && 0 <= i < r.len() && 0 <= j < r.len() && g.edges[e].from == r[i].id
            && g.edges[e].to == r[j].id implies i < j by {
        let a = lemma_node_index(g, line, i);
        let b = lemma_node_index(g, line, j);
        assert(sources_ahead(g, line, b));
        assert(line.take(b).contains(g.edges[e].from));
        let m = choose|m: int| 0 <= m < b && line.take(b)[m] == g.edges[e].from;
        assert(line[m] == line[a]);
        if j <= i {
            lemma_index_order(g, line, j, i);
        }
    }
}

/// Where in the line the identity of a found node stands: behind as many nodes
/// as were found before.
pub open spec fn line_index(g: GraphM, line: Seq<Seq<char>>, k: int) -> int
    decreases line.len(),
{
    if line.len() == 0 {
        0
    } else {
        let d = line.drop_last();
        if node_at(g, line.last()) is Some && k == nodes_of(g, d).len() {
            line.len() - 1
        } else {
            line_index(g, d, k)
        }
    }
}

proof fn lemma_node_index(g: GraphM, line: Seq<Seq<char>>, k: int) -> (a: int)
    requires
        0 <= k < nodes_of(g, line).len(),
    ensures
        a == line_index(g, line, k),
        0 <= a < line.len(),
        line[a] == nodes_of(g, line)[k].id,
    decreases line.len(),
{
    let d = line.drop_last();
    lemma_node_at(g, line.last());
    if node_at(g, line.last()) is Some && k == nodes_of(g, d).len() {
        line.len() - 1
    } else {
        let a = lemma_node_index(g, d, k);
        assert(d[a] == line[a]);
        a
    }
}

proof fn lemma_index_order(g: GraphM, line: Seq<Seq<char>>, i: int, j: int)
    requires
        0 <= i <= j < nodes_of(g, line).len(),
    ensures
        line_index(g, line, i) <= line_index(g, line, j),
    decreases line.len(),
{
    let d = line.drop_last();
    if node_at(g, line.last()) is Some && j == nodes_of(g, d).len() {
        let a = lemma_node_index(g, line, i);
    } else {
        lemma_index_order(g, d, i, j);
    }
}

fn has_id(ids: &Vec<NodeId>, id: &NodeId) -> (r: bool)
    ensures
        r == ids.deep_view().contains(id.deep_view()),
{
    let ghost all = ids.deep_view();
    let mut i: usize = 0;
    while i < ids.len()
        invariant
            i <= ids.len(),
            all == ids.deep_view(),
            forall|j: int| 0 <= j < i ==> #[trigger] all[j] != id.deep_view(),
        decreases ids.len() - i,
    {
        assert(all[i as int] == ids@[i as int].deep_view());
        if ids[i].same(id) {
            assert(all[i as int] == id.deep_view());
            return true;
        }
        i = i + 1;
    }
    false
}

impl Graph {
    /// Whether every edge to an identity is marked.
    fn is_cleared(&self, marks: &Vec<bool>, id: &NodeId) -> (r: bool)
        requires
            marks@.len() == self.edges@.len(),
        ensures
            r == cleared(self.deep_view(), marks@, id.deep_view()),
    {
        let ghost g = self.deep_view();
        let mut i: usize = 0;
        while i < self.edges.len()
            invariant
                g == self.deep_view(),
                i <= self.edges.len(),
                marks@.len() == self.edges@.len(),
                forall|e: int|
                    0 <= e < i && (#[trigger] g.edges[e]).to == id.deep_view() ==> marks@[e],
            decreases self.edges.len() - i,
        {
            assert(g.edges[i as int] == self.edges@[i as int].deep_view());
            if self.edges[i].to.same(id) && !marks[i] {
                return false;
            }
            i = i + 1;
        }
        true
    }

    /// The identities of nodes that no edge leads to, each once.
    fn first_line(&self, marks: &Vec<bool>) -> (r: Vec<NodeId>)
        requires
            marks@.len() == self.edges@.len(),
            forall|e: int| 0 <= e < marks@.len() ==> !marks@[e],
        ensures
            line_ok(self.deep_view(), r.deep_view(), marks@),
    {
        let ghost g = self.deep_view();
        let mut line: Vec<NodeId> = Vec::new();
        let mut i: usize = 0;
        while i < self.nodes.len()
            invariant
                g == self.deep_view(),
                i <= self.nodes.len(),
                marks@.len() == self.edges@.len(),
                line.deep_view().no_duplicates(),
                forall|t: Seq<char>|
                    #[trigger] line.deep_view().contains(t) <==> cleared(g, marks@, t) && exists|
                        k: int,
                    |
                        0 <= k < i && (#[trigger] g.nodes[k]).id == t,
            decreases self.nodes.len() - i,
        {
            let node = &self.nodes[i];
            let ghost ids = line.deep_view();
            assert(g.nodes[i as int] == node.deep_view());
            if self.is_cleared(marks, &node.id) && !has_id(&line, &node.id) {
                line.push(node.id.clone());
                assert(line.deep_view() =~= ids.push(node.id.deep_view()));
            }
            proof {
                let now = line.deep_view();
                let x = g.nodes[i as int].id;
                assert forall|t: Seq<char>| #[trigger] now.contains(t) <==> cleared(g, marks@, t)
                    && exists|k: int| 0 <= k < i + 1 && (#[trigger] g.nodes[k]).id == t by {
                    assert(ids.contains(t) <==> cleared(g, marks@, t) && exists|k: int|
                        0 <= k < i && (#[trigger] g.nodes[k]).id == t);
                    if t == x {
                        assert(g.nodes[i as int].id == t);
                        if cleared(g, marks@, t) && !ids.contains(t) {
                            assert(now[ids.len() as int] == t);
                        }
                        if ids.contains(t) {
                            let k = choose|k: int| 0 <= k < ids.len() && ids[k] == t;
                            assert(now[k] == t);
                        }
                    } else {
                        if ids.contains(t) {
                            let k = choose|k: int| 0 <= k < ids.len() && ids[k] == t;
                            assert(now[k] == t);
                        }
                        if now.contains(t) {
                            let k = choose|k: int| 0 <= k < now.len() && now[k] == t;
                            if k < ids.len() {
                                assert(ids[k] == t);
                            }
                        }
                        if exists|k: int| 0 <= k < i + 1 && (#[trigger] g.nodes[k]).id == t {
                            let k = choose|k: int|
                                0 <= k < i + 1 && (#[trigger] g.nodes[k]).id == t;
                            assert(k < i);
                        }
                    }
                }
                assert(now.no_duplicates()) by {
                    assert forall|a: int, b: int|
                        0 <= a < now.len() && 0 <= b < now.len() && a != b implies now[a]
                        != now[b] by {
                        if a < ids.len() {
                            assert(now[a] == ids[a]);
                        }
                        if b < ids.len() {
                            assert(now[b] == ids[b]);
                        }
                    }
                }
            }
            i = i + 1;
        }
        proof {
            let ids = line.deep_view();
            assert forall|t: Seq<char>| #[trigger] ids.contains(t) <==> known(g, t) && cleared(
                g,
                marks@,
                t,
            ) by {
                lemma_node_at(g, t);
                if ids.contains(t) {
                    let k = choose|k: int| 0 <= k < i && (#[trigger] g.nodes[k]).id == t;
                    assert(g.nodes[k].id == t);
                }
                if known(g, t) && cleared(g, marks@, t) {
                    if node_at(g, t) is None {
                        let e = choose|e: int|
                            0 <= e < g.edges.len() && (#[trigger] g.edges[e]).to == t;
                        assert(marks@[e]);
                    } else {
                        let k = node_at(g, t)->0;
                        assert(g.nodes[k].id == t);
                    }
                }
            }
            assert forall|k: int| 0 <= k < ids.len() implies #[trigger] sources_ahead(
                g,
                ids,
                k,
            ) by {
                assert(ids.contains(ids[k]));
                assert(cleared(g, marks@, ids[k]));
            }
        }
        line
    }

    /// All nodes in an order along the edges. That fails where a node lies on
    /// or behind a cycle, where an edge comes from nowhere, and where two
    /// nodes share an identity.
    pub fn topological_sort(&self) -> (r: Result<Vec<&GraphNode>, GraphError>)
        ensures
            match r {
                Ok(order) => sortable(self.deep_view()) && along_edges(
                    self.deep_view(),
                    refs_view(order@),
                ),
                Err(e) => !sortable(self.deep_view()) && e.deep_view()
                    == GraphErrorM::CycleDetected,
            },
    {
        let ghost g = self.deep_view();
        let mut marks: Vec<bool> = Vec::new();
        while marks.len() < self.edges.len()
            invariant
                marks@.len() <= self.edges@.len(),
                forall|e: int| 0 <= e < marks@.len() ==> !marks@[e],
            decreases self.edges.len() - marks.len(),
        {
            marks.push(false);
        }
        let mut line = self.first_line(&marks);
        let mut head: usize = 0;
        proof {
            assert(line.deep_view().take(0) =~= seq![]);
            assert(marks_ok(g, line.deep_view(), marks@, 0, 0));
        }
        while head < line.len()
            invariant
                g == self.deep_view(),
                head <= line.len(),
                line_ok(g, line.deep_view(), marks@),
                marks_ok(g, line.deep_view(), marks@, head as int, 0),
            decreases open_marks(marks@) + (line.len() - head),
        {
            let id = line[head].clone();
            let ghost p = head as int;
            let ghost total = open_marks(marks@) + line@.len();
            assert(line.deep_view()[p] == id.deep_view());
            let mut i: usize = 0;
            while i < self.edges.len()
                invariant
                    g == self.deep_view(),
                    i <= self.edges.len(),
                    p == head,
                    0 <= p < line@.len(),
                    line.deep_view()[p] == id.deep_view(),
                    line_ok(g, line.deep_view(), marks@),
                    marks_ok(g, line.deep_view(), marks@, p, i as int),
                    open_marks(marks@) + line@.len() <= total,
                decreases self.edges.len() - i,
            {
                let e = &self.edges[i];
                assert(g.edges[i as int] == e.deep_view());
                let ghost old_line = line.deep_view();
                let ghost old_marks = marks@;
                assert(marks@.len() == g.edges.len());
                if e.from.same(&id) {
                    proof {
                        let grown = if cleared(
                            g,
                            old_marks.update(i as int, true),
                            g.edges[i as int].to,
                        ) {
                            old_line.push(g.edges[i as int].to)
                        } else {
                            old_line
                        };
                        lemma_mark(g, old_line, old_marks, p, i as int, grown);
                        lemma_set_mark(old_marks, i as int);
                    }
                    marks.set(i, true);
                    if self.is_cleared(&marks, &e.to) {
                        line.push(e.to.clone());
                        assert(line.deep_view() =~= old_line.push(e.to.deep_view()));
                    }
                } else {
                    assert(marks_ok(g, old_line, old_marks, p, i + 1));
                }
                i = i + 1;
            }
            proof {
                let ids = line.deep_view();
                assert forall|e: int| 0 <= e < g.edges.len() implies (marks@[e] <==> ids.take(
                    p + 1,
                ).contains((#[trigger] g.edges[e]).from) || p + 1 < ids.len() && g.edges[e].from
                    == ids[p + 1] && e < 0) by {
                    lemma_take_contains(ids, p, g.edges[e].from);
                }
                assert(marks_ok(g, ids, marks@, p + 1, 0));
            }
            head = head + 1;
        }
        let ghost ids = line.deep_view();
        proof {
            assert(ids.take(head as int) =~= ids);
            lemma_all_found(g, ids);
            assert forall|i: int| 0 <= i < g.nodes.len() implies (ids.contains(
                (#[trigger] g.nodes[i]).id,
            ) <==> exists|n: nat| settled(g, g.nodes[i].id, n)) by {
                let x = g.nodes[i].id;
                if ids.contains(x) {
                    let k = choose|k: int| 0 <= k < ids.len() && ids[k] == x;
                    lemma_line_settled(g, ids, marks@, k);
                }
                if exists|n: nat| settled(g, x, n) {
                    let n = choose|n: nat| settled(g, x, n);
                    lemma_settled_in_line(g, ids, marks@, x, n);
                }
            }
            assert(nodes_of(g, ids).len() == g.nodes.len() <==> sortable(g)) by {
                if nodes_of(g, ids).len() == g.nodes.len() {
                    assert forall|i: int| 0 <= i < g.nodes.len() implies exists|n: nat|
                        settled(g, (#[trigger] g.nodes[i]).id, n) by {
                        assert(ids.contains(g.nodes[i].id));
                    }
                }
            }
        }
        let result = self.nodes_with(&line);
        assert(refs_view(result@).len() == result@.len());
        if result.len() != self.nodes.len() {
            return Err(GraphError::CycleDetected);
        }
        proof {
            lemma_line_order(g, ids, marks@);
        }
        Ok(result)
    }
}

} // verus!
