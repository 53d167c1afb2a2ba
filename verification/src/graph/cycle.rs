//! Closed paths of edges: where there is one, no order follows the edges.

use vstd::prelude::*;

use crate::graph::model::{lemma_node_at, node_at, sound, GraphM};
use crate::graph::order::{known, lemma_settled_mono, settled, sortable};
use crate::seqs::lemma_no_longer;

verus! {

/// An edge leads from the identity at a place to the next one.
pub open spec fn edge_at(g: GraphM, p: Seq<Seq<char>>, k: int) -> bool {
    exists|e: int|
        0 <= e < g.edges.len() && (#[trigger] g.edges[e]).from == p[k] && g.edges[e].to == p[k + 1]
}

/// Identities that edges lead along, one after the other.
pub open spec fn path(g: GraphM, p: Seq<Seq<char>>) -> bool {
    p.len() > 0 && forall|k: int| 0 <= k < p.len() - 1 ==> #[trigger] edge_at(g, p, k)
}

/// A path that comes back to where it starts.
pub open spec fn closed_path(g: GraphM, p: Seq<Seq<char>>) -> bool {
    path(g, p) && p.len() > 1 && p[0] == p.last()
}

/// What settles the end of a path settles its places before, earlier by their
/// distance.
proof fn lemma_settled_back(g: GraphM, p: Seq<Seq<char>>, k: int, n: nat)
    requires
        path(g, p),
        0 <= k < p.len(),
        settled(g, p.last(), n),
    ensures
        n > p.len() - 1 - k,
        settled(g, p[k], (n - (p.len() - 1 - k)) as nat),
    decreases p.len() - k,
{
    if k < p.len() - 1 {
        lemma_settled_back(g, p, k + 1, n);
        assert(edge_at(g, p, k));
        let e = choose|e: int|
            0 <= e < g.edges.len() && (#[trigger] g.edges[e]).from == p[k] && g.edges[e].to == p[k
                + 1];
        let m = (n - (p.len() - 1 - (k + 1))) as nat;
        assert(settled(g, p[k + 1], m));
        assert(settled(g, g.edges[e].from, (m - 1) as nat));
        assert(m - 1 > 0) by {
            reveal_with_fuel(settled, 2);
        }
    } else {
        assert(p[k] == p.last());
    }
}

proof fn lemma_never_settled(g: GraphM, p: Seq<Seq<char>>, n: nat)
    requires
        closed_path(g, p),
    ensures
        !settled(g, p[0], n),
    decreases n,
{
    if settled(g, p[0], n) {
        lemma_settled_back(g, p, 0, n);
        lemma_never_settled(g, p, (n - (p.len() - 1)) as nat);
    }
}

/// Where a closed path runs through a node, the nodes cannot be put into an
/// order along the edges.
pub proof fn law_closed_path_unsortable(g: GraphM, p: Seq<Seq<char>>)
    requires
        closed_path(g, p),
        node_at(g, p[0]) is Some,
    ensures
        !sortable(g),
{
    lemma_node_at(g, p[0]);
    let i = node_at(g, p[0])->0;
    if sortable(g) {
        assert(g.nodes[i].id == p[0]);
        let n = choose|n: nat| settled(g, g.nodes[i].id, n);
        lemma_never_settled(g, p, n);
    }
}

/// No number of steps settles the identity.
spec fn unsettled(g: GraphM, id: Seq<char>) -> bool {
    forall|n: nat| !#[trigger] settled(g, id, n)
}

/// Of the first `k` edges, those that lead to `id` come from identities that
/// one number of steps settles.
proof fn lemma_bound(g: GraphM, id: Seq<char>, k: int) -> (n: nat)
    requires
        0 <= k <= g.edges.len(),
        forall|e: int|
            0 <= e < k && (#[trigger] g.edges[e]).to == id ==> !unsettled(g, g.edges[e].from),
    ensures
        forall|e: int|
            0 <= e < k && (#[trigger] g.edges[e]).to == id ==> settled(g, g.edges[e].from, n),
    decreases k,
{
    if k == 0 {
        0
    } else {
        let m = lemma_bound(g, id, k - 1);
        let from = g.edges[k - 1].from;
        if g.edges[k - 1].to == id {
            let n = choose|n: nat| #[trigger] settled(g, from, n);
            let most = if m > n {
                m
            } else {
                n
            };
            assert forall|e: int| 0 <= e < k && (#[trigger] g.edges[e]).to == id implies settled(
                g,
                g.edges[e].from,
                most,
            ) by {
                if e < k - 1 {
                    lemma_settled_mono(g, g.edges[e].from, m, most);
                } else {
                    lemma_settled_mono(g, from, n, most);
                }
            }
            most
        } else {
            m
        }
    }
}

/// What is not settled has an edge from what is not settled.
proof fn lemma_unsettled_source(g: GraphM, id: Seq<char>) -> (e: int)
    requires
        known(g, id),
        unsettled(g, id),
    ensures
        0 <= e < g.edges.len(),
        g.edges[e].to == id,
        unsettled(g, g.edges[e].from),
{
    if forall|e: int|
        0 <= e < g.edges.len() && (#[trigger] g.edges[e]).to == id ==> !unsettled(
            g,
            g.edges[e].from,
        ) {
        let n = lemma_bound(g, id, g.edges.len() as int);
        assert(settled(g, id, n + 1));
    }
    choose|e: int|
        0 <= e < g.edges.len() && (#[trigger] g.edges[e]).to == id && unsettled(
            g,
            g.edges[e].from,
        )
}

/// A path of `n` edges between nodes that ends at a node that is not settled.
proof fn lemma_chain(g: GraphM, id: Seq<char>, n: nat) -> (p: Seq<Seq<char>>)
    requires
        sound(g),
        node_at(g, id) is Some,
        unsettled(g, id),
    ensures
        path(g, p),
        p.len() == n + 1,
        unsettled(g, p[0]),
        forall|k: int| 0 <= k < p.len() ==> node_at(g, #[trigger] p[k]) is Some,
    decreases n,
{
    if n == 0 {
        seq![id]
    } else {
        let rest = lemma_chain(g, id, (n - 1) as nat);
        let e = lemma_unsettled_source(g, rest[0]);
        let from = g.edges[e].from;
        let p = seq![from] + rest;
        assert(p[0] == from && p[1] == rest[0]);
        assert forall|k: int| 0 <= k < p.len() - 1 implies #[trigger] edge_at(g, p, k) by {
            if k > 0 {
                assert(edge_at(g, rest, k - 1));
                assert(p[k] == rest[k - 1] && p[k + 1] == rest[k]);
            } else {
                assert(g.edges[e].from == p[0] && g.edges[e].to == p[1]);
            }
        }
        assert forall|k: int| 0 <= k < p.len() implies node_at(g, #[trigger] p[k]) is Some by {
            if k > 0 {
                assert(p[k] == rest[k - 1]);
            }
        }
        p
    }
}

/// Where identities differ and edges lead between nodes, the nodes can be put
/// into an order along the edges exactly if no path of edges is closed.
pub proof fn law_sortable_acyclic(g: GraphM)
    requires
        sound(g),
    ensures
        sortable(g) <==> !(exists|p: Seq<Seq<char>>| closed_path(g, p)),
{
    if exists|p: Seq<Seq<char>>| closed_path(g, p) {
        let p = choose|p: Seq<Seq<char>>| closed_path(g, p);
        assert(edge_at(g, p, 0));
        law_closed_path_unsortable(g, p);
    } else if !sortable(g) {
        let i = choose|i: int|
            0 <= i < g.nodes.len() && !(exists|n: nat| settled(g, (#[trigger] g.nodes[i]).id, n));
        let id = g.nodes[i].id;
        lemma_node_at(g, id);
        assert(unsettled(g, id));
        let p = lemma_chain(g, id, g.nodes.len());
        let ids = Seq::new(g.nodes.len(), |j: int| g.nodes[j].id);
        assert forall|k: int| 0 <= k < p.len() implies ids.contains(#[trigger] p[k]) by {
            lemma_node_at(g, p[k]);
            let j = node_at(g, p[k])->0;
            assert(ids[j] == p[k]);
        }
        if p.no_duplicates() {
            lemma_no_longer(p, ids);
        }
        let (a, b) = choose|a: int, b: int|
            0 <= a < p.len() && 0 <= b < p.len() && a != b && p[a] == p[b];
        let (c, d) = if a < b {
            (a, b)
        } else {
            (b, a)
        };
        let q = p.subrange(c, d + 1);
        assert forall|k: int| 0 <= k < q.len() - 1 implies #[trigger] edge_at(g, q, k) by {
            assert(edge_at(g, p, c + k));
            assert(q[k] == p[c + k] && q[k + 1] == p[c + k + 1]);
        }
        assert(closed_path(g, q));
    }
}

} // verus!
