//! How the indexes of a store of graphs go with the graphs.

use vstd::prelude::*;

use crate::assoc::{
    bind, keys_differ, law_bind_keys, law_bind_lookup, law_unbind_keys, law_unbind_lookup, lookup,
    unbind,
};
use crate::graph::model::{
    is_other_node, lemma_node_at, node_at, node_of, without_node, GraphM, GraphNodeM, NodeKind,
};
use crate::graph::store::{
    created, deindexed, deindexed_all, deleted, entered, entered_all, indexed, indexed_all,
    kind_key, node_added, node_in_store, node_removed, nodes_in_store, struck, struck_all,
    under_key, with_id, GraphStoreM,
};
use crate::seqs::{is_not, lemma_keep_contains, lemma_keep_unique, without};

verus! {

/// Whether a graph of the store has a node.
pub open spec fn stored(s: GraphStoreM, graph_id: Seq<char>, n: GraphNodeM) -> bool {
    lookup(s.graphs, graph_id) matches Some(g) && g.nodes.contains(n)
}

/// Two nodes of the graphs of a store that have the same identity are the same
/// node of the same graph.
pub open spec fn ids_unique(s: GraphStoreM) -> bool {
    forall|g1: Seq<char>, n1: GraphNodeM, g2: Seq<char>, n2: GraphNodeM|
        #[trigger] stored(s, g1, n1) && #[trigger] stored(s, g2, n2) && n1.id == n2.id ==> g1 == g2
            && n1 == n2
}

/// A node of the graphs of a store has an identity and a tag.
pub open spec fn tagged(s: GraphStoreM, id: Seq<char>, tag: Seq<char>) -> bool {
    exists|g: Seq<char>, n: GraphNodeM| #[trigger]
        stored(s, g, n) && n.id == id && n.tags.contains(tag)
}

/// A node of the graphs of a store has an identity and is of a kind.
pub open spec fn of_kind(s: GraphStoreM, id: Seq<char>, kind: NodeKind) -> bool {
    exists|g: Seq<char>, n: GraphNodeM| #[trigger] stored(s, g, n) && n.id == id && n.kind == kind
}

/// A graph of a store has a node with an identity.
pub open spec fn belongs(s: GraphStoreM, id: Seq<char>, graph_id: Seq<char>) -> bool {
    exists|n: GraphNodeM| #[trigger] stored(s, graph_id, n) && n.id == id
}

/// The indexes of a store hold exactly the nodes of its graphs, by identity, by
/// tag and by kind, each once; identities are unique over all graphs.
pub open spec fn index_sound(s: GraphStoreM) -> bool {
    &&& keys_differ(s.graphs)
    &&& ids_unique(s)
    &&& forall|id: Seq<char>, g: Seq<char>|
        #![trigger belongs(s, id, g)]
        lookup(s.node_to_graph, id) == Some(g) <==> belongs(s, id, g)
    &&& forall|t: Seq<char>, id: Seq<char>|
        #![trigger tagged(s, id, t)]
        #![trigger under_key(s.tag_index, t).contains(id)]
        under_key(s.tag_index, t).contains(id) <==> tagged(s, id, t)
    &&& forall|k: NodeKind, id: Seq<char>|
        #![trigger of_kind(s, id, k)]
        #![trigger under_key(s.type_index, kind_key(k)).contains(id)]
        under_key(s.type_index, kind_key(k)).contains(id) <==> of_kind(s, id, k)
    &&& forall|t: Seq<char>| (#[trigger] under_key(s.tag_index, t)).no_duplicates()
    &&& forall|t: Seq<char>| (#[trigger] under_key(s.type_index, t)).no_duplicates()
}

// ---- Nodes by identity -----------------------------------------------------

/// The indexes of a store say what a table of nodes by identity says, where
/// every node comes with its graph.
spec fn tells(s: GraphStoreM, m: Map<Seq<char>, (Seq<char>, GraphNodeM)>) -> bool {
    &&& forall|id: Seq<char>| #[trigger] m.dom().contains(id) ==> m[id].1.id == id
    &&& forall|id: Seq<char>| #[trigger]
        lookup(s.node_to_graph, id) == (if m.dom().contains(id) {
            Some(m[id].0)
        } else {
            None
        })
    &&& forall|t: Seq<char>, id: Seq<char>| #[trigger]
        under_key(s.tag_index, t).contains(id) <==> m.dom().contains(id) && m[id].1.tags.contains(t)
    &&& forall|k: NodeKind, id: Seq<char>| #[trigger]
        under_key(s.type_index, kind_key(k)).contains(id) <==> m.dom().contains(id) && m[id].1.kind
            == k
    &&& forall|t: Seq<char>| (#[trigger] under_key(s.tag_index, t)).no_duplicates()
    &&& forall|t: Seq<char>| (#[trigger] under_key(s.type_index, t)).no_duplicates()
}

/// The graphs of a store have exactly the nodes of a table.
spec fn fills(s: GraphStoreM, m: Map<Seq<char>, (Seq<char>, GraphNodeM)>) -> bool {
    forall|g: Seq<char>, n: GraphNodeM| #[trigger]
        stored(s, g, n) <==> m.dom().contains(n.id) && m[n.id] == (g, n)
}

proof fn lemma_to_table(s: GraphStoreM) -> (m: Map<Seq<char>, (Seq<char>, GraphNodeM)>)
    requires
        index_sound(s),
    ensures
        tells(s, m),
        fills(s, m),
{
    let m = Map::new(
        |id: Seq<char>|
            exists|p: (Seq<char>, GraphNodeM)| #[trigger] stored(s, p.0, p.1) && p.1.id == id,
        |id: Seq<char>|
            choose|p: (Seq<char>, GraphNodeM)| #[trigger] stored(s, p.0, p.1) && p.1.id == id,
    );
    assert forall|id: Seq<char>| #[trigger] m.dom().contains(id) implies m[id].1.id == id && stored(
        s,
        m[id].0,
        m[id].1,
    ) by {
        let p = choose|p: (Seq<char>, GraphNodeM)| #[trigger] stored(s, p.0, p.1) && p.1.id == id;
        assert(stored(s, p.0, p.1));
    }
    assert forall|g: Seq<char>, n: GraphNodeM| #[trigger] stored(s, g, n) <==> m.dom().contains(
        n.id,
    ) && m[n.id] == (g, n) by {
        if stored(s, g, n) {
            let p = (g, n);
            assert(stored(s, p.0, p.1) && p.1.id == n.id);
            assert(m.dom().contains(n.id));
            assert(stored(s, m[n.id].0, m[n.id].1));
        }
    }
    assert forall|id: Seq<char>| #[trigger] lookup(s.node_to_graph, id) == (if m.dom().contains(id) {
        Some(m[id].0)
    } else {
        None
    }) by {
        if m.dom().contains(id) {
            assert(stored(s, m[id].0, m[id].1));
            assert(belongs(s, id, m[id].0));
        } else if lookup(s.node_to_graph, id) is Some {
            let g = lookup(s.node_to_graph, id)->0;
            assert(belongs(s, id, g));
            let n = choose|n: GraphNodeM| #[trigger] stored(s, g, n) && n.id == id;
            assert(m.dom().contains(n.id));
        }
    }
    assert forall|t: Seq<char>, id: Seq<char>| #[trigger]
        under_key(s.tag_index, t).contains(id) <==> m.dom().contains(id) && m[id].1.tags.contains(
            t,
        ) by {
        if tagged(s, id, t) {
            let (g, n) = choose|g: Seq<char>, n: GraphNodeM| #[trigger]
                stored(s, g, n) && n.id == id && n.tags.contains(t);
            assert(m[n.id] == (g, n));
        }
        if m.dom().contains(id) && m[id].1.tags.contains(t) {
            assert(stored(s, m[id].0, m[id].1));
            assert(tagged(s, id, t));
        }
    }
    assert forall|k: NodeKind, id: Seq<char>| #[trigger]
        under_key(s.type_index, kind_key(k)).contains(id) <==> m.dom().contains(id)
            && m[id].1.kind == k by {
        if of_kind(s, id, k) {
            let (g, n) = choose|g: Seq<char>, n: GraphNodeM| #[trigger]
                stored(s, g, n) && n.id == id && n.kind == k;
            assert(m[n.id] == (g, n));
        }
        if m.dom().contains(id) && m[id].1.kind == k {
            assert(stored(s, m[id].0, m[id].1));
            assert(of_kind(s, id, k));
        }
    }
    m
}

proof fn lemma_from_table(s: GraphStoreM, m: Map<Seq<char>, (Seq<char>, GraphNodeM)>)
    requires
        keys_differ(s.graphs),
        tells(s, m),
        fills(s, m),
    ensures
        index_sound(s),
{
    assert forall|id: Seq<char>, g: Seq<char>|
        #![trigger belongs(s, id, g)]
        lookup(s.node_to_graph, id) == Some(g) <==> belongs(s, id, g) by {
        if belongs(s, id, g) {
            let n = choose|n: GraphNodeM| #[trigger] stored(s, g, n) && n.id == id;
            assert(m[n.id] == (g, n));
        }
        if lookup(s.node_to_graph, id) == Some(g) {
            assert(m.dom().contains(id));
            assert(stored(s, g, m[id].1));
        }
    }
    assert forall|t: Seq<char>, id: Seq<char>|
        under_key(s.tag_index, t).contains(id) <==> #[trigger] tagged(s, id, t) by {
        if tagged(s, id, t) {
            let (g, n) = choose|g: Seq<char>, n: GraphNodeM| #[trigger]
                stored(s, g, n) && n.id == id && n.tags.contains(t);
            assert(m[n.id] == (g, n));
        }
        if under_key(s.tag_index, t).contains(id) {
            assert(stored(s, m[id].0, m[id].1));
        }
    }
    assert forall|k: NodeKind, id: Seq<char>|
        under_key(s.type_index, kind_key(k)).contains(id) <==> #[trigger] of_kind(s, id, k) by {
        if of_kind(s, id, k) {
            let (g, n) = choose|g: Seq<char>, n: GraphNodeM| #[trigger]
                stored(s, g, n) && n.id == id && n.kind == k;
            assert(m[n.id] == (g, n));
        }
        if under_key(s.type_index, kind_key(k)).contains(id) {
            assert(stored(s, m[id].0, m[id].1));
        }
    }
}

// ---- Entering and striking -------------------------------------------------

proof fn lemma_entered(
    m: Seq<(Seq<char>, Seq<Seq<char>>)>,
    k: Seq<char>,
    id: Seq<char>,
    t: Seq<char>,
)
    ensures
        forall|x: Seq<char>| #[trigger]
            under_key(entered(m, k, id), t).contains(x) <==> under_key(m, t).contains(x) || (x == id
                && t == k),
        under_key(m, t).no_duplicates() ==> under_key(entered(m, k, id), t).no_duplicates(),
{
    let ids = under_key(m, k);
    law_bind_lookup(m, k, with_id(ids, id), t);
    if t == k && !ids.contains(id) {
        let more = ids.push(id);
        assert forall|x: Seq<char>| #[trigger] more.contains(x) <==> ids.contains(x) || x == id by {
            if ids.contains(x) {
                let i = choose|i: int| 0 <= i < ids.len() && ids[i] == x;
                assert(more[i] == x);
            }
            assert(more[ids.len() as int] == id);
            if more.contains(x) {
                let i = choose|i: int| 0 <= i < more.len() && more[i] == x;
                if i < ids.len() {
                    assert(ids[i] == x);
                }
            }
        }
    }
}

proof fn lemma_struck(
    m: Seq<(Seq<char>, Seq<Seq<char>>)>,
    k: Seq<char>,
    id: Seq<char>,
    t: Seq<char>,
)
    ensures
        forall|x: Seq<char>| #[trigger]
            under_key(struck(m, k, id), t).contains(x) <==> under_key(m, t).contains(x) && !(x == id
                && t == k),
        under_key(m, t).no_duplicates() ==> under_key(struck(m, k, id), t).no_duplicates(),
{
    if let Some(ids) = lookup(m, k) {
        law_bind_lookup(m, k, without(ids, id), t);
        lemma_keep_contains(ids, is_not(id));
        if ids.no_duplicates() {
            lemma_keep_unique(ids, is_not(id));
        }
    }
}

proof fn lemma_contains_last(ks: Seq<Seq<char>>, t: Seq<char>)
    requires
        ks.len() > 0,
    ensures
        ks.contains(t) <==> ks.drop_last().contains(t) || ks.last() == t,
{
    let d = ks.drop_last();
    if ks.contains(t) {
        let i = choose|i: int| 0 <= i < ks.len() && ks[i] == t;
        if i < d.len() {
            assert(d[i] == t);
        }
    }
    if d.contains(t) {
        let i = choose|i: int| 0 <= i < d.len() && d[i] == t;
        assert(ks[i] == t);
    }
}

proof fn lemma_entered_all(
    m: Seq<(Seq<char>, Seq<Seq<char>>)>,
    ks: Seq<Seq<char>>,
    id: Seq<char>,
    t: Seq<char>,
)
    ensures
        forall|x: Seq<char>| #[trigger]
            under_key(entered_all(m, ks, id), t).contains(x) <==> under_key(m, t).contains(x) || (x
                == id && ks.contains(t)),
        under_key(m, t).no_duplicates() ==> under_key(entered_all(m, ks, id), t).no_duplicates(),
    decreases ks.len(),
{
    if ks.len() > 0 {
        lemma_entered_all(m, ks.drop_last(), id, t);
        lemma_entered(entered_all(m, ks.drop_last(), id), ks.last(), id, t);
        lemma_contains_last(ks, t);
    }
}

proof fn lemma_struck_all(
    m: Seq<(Seq<char>, Seq<Seq<char>>)>,
    ks: Seq<Seq<char>>,
    id: Seq<char>,
    t: Seq<char>,
)
    ensures
        forall|x: Seq<char>| #[trigger]
            under_key(struck_all(m, ks, id), t).contains(x) <==> under_key(m, t).contains(x) && !(x
                == id && ks.contains(t)),
        under_key(m, t).no_duplicates() ==> under_key(struck_all(m, ks, id), t).no_duplicates(),
    decreases ks.len(),
{
    if ks.len() > 0 {
        lemma_struck_all(m, ks.drop_last(), id, t);
        lemma_struck(struck_all(m, ks.drop_last(), id), ks.last(), id, t);
        lemma_contains_last(ks, t);
    }
}

proof fn lemma_kind_keys(a: NodeKind, b: NodeKind)
    ensures
        kind_key(a) == kind_key(b) <==> a == b,
{
    reveal_strlit("Process");
    reveal_strlit("Decision");
    reveal_strlit("Start");
    reveal_strlit("End");
    reveal_strlit("Idea");
    reveal_strlit("Note");
    reveal_strlit("Branch");
    reveal_strlit("Annotation");
    assert(kind_key(a)[0] == kind_key(b)[0] ==> a == b);
}

proof fn lemma_indexed(
    s: GraphStoreM,
    m: Map<Seq<char>, (Seq<char>, GraphNodeM)>,
    g: Seq<char>,
    n: GraphNodeM,
)
    requires
        tells(s, m),
        m.dom().contains(n.id) ==> m[n.id] == (g, n),
    ensures
        tells(indexed(s, g, n), m.insert(n.id, (g, n))),
{
    let r = indexed(s, g, n);
    let q = m.insert(n.id, (g, n));
    assert forall|id: Seq<char>| #[trigger] lookup(r.node_to_graph, id) == (if q.dom().contains(id) {
        Some(q[id].0)
    } else {
        None
    }) by {
        law_bind_lookup(s.node_to_graph, n.id, g, id);
        assert(lookup(s.node_to_graph, id) == (if m.dom().contains(id) {
            Some(m[id].0)
        } else {
            None
        }));
    }
    assert forall|t: Seq<char>, id: Seq<char>| #[trigger]
        under_key(r.tag_index, t).contains(id) <==> q.dom().contains(id) && q[id].1.tags.contains(
            t,
        ) by {
        lemma_entered_all(s.tag_index, n.tags, n.id, t);
        assert(under_key(s.tag_index, t).contains(id) <==> m.dom().contains(id)
            && m[id].1.tags.contains(t));
    }
    assert forall|k: NodeKind, id: Seq<char>| #[trigger]
        under_key(r.type_index, kind_key(k)).contains(id) <==> q.dom().contains(id)
            && q[id].1.kind == k by {
        lemma_entered(s.type_index, kind_key(n.kind), n.id, kind_key(k));
        lemma_kind_keys(n.kind, k);
        assert(under_key(s.type_index, kind_key(k)).contains(id) <==> m.dom().contains(id)
            && m[id].1.kind == k);
    }
    assert forall|t: Seq<char>| (#[trigger] under_key(r.tag_index, t)).no_duplicates() by {
        assert(under_key(s.tag_index, t).no_duplicates());
        lemma_entered_all(s.tag_index, n.tags, n.id, t);
    }
    assert forall|t: Seq<char>| (#[trigger] under_key(r.type_index, t)).no_duplicates() by {
        assert(under_key(s.type_index, t).no_duplicates());
        lemma_entered(s.type_index, kind_key(n.kind), n.id, t);
    }
}

proof fn lemma_deindexed(
    s: GraphStoreM,
    m: Map<Seq<char>, (Seq<char>, GraphNodeM)>,
    n: GraphNodeM,
)
    requires
        tells(s, m),
        m.dom().contains(n.id) ==> m[n.id].1 == n,
    ensures
        tells(deindexed(s, n), m.remove(n.id)),
{
    let r = deindexed(s, n);
    let q = m.remove(n.id);
    assert forall|id: Seq<char>| #[trigger] lookup(r.node_to_graph, id) == (if q.dom().contains(id) {
        Some(q[id].0)
    } else {
        None
    }) by {
        law_unbind_lookup(s.node_to_graph, n.id, id);
        assert(lookup(s.node_to_graph, id) == (if m.dom().contains(id) {
            Some(m[id].0)
        } else {
            None
        }));
    }
    assert forall|t: Seq<char>, id: Seq<char>| #[trigger]
        under_key(r.tag_index, t).contains(id) <==> q.dom().contains(id) && q[id].1.tags.contains(
            t,
        ) by {
        lemma_struck_all(s.tag_index, n.tags, n.id, t);
        assert(under_key(s.tag_index, t).contains(id) <==> m.dom().contains(id)
            && m[id].1.tags.contains(t));
    }
    assert forall|k: NodeKind, id: Seq<char>| #[trigger]
        under_key(r.type_index, kind_key(k)).contains(id) <==> q.dom().contains(id)
            && q[id].1.kind == k by {
        lemma_struck(s.type_index, kind_key(n.kind), n.id, kind_key(k));
        lemma_kind_keys(n.kind, k);
        assert(under_key(s.type_index, kind_key(k)).contains(id) <==> m.dom().contains(id)
            && m[id].1.kind == k);
    }
    assert forall|t: Seq<char>| (#[trigger] under_key(r.tag_index, t)).no_duplicates() by {
        assert(under_key(s.tag_index, t).no_duplicates());
        lemma_struck_all(s.tag_index, n.tags, n.id, t);
    }
    assert forall|t: Seq<char>| (#[trigger] under_key(r.type_index, t)).no_duplicates() by {
        assert(under_key(s.type_index, t).no_duplicates());
        lemma_struck(s.type_index, kind_key(n.kind), n.id, t);
    }
}

/// Several nodes of a graph are indexed: the table gains them.
proof fn lemma_indexed_all(
    s: GraphStoreM,
    m: Map<Seq<char>, (Seq<char>, GraphNodeM)>,
    g: Seq<char>,
    ns: Seq<GraphNodeM>,
) -> (q: Map<Seq<char>, (Seq<char>, GraphNodeM)>)
    requires
        tells(s, m),
        forall|i: int|
            0 <= i < ns.len() && m.dom().contains((#[trigger] ns[i]).id) ==> m[ns[i].id] == (
                g,
                ns[i],
            ),
        forall|i: int, j: int|
            0 <= i < ns.len() && 0 <= j < ns.len() && (#[trigger] ns[i]).id == (
            #[trigger] ns[j]).id ==> ns[i] == ns[j],
    ensures
        tells(indexed_all(s, g, ns), q),
        forall|id: Seq<char>| #[trigger] m.dom().contains(id) ==> q.dom().contains(id) && q[id]
            == m[id],
        forall|n: GraphNodeM| #[trigger]
            ns.contains(n) ==> q.dom().contains(n.id) && q[n.id] == (g, n),
        forall|id: Seq<char>| #[trigger]
            q.dom().contains(id) ==> m.dom().contains(id) || q[id].0 == g && ns.contains(q[id].1),
    decreases ns.len(),
{
    if ns.len() == 0 {
        m
    } else {
        let d = ns.drop_last();
        let n = ns.last();
        assert forall|i: int| 0 <= i < d.len() && m.dom().contains(
            (#[trigger] d[i]).id,
        ) implies m[d[i].id] == (g, d[i]) by {
            assert(d[i] == ns[i]);
        }
        assert forall|i: int, j: int| 0 <= i < d.len() && 0 <= j < d.len() && (#[trigger] d[i]).id
            == (#[trigger] d[j]).id implies d[i] == d[j] by {
            assert(d[i] == ns[i] && d[j] == ns[j]);
        }
        let p = lemma_indexed_all(s, m, g, d);
        if p.dom().contains(n.id) {
            if m.dom().contains(n.id) {
                assert(ns[ns.len() - 1] == n);
            } else {
                let e = p[n.id].1;
                assert(e.id == n.id);
                let i = choose|i: int| 0 <= i < d.len() && d[i] == e;
                assert(ns[i] == e && ns[ns.len() - 1] == n);
            }
        }
        lemma_indexed(indexed_all(s, g, d), p, g, n);
        let q = p.insert(n.id, (g, n));
        assert forall|x: GraphNodeM| #[trigger] ns.contains(x) implies q.dom().contains(x.id)
            && q[x.id] == (g, x) by {
            let i = choose|i: int| 0 <= i < ns.len() && ns[i] == x;
            if i < d.len() {
                assert(d[i] == x);
                assert(d.contains(x));
                assert(ns[i].id == ns[ns.len() - 1].id ==> ns[i] == ns[ns.len() - 1]);
            }
        }
        assert forall|id: Seq<char>| #[trigger] q.dom().contains(id) implies m.dom().contains(id)
            || q[id].0 == g && ns.contains(q[id].1) by {
            if id == n.id {
                assert(ns[ns.len() - 1] == n);
            } else if !m.dom().contains(id) {
                let x = p[id].1;
                assert(d.contains(x));
                let i = choose|i: int| 0 <= i < d.len() && d[i] == x;
                assert(ns[i] == x);
            }
        }
        q
    }
}

/// Several nodes are taken out of the indexes: the table loses them.
proof fn lemma_deindexed_all(
    s: GraphStoreM,
    m: Map<Seq<char>, (Seq<char>, GraphNodeM)>,
    ns: Seq<GraphNodeM>,
) -> (q: Map<Seq<char>, (Seq<char>, GraphNodeM)>)
    requires
        tells(s, m),
        forall|i: int|
            0 <= i < ns.len() && m.dom().contains((#[trigger] ns[i]).id) ==> m[ns[i].id].1 == ns[i],
    ensures
        tells(deindexed_all(s, ns), q),
        deindexed_all(s, ns).graphs == s.graphs,
        forall|id: Seq<char>| #[trigger]
            q.dom().contains(id) <==> m.dom().contains(id) && !ns.contains(m[id].1),
        forall|id: Seq<char>| #[trigger] q.dom().contains(id) ==> q[id] == m[id],
    decreases ns.len(),
{
    if ns.len() == 0 {
        m
    } else {
        let d = ns.drop_last();
        let n = ns.last();
        assert forall|i: int| 0 <= i < d.len() && m.dom().contains(
            (#[trigger] d[i]).id,
        ) implies m[d[i].id].1 == d[i] by {
            assert(d[i] == ns[i]);
        }
        let p = lemma_deindexed_all(s, m, d);
        assert(ns[ns.len() - 1] == n);
        lemma_deindexed(deindexed_all(s, d), p, n);
        let q = p.remove(n.id);
        assert forall|id: Seq<char>| #[trigger] q.dom().contains(id) <==> m.dom().contains(id)
            && !ns.contains(m[id].1) by {
            if m.dom().contains(id) {
                let x = m[id].1;
                assert(x.id == id);
                if ns.contains(x) && x != n {
                    let i = choose|i: int| 0 <= i < ns.len() && ns[i] == x;
                    assert(d[i] == x);
                }
                if d.contains(x) {
                    let i = choose|i: int| 0 <= i < d.len() && d[i] == x;
                    assert(ns[i] == x);
                }
            }
        }
        q
    }
}

// ---- Laws ------------------------------------------------------------------

/// The indexes of a new store are sound.
pub proof fn law_new_store_sound()
    ensures
        index_sound(
            GraphStoreM {
                graphs: seq![],
                node_to_graph: seq![],
                tag_index: seq![],
                type_index: seq![],
            },
        ),
{
    let s = GraphStoreM {
        graphs: seq![],
        node_to_graph: seq![],
        tag_index: seq![],
        type_index: seq![],
    };
    let m = Map::<Seq<char>, (Seq<char>, GraphNodeM)>::empty();
    assert(tells(s, m));
    assert(fills(s, m));
    lemma_from_table(s, m);
}

/// Adding a graph keeps the indexes sound, as long as identities stay unique.
pub proof fn law_create_keeps_index(s: GraphStoreM, g: GraphM)
    requires
        index_sound(s),
        lookup(s.graphs, g.id) is None,
        ids_unique(created(s, g)),
    ensures
        index_sound(created(s, g)),
        forall|id: Seq<char>, n: GraphNodeM| #[trigger]
            stored(created(s, g), id, n) <==> stored(s, id, n) || (id == g.id && g.nodes.contains(
                n,
            )),
{
    let m = lemma_to_table(s);
    let r = created(s, g);
    lemma_indexed_graphs(s, g.id, g.nodes);
    assert forall|id: Seq<char>, n: GraphNodeM| #[trigger] stored(r, id, n) <==> stored(s, id, n)
        || (id == g.id && g.nodes.contains(n)) by {
        law_bind_lookup(s.graphs, g.id, g, id);
    }
    let ns = g.nodes;
    assert forall|i: int| 0 <= i < ns.len() && m.dom().contains(
        (#[trigger] ns[i]).id,
    ) implies m[ns[i].id] == (g.id, ns[i]) by {
        let p = m[ns[i].id];
        assert(stored(s, p.0, p.1));
        assert(ns.contains(ns[i]));
        assert(stored(r, p.0, p.1));
        assert(stored(r, g.id, ns[i]));
    }
    assert forall|i: int, j: int| 0 <= i < ns.len() && 0 <= j < ns.len() && (#[trigger] ns[i]).id
        == (#[trigger] ns[j]).id implies ns[i] == ns[j] by {
        assert(ns.contains(ns[i]) && ns.contains(ns[j]));
        assert(stored(r, g.id, ns[i]));
        assert(stored(r, g.id, ns[j]));
    }
    let q = lemma_indexed_all(s, m, g.id, ns);
    assert(tells(r, q));
    assert forall|id: Seq<char>, n: GraphNodeM| #[trigger] stored(r, id, n) <==> q.dom().contains(
        n.id,
    ) && q[n.id] == (id, n) by {
        assert(stored(s, id, n) <==> m.dom().contains(n.id) && m[n.id] == (id, n));
        if q.dom().contains(n.id) && q[n.id] == (id, n) && m.dom().contains(n.id) {
            assert(m[n.id] == q[n.id]);
        }
    }
    law_bind_keys(s.graphs, g.id, g);
    lemma_from_table(r, q);
}

proof fn lemma_indexed_graphs(s: GraphStoreM, g: Seq<char>, ns: Seq<GraphNodeM>)
    ensures
        indexed_all(s, g, ns).graphs == s.graphs,
    decreases ns.len(),
{
    if ns.len() > 0 {
        lemma_indexed_graphs(s, g, ns.drop_last());
    }
}

/// Removing a graph keeps the indexes sound.
pub proof fn law_delete_keeps_index(s: GraphStoreM, id: Seq<char>)
    requires
        index_sound(s),
    ensures
        index_sound(deleted(s, id)),
        forall|g: Seq<char>, n: GraphNodeM| #[trigger]
            stored(deleted(s, id), g, n) <==> stored(s, g, n) && g != id,
{
    if let Some(g) = lookup(s.graphs, id) {
        let m = lemma_to_table(s);
        let t = GraphStoreM { graphs: unbind(s.graphs, id), ..s };
        let r = deleted(s, id);
        assert(tells(t, m));
        let ns = g.nodes;
        assert forall|i: int| 0 <= i < ns.len() && m.dom().contains(
            (#[trigger] ns[i]).id,
        ) implies m[ns[i].id].1 == ns[i] by {
            assert(ns.contains(ns[i]));
            assert(stored(s, id, ns[i]));
        }
        let q = lemma_deindexed_all(t, m, ns);
        assert forall|h: Seq<char>, n: GraphNodeM| #[trigger] stored(r, h, n) <==> stored(s, h, n)
            && h != id by {
            law_unbind_lookup(s.graphs, id, h);
        }
        assert forall|h: Seq<char>, n: GraphNodeM| #[trigger] stored(r, h, n) <==> q.dom().contains(
            n.id,
        ) && q[n.id] == (h, n) by {
            assert(stored(s, h, n) <==> m.dom().contains(n.id) && m[n.id] == (h, n));
            assert(stored(r, h, n) <==> stored(s, h, n) && h != id);
            if ns.contains(n) {
                assert(stored(s, id, n));
                assert(m[n.id] == (id, n));
            }
            if stored(s, id, n) {
                assert(ns.contains(n));
            }
            if q.dom().contains(n.id) {
                assert(q[n.id] == m[n.id]);
                assert(!ns.contains(m[n.id].1));
            }
        }
        law_unbind_keys(s.graphs, id);
        lemma_from_table(r, q);
    } else {
        assert forall|h: Seq<char>, n: GraphNodeM| #[trigger] stored(s, h, n) implies h != id by {}
    }
}

/// Adding a node keeps the indexes sound, as long as identities stay unique.
pub proof fn law_add_keeps_index(s: GraphStoreM, graph_id: Seq<char>, n: GraphNodeM)
    requires
        index_sound(s),
        ids_unique(node_added(s, graph_id, n).0),
    ensures
        index_sound(node_added(s, graph_id, n).0),
        node_added(s, graph_id, n).1 is Ok ==> forall|g: Seq<char>, x: GraphNodeM| #[trigger]
            stored(node_added(s, graph_id, n).0, g, x) <==> stored(s, g, x) || (g == graph_id && x
                == n),
{
    if node_added(s, graph_id, n).1 is Ok {
        let m = lemma_to_table(s);
        let g = lookup(s.graphs, graph_id)->0;
        let h = GraphM { nodes: g.nodes.push(n), ..g };
        let t = GraphStoreM { graphs: bind(s.graphs, graph_id, h), ..s };
        let r = node_added(s, graph_id, n).0;
        assert(tells(t, m));
        assert forall|x: GraphNodeM| #[trigger] h.nodes.contains(x) <==> g.nodes.contains(x) || x
            == n by {
            if g.nodes.contains(x) {
                let i = choose|i: int| 0 <= i < g.nodes.len() && g.nodes[i] == x;
                assert(h.nodes[i] == x);
            }
            assert(h.nodes[g.nodes.len() as int] == n);
            if h.nodes.contains(x) {
                let i = choose|i: int| 0 <= i < h.nodes.len() && h.nodes[i] == x;
                if i < g.nodes.len() {
                    assert(g.nodes[i] == x);
                }
            }
        }
        assert forall|id: Seq<char>, x: GraphNodeM| #[trigger] stored(r, id, x) <==> stored(
            s,
            id,
            x,
        ) || (id == graph_id && x == n) by {
            law_bind_lookup(s.graphs, graph_id, h, id);
        }
        if m.dom().contains(n.id) {
            let p = m[n.id];
            assert(stored(s, p.0, p.1));
            assert(stored(r, p.0, p.1));
            assert(stored(r, graph_id, n));
        }
        lemma_indexed(t, m, graph_id, n);
        let q = m.insert(n.id, (graph_id, n));
        assert forall|id: Seq<char>, x: GraphNodeM| #[trigger] stored(r, id, x) <==> q.dom().contains(
            x.id,
        ) && q[x.id] == (id, x) by {
            assert(stored(s, id, x) <==> m.dom().contains(x.id) && m[x.id] == (id, x));
        }
        law_bind_keys(s.graphs, graph_id, h);
        lemma_from_table(r, q);
    }
}

/// Removing a node keeps the indexes sound.
pub proof fn law_remove_keeps_index(s: GraphStoreM, graph_id: Seq<char>, id: Seq<char>)
    requires
        index_sound(s),
    ensures
        index_sound(node_removed(s, graph_id, id).0),
        node_removed(s, graph_id, id).1 is Ok ==> forall|g: Seq<char>, n: GraphNodeM| #[trigger]
            stored(node_removed(s, graph_id, id).0, g, n) <==> stored(s, g, n) && !(g == graph_id
                && n.id == id),
{
    let r = node_removed(s, graph_id, id).0;
    if let Some(g) = lookup(s.graphs, graph_id) {
        lemma_node_at(g, id);
        if let Some(n) = node_of(g, id) {
            let m = lemma_to_table(s);
            let h = without_node(g, id);
            let t = GraphStoreM { graphs: bind(s.graphs, graph_id, h), ..s };
            assert(tells(t, m));
            lemma_keep_contains(g.nodes, is_other_node(id));
            assert forall|x: Seq<char>, y: GraphNodeM| #[trigger] stored(r, x, y) <==> stored(
                s,
                x,
                y,
            ) && !(x == graph_id && y.id == id) by {
                law_bind_lookup(s.graphs, graph_id, h, x);
                assert(h.nodes.contains(y) <==> g.nodes.contains(y) && is_other_node(id)(y));
            }
            assert(stored(s, graph_id, n));
            lemma_deindexed(t, m, n);
            let q = m.remove(n.id);
            assert forall|x: Seq<char>, y: GraphNodeM| #[trigger] stored(r, x, y)
                <==> q.dom().contains(y.id) && q[y.id] == (x, y) by {
                assert(stored(s, x, y) <==> m.dom().contains(y.id) && m[y.id] == (x, y));
            }
            law_bind_keys(s.graphs, graph_id, h);
            lemma_from_table(r, q);
        } else {
            assert forall|x: Seq<char>, y: GraphNodeM| #[trigger] stored(r, x, y) implies !(x
                == graph_id && y.id == id) by {
                if x == graph_id && y.id == id {
                    let i = choose|i: int| 0 <= i < g.nodes.len() && g.nodes[i] == y;
                    assert(g.nodes[i].id == id);
                }
            }
        }
    }
}

/// Where the indexes are sound, a search for an identity finds the node of the
/// graphs that has it, and nothing if none has.
pub proof fn law_find_exact(s: GraphStoreM, id: Seq<char>)
    requires
        index_sound(s),
    ensures
        forall|n: GraphNodeM|
            node_in_store(s, id) == Some(n) <==> n.id == id && exists|g: Seq<char>| #[trigger]
                stored(s, g, n),
{
    let m = lemma_to_table(s);
    assert(lookup(s.node_to_graph, id) == (if m.dom().contains(id) {
        Some(m[id].0)
    } else {
        None
    }));
    if m.dom().contains(id) {
        let (g, n) = m[id];
        assert(stored(s, g, n));
        let graph = lookup(s.graphs, g)->0;
        lemma_node_at(graph, id);
        let k = choose|k: int| 0 <= k < graph.nodes.len() && graph.nodes[k] == n;
        assert(graph.nodes[k].id == id);
        let e = graph.nodes[node_at(graph, id)->0];
        assert(graph.nodes.contains(e));
        assert(stored(s, g, e));
        assert(node_in_store(s, id) == Some(n));
    }
}

proof fn lemma_nodes_exact(s: GraphStoreM, ids: Seq<Seq<char>>)
    requires
        index_sound(s),
        ids.no_duplicates(),
    ensures
        nodes_in_store(s, ids).no_duplicates(),
        forall|n: GraphNodeM| #[trigger]
            nodes_in_store(s, ids).contains(n) <==> ids.contains(n.id) && node_in_store(s, n.id)
                == Some(n),
    decreases ids.len(),
{
    if ids.len() > 0 {
        let d = ids.drop_last();
        let last = ids.last();
        assert(d.no_duplicates()) by {
            assert forall|i: int, j: int| 0 <= i < d.len() && 0 <= j < d.len() && i
                != j implies d[i] != d[j] by {
                assert(d[i] == ids[i] && d[j] == ids[j]);
            }
        }
        lemma_nodes_exact(s, d);
        law_find_exact(s, last);
        let front = nodes_in_store(s, d);
        let all = nodes_in_store(s, ids);
        assert(!d.contains(last)) by {
            if d.contains(last) {
                let i = choose|i: int| 0 <= i < d.len() && d[i] == last;
                assert(ids[i] == ids[ids.len() - 1]);
            }
        }
        assert forall|n: GraphNodeM| #[trigger] all.contains(n) <==> ids.contains(n.id)
            && node_in_store(s, n.id) == Some(n) by {
            lemma_contains_last(ids, n.id);
            if let Some(x) = node_in_store(s, last) {
                assert(all == front.push(x));
                assert(x.id == last);
                assert(all[front.len() as int] == x);
                if front.contains(n) {
                    let i = choose|i: int| 0 <= i < front.len() && front[i] == n;
                    assert(all[i] == n);
                }
                if all.contains(n) {
                    let i = choose|i: int| 0 <= i < all.len() && all[i] == n;
                    if i < front.len() {
                        assert(front[i] == n);
                    }
                }
            }
        }
        if let Some(x) = node_in_store(s, last) {
            assert(x.id == last);
            assert(!front.contains(x));
        }
    }
}

/// Where the indexes are sound, a search for a tag gives exactly the nodes of
/// the graphs that have it, each once.
pub proof fn law_by_tag_exact(s: GraphStoreM, tag: Seq<char>)
    requires
        index_sound(s),
    ensures
        ({
            let r = nodes_in_store(s, under_key(s.tag_index, tag));
            &&& r.no_duplicates()
            &&& forall|n: GraphNodeM| #[trigger]
                r.contains(n) <==> n.tags.contains(tag) && exists|g: Seq<char>| #[trigger]
                    stored(s, g, n)
        }),
{
    let ids = under_key(s.tag_index, tag);
    lemma_nodes_exact(s, ids);
    let r = nodes_in_store(s, ids);
    assert forall|n: GraphNodeM| #[trigger] r.contains(n) <==> n.tags.contains(tag) && exists|
        g: Seq<char>,
    | #[trigger]
        stored(s, g, n) by {
        law_find_exact(s, n.id);
        assert(ids.contains(n.id) <==> tagged(s, n.id, tag));
        if r.contains(n) {
            let (g, x) = choose|g: Seq<char>, x: GraphNodeM| #[trigger]
                stored(s, g, x) && x.id == n.id && x.tags.contains(tag);
            assert(node_in_store(s, n.id) == Some(x));
        }
    }
}

/// Where the indexes are sound, a search for a kind gives exactly the nodes of
/// the graphs that are of it, each once.
pub proof fn law_by_type_exact(s: GraphStoreM, kind: NodeKind)
    requires
        index_sound(s),
    ensures
        ({
            let r = nodes_in_store(s, under_key(s.type_index, kind_key(kind)));
            &&& r.no_duplicates()
            &&& forall|n: GraphNodeM| #[trigger]
                r.contains(n) <==> n.kind == kind && exists|g: Seq<char>| #[trigger]
                    stored(s, g, n)
        }),
{
    let ids = under_key(s.type_index, kind_key(kind));
    lemma_nodes_exact(s, ids);
    let r = nodes_in_store(s, ids);
    assert forall|n: GraphNodeM| #[trigger] r.contains(n) <==> n.kind == kind && exists|
        g: Seq<char>,
    | #[trigger]
        stored(s, g, n) by {
        law_find_exact(s, n.id);
        assert(ids.contains(n.id) <==> of_kind(s, n.id, kind));
        if r.contains(n) {
            let (g, x) = choose|g: Seq<char>, x: GraphNodeM| #[trigger]
                stored(s, g, x) && x.id == n.id && x.kind == kind;
            assert(node_in_store(s, n.id) == Some(x));
        }
    }
}

} // verus!
