//! What every accepted operation keeps: the blocks of a document form a tree.

use vstd::prelude::*;

use crate::json::{merged, Json};
use crate::seqs::{
    index_in, is_not, keep, lemma_first_index, lemma_first_index_is, lemma_index_in,
    lemma_keep_contains, lemma_keep_order, lemma_keep_unique, without,
};
use crate::time::Timestamp;
use crate::tree::block::{bumped, BlockM};
use crate::tree::doc::{
    applied, block_at, block_of, bounded, changed, depth, detached, grounded, hangs_under, has_id,
    ids_of, kids, lemma_bounded_mono, lemma_depth_bound, new_document, not_among, placed, preorder,
    preorders, reparented, subtree, under, with_children, DocumentM, OpM,
};

verus! {

/// No two blocks share an identity.
pub open spec fn ids_differ(bs: Seq<BlockM>) -> bool {
    forall|i: int, j: int| 0 <= i < j < bs.len() ==> (#[trigger] bs[i]).id != (#[trigger] bs[j]).id
}

/// The children of every block are blocks, each once, and know their parent.
pub open spec fn children_ok(bs: Seq<BlockM>) -> bool {
    forall|i: int| 0 <= i < bs.len() ==> child_list_ok(bs, #[trigger] bs[i])
}

pub open spec fn child_list_ok(bs: Seq<BlockM>, b: BlockM) -> bool {
    &&& b.children.no_duplicates()
    &&& forall|k: int|
        0 <= k < b.children.len() ==> block_of(bs, #[trigger] b.children[k]) is Some && block_of(
            bs,
            b.children[k],
        )->0.parent == Some(b.id)
}

/// Every block but the root hangs under its parent, which lists it.
pub open spec fn parents_ok(bs: Seq<BlockM>, root: Seq<char>) -> bool {
    forall|i: int| 0 <= i < bs.len() ==> parent_ok(bs, root, #[trigger] bs[i])
}

pub open spec fn parent_ok(bs: Seq<BlockM>, root: Seq<char>, b: BlockM) -> bool {
    if b.id == root {
        b.parent is None
    } else {
        &&& b.parent is Some
        &&& block_of(bs, b.parent->0) is Some
        &&& kids(bs, b.parent->0).contains(b.id)
    }
}

/// Every child ranks below its parent.
pub open spec fn ranked(bs: Seq<BlockM>, rank: spec_fn(Seq<char>) -> nat) -> bool {
    forall|i: int, k: int| #![trigger bs[i].children[k]]
        0 <= i < bs.len() && 0 <= k < bs[i].children.len() ==> rank(bs[i].children[k]) < rank(
            bs[i].id,
        )
}

/// The blocks form a tree under `root`.
pub open spec fn tree(bs: Seq<BlockM>, root: Seq<char>) -> bool {
    &&& ids_differ(bs)
    &&& block_of(bs, root) is Some
    &&& children_ok(bs)
    &&& parents_ok(bs, root)
    &&& exists|rank: spec_fn(Seq<char>) -> nat| ranked(bs, rank)
}

/// The blocks of a document form a tree.
pub open spec fn valid(d: DocumentM) -> bool {
    tree(d.blocks, d.root)
}

// ---- Lookup ----------------------------------------------------------------

/// With different identities, the block at a place is the block with its
/// identity.
pub proof fn lemma_at(bs: Seq<BlockM>, i: int)
    requires
        ids_differ(bs),
        0 <= i < bs.len(),
    ensures
        block_at(bs, bs[i].id) == Some(i),
        block_of(bs, bs[i].id) == Some(bs[i]),
{
    lemma_first_index_is(bs, has_id(bs[i].id), i);
}

pub proof fn lemma_of(bs: Seq<BlockM>, id: Seq<char>)
    ensures
        match block_at(bs, id) {
            Some(i) => 0 <= i < bs.len() && bs[i].id == id && block_of(bs, id) == Some(bs[i]),
            None => block_of(bs, id) is None && forall|i: int|
                0 <= i < bs.len() ==> (#[trigger] bs[i]).id != id,
        },
{
    lemma_first_index(bs, has_id(id));
    if block_at(bs, id) is None {
        assert forall|i: int| 0 <= i < bs.len() implies (#[trigger] bs[i]).id != id by {
            assert(!has_id(id)(bs[i]));
        }
    }
}

/// Two lists of blocks with the same identities at the same places find each
/// other's blocks at the same places.
pub proof fn lemma_same_places(a: Seq<BlockM>, b: Seq<BlockM>, id: Seq<char>)
    requires
        a.len() == b.len(),
        forall|i: int| 0 <= i < a.len() ==> (#[trigger] a[i]).id == b[i].id,
    ensures
        block_at(a, id) == block_at(b, id),
{
    lemma_first_index(a, has_id(id));
    lemma_first_index(b, has_id(id));
    match block_at(a, id) {
        Some(i) => {
            assert forall|j: int| 0 <= j < i implies !has_id(id)(#[trigger] b[j]) by {
                assert(!has_id(id)(a[j]));
            }
            lemma_first_index_is(b, has_id(id), i);
        },
        None => {
            assert forall|j: int| 0 <= j < b.len() implies !has_id(id)(#[trigger] b[j]) by {
                assert(!has_id(id)(a[j]));
            }
        },
    }
}

// ---- Subtrees --------------------------------------------------------------

/// In a tree every walk downwards comes to an end.
pub proof fn lemma_ranked_bounded(
    bs: Seq<BlockM>,
    rank: spec_fn(Seq<char>) -> nat,
    id: Seq<char>,
)
    requires
        ranked(bs, rank),
    ensures
        bounded(bs, id, rank(id) + 1),
    decreases rank(id),
{
    lemma_of(bs, id);
    match block_of(bs, id) {
        None => {},
        Some(b) => {
            let i = block_at(bs, id)->0;
            assert forall|k: int| 0 <= k < b.children.len() implies bounded(
                bs,
                #[trigger] b.children[k],
                rank(id),
            ) by {
                let c = bs[i].children[k];
                assert(rank(c) < rank(id));
                lemma_ranked_bounded(bs, rank, c);
                lemma_bounded_mono(bs, c, rank(c) + 1, rank(id));
            }
        },
    }
}

/// In a tree every walk downwards comes to an end.
pub proof fn law_tree_grounded(bs: Seq<BlockM>, root: Seq<char>, id: Seq<char>)
    requires
        tree(bs, root),
    ensures
        grounded(bs, id),
{
    let rank = choose|rank: spec_fn(Seq<char>) -> nat| ranked(bs, rank);
    lemma_ranked_bounded(bs, rank, id);
}

/// An identity is listed by a walk exactly if it belongs to a block that hangs
/// under the start of the walk.
pub proof fn lemma_preorder_under(bs: Seq<BlockM>, x: Seq<char>, id: Seq<char>, n: nat)
    requires
        bounded(bs, id, n),
    ensures
        ids_of(preorder(bs, id, n)).contains(x) <==> under(bs, x, id, n) && block_of(bs, x)
            is Some,
    decreases n, 0nat,
{
    lemma_of(bs, id);
    lemma_of(bs, x);
    match block_of(bs, id) {
        None => {
            if n > 0 {
                assert(kids(bs, id).len() == 0);
            }
            assert(ids_of(preorder(bs, id, n)).len() == 0);
        },
        Some(b) => {
            let m = (n - 1) as nat;
            let rest = preorders(bs, b.children, m);
            let all = preorder(bs, id, n);
            assert(all == seq![b] + rest);
            lemma_preorders_under(bs, x, b.children, m);
            assert(ids_of(all)[0] == id);
            if ids_of(all).contains(x) {
                let i = choose|i: int| 0 <= i < ids_of(all).len() && ids_of(all)[i] == x;
                if i > 0 {
                    assert(ids_of(rest)[i - 1] == x);
                    assert(ids_of(rest).contains(x));
                }
            }
            if ids_of(rest).contains(x) {
                let i = choose|i: int| 0 <= i < ids_of(rest).len() && ids_of(rest)[i] == x;
                assert(ids_of(all)[i + 1] == x);
            }
            if under(bs, x, id, n) && x != id {
                let k = choose|k: int|
                    0 <= k < kids(bs, id).len() && under(bs, x, #[trigger] kids(bs, id)[k], m);
                assert(under(bs, x, b.children[k], m));
            }
        },
    }
}

proof fn lemma_preorders_under(bs: Seq<BlockM>, x: Seq<char>, ids: Seq<Seq<char>>, n: nat)
    requires
        forall|i: int| 0 <= i < ids.len() ==> bounded(bs, #[trigger] ids[i], n),
    ensures
        ids_of(preorders(bs, ids, n)).contains(x) <==> block_of(bs, x) is Some && exists|k: int|
            0 <= k < ids.len() && under(bs, x, #[trigger] ids[k], n),
    decreases n, ids.len() + 1,
{
    if ids.len() == 0 {
        assert(ids_of(preorders(bs, ids, n)).len() == 0);
    } else {
        let d = ids.drop_last();
        assert forall|i: int| 0 <= i < d.len() implies bounded(bs, #[trigger] d[i], n) by {
            assert(d[i] == ids[i]);
        }
        lemma_preorders_under(bs, x, d, n);
        assert(ids.last() == ids[ids.len() - 1]);
        lemma_preorder_under(bs, x, ids.last(), n);
        let front = preorders(bs, d, n);
        let back = preorder(bs, ids.last(), n);
        let all = front + back;
        assert(ids_of(all) =~= ids_of(front) + ids_of(back));
        if ids_of(all).contains(x) {
            let i = choose|i: int| 0 <= i < ids_of(all).len() && ids_of(all)[i] == x;
            if i < front.len() {
                assert(ids_of(front)[i] == x);
                assert(ids_of(front).contains(x));
                let k = choose|k: int| 0 <= k < d.len() && under(bs, x, #[trigger] d[k], n);
                assert(under(bs, x, ids[k], n));
            } else {
                assert(ids_of(back)[i - front.len()] == x);
                assert(ids_of(back).contains(x));
            }
        }
        if ids_of(front).contains(x) {
            let i = choose|i: int| 0 <= i < ids_of(front).len() && ids_of(front)[i] == x;
            assert(ids_of(all)[i] == x);
        }
        if ids_of(back).contains(x) {
            let i = choose|i: int| 0 <= i < ids_of(back).len() && ids_of(back)[i] == x;
            assert(ids_of(all)[front.len() + i] == x);
        }
        if block_of(bs, x) is Some && exists|k: int|
            0 <= k < ids.len() && under(bs, x, #[trigger] ids[k], n) {
            let k = choose|k: int| 0 <= k < ids.len() && under(bs, x, #[trigger] ids[k], n);
            if k < d.len() {
                assert(under(bs, x, d[k], n));
            }
        }
    }
}

/// A child of what hangs under `top` hangs under `top`.
pub proof fn lemma_under_step(
    bs: Seq<BlockM>,
    x: Seq<char>,
    k: int,
    top: Seq<char>,
    n: nat,
)
    requires
        bounded(bs, top, n),
        under(bs, x, top, n),
        0 <= k < kids(bs, x).len(),
    ensures
        under(bs, kids(bs, x)[k], top, n),
    decreases n,
{
    lemma_of(bs, top);
    if x == top {
        assert(under(bs, kids(bs, top)[k], kids(bs, top)[k], (n - 1) as nat));
    } else {
        let i = choose|i: int|
            0 <= i < kids(bs, top).len() && under(
                bs,
                x,
                #[trigger] kids(bs, top)[i],
                (n - 1) as nat,
            );
        lemma_under_step(bs, x, k, kids(bs, top)[i], (n - 1) as nat);
        assert(under(bs, kids(bs, x)[k], kids(bs, top)[i], (n - 1) as nat));
    }
}

/// What hangs under `top` and is not `top` is the child of something that
/// hangs under `top`.
pub proof fn lemma_under_parent(bs: Seq<BlockM>, x: Seq<char>, top: Seq<char>, n: nat) -> (r: (
    Seq<char>,
    int,
))
    requires
        bounded(bs, top, n),
        under(bs, x, top, n),
        x != top,
    ensures
        under(bs, r.0, top, n),
        0 <= r.1 < kids(bs, r.0).len(),
        kids(bs, r.0)[r.1] == x,
    decreases n,
{
    lemma_of(bs, top);
    let i = choose|i: int|
        0 <= i < kids(bs, top).len() && under(
            bs,
            x,
            #[trigger] kids(bs, top)[i],
            (n - 1) as nat,
        );
    let c = kids(bs, top)[i];
    if x == c {
        (top, i)
    } else {
        let (p, k) = lemma_under_parent(bs, x, c, (n - 1) as nat);
        assert(under(bs, p, kids(bs, top)[i], (n - 1) as nat));
        (p, k)
    }
}


// ---- Changing one list of children -----------------------------------------

/// Replacing the children of one block leaves every block at its place, with
/// its identity and its parent.
pub proof fn lemma_with_children(bs: Seq<BlockM>, i: int, list: Seq<Seq<char>>, x: Seq<char>)
    requires
        0 <= i < bs.len(),
    ensures
        block_at(with_children(bs, i, list), x) == block_at(bs, x),
        block_of(bs, x) is Some <==> block_of(with_children(bs, i, list), x) is Some,
        block_of(bs, x) matches Some(b) ==> block_of(with_children(bs, i, list), x)->0.parent
            == b.parent,
        kids(with_children(bs, i, list), x) == if block_at(bs, x) == Some(i) {
            list
        } else {
            kids(bs, x)
        },
{
    let cs = with_children(bs, i, list);
    lemma_same_places(bs, cs, x);
    lemma_of(bs, x);
    lemma_of(cs, x);
}

/// Inserting a new element.
proof fn lemma_insert_new(s: Seq<Seq<char>>, pos: int, x: Seq<char>)
    requires
        0 <= pos <= s.len(),
        !s.contains(x),
        s.no_duplicates(),
    ensures
        s.insert(pos, x).no_duplicates(),
        s.insert(pos, x).contains(x),
        forall|y: Seq<char>| s.contains(y) ==> #[trigger] s.insert(pos, x).contains(y),
        forall|k: int|
            0 <= k < s.insert(pos, x).len() ==> #[trigger] s.insert(pos, x)[k] == x || s.contains(
                s.insert(pos, x)[k],
            ),
{
    let t = s.insert(pos, x);
    assert(t[pos] == x);
    assert forall|y: Seq<char>| s.contains(y) implies #[trigger] t.contains(y) by {
        let i = choose|i: int| 0 <= i < s.len() && s[i] == y;
        if i < pos {
            assert(t[i] == y);
        } else {
            assert(t[i + 1] == y);
        }
    }
    assert forall|k: int| 0 <= k < t.len() implies #[trigger] t[k] == x || s.contains(t[k]) by {
        if k < pos {
            assert(t[k] == s[k]);
        } else if k > pos {
            assert(t[k] == s[k - 1]);
        }
    }
    assert forall|i: int, j: int| 0 <= i < t.len() && 0 <= j < t.len() && i != j implies t[i]
        != t[j] by {
        let a = if i < pos {
            i
        } else {
            i - 1
        };
        let b = if j < pos {
            j
        } else {
            j - 1
        };
        if i != pos {
            assert(t[i] == s[a]);
        }
        if j != pos {
            assert(t[j] == s[b]);
        }
    }
}

/// A list without an element: what it holds, and still no element twice.
proof fn lemma_without(s: Seq<Seq<char>>, x: Seq<char>)
    ensures
        !without(s, x).contains(x),
        forall|y: Seq<char>| #[trigger] without(s, x).contains(y) <==> s.contains(y) && y != x,
        s.no_duplicates() ==> without(s, x).no_duplicates(),
{
    lemma_keep_contains(s, is_not(x));
    assert forall|y: Seq<char>| #[trigger] without(s, x).contains(y) <==> s.contains(y) && y
        != x by {
        assert(is_not(x)(y) <==> y != x);
    }
    if s.no_duplicates() {
        lemma_keep_unique(s, is_not(x));
    }
}

/// The outcome of an accepted placement.
proof fn lemma_placed(
    bs: Seq<BlockM>,
    parent: Seq<char>,
    child: Seq<char>,
    after: Option<Seq<char>>,
) -> (pos: int)
    requires
        placed(bs, parent, child, after).1 is Ok,
    ensures
        block_at(bs, parent) is Some,
        ({
            let i = block_at(bs, parent)->0;
            let rest = without(bs[i].children, child);
            &&& 0 <= pos <= rest.len()
            &&& placed(bs, parent, child, after).0 == with_children(bs, i, rest.insert(pos, child))
        }),
{
    let i = block_at(bs, parent)->0;
    let rest = without(bs[i].children, child);
    match after {
        None => 0,
        Some(a) => {
            lemma_index_in(rest, a);
            index_in(rest, a)->0 + 1
        },
    }
}

/// Only the parent of a block lists it.
proof fn lemma_listed_by_parent(bs: Seq<BlockM>, root: Seq<char>, j: int, k: int)
    requires
        tree(bs, root),
        0 <= j < bs.len(),
        0 <= k < bs[j].children.len(),
    ensures
        block_of(bs, bs[j].children[k]) is Some,
        block_of(bs, bs[j].children[k])->0.parent == Some(bs[j].id),
        bs[j].children[k] != root,
{
    assert(child_list_ok(bs, bs[j]));
    let c = bs[j].children[k];
    lemma_of(bs, c);
    let i = block_at(bs, c)->0;
    assert(parent_ok(bs, root, bs[i]));
}

// ---- Insertion -------------------------------------------------------------

pub proof fn lemma_push_block(bs: Seq<BlockM>, nb: BlockM, x: Seq<char>)
    requires
        block_at(bs, nb.id) is None,
    ensures
        block_at(bs.push(nb), x) == if x == nb.id {
            Some(bs.len() as int)
        } else {
            block_at(bs, x)
        },
        block_of(bs.push(nb), x) == if x == nb.id {
            Some(nb)
        } else {
            block_of(bs, x)
        },
{
    assert(bs.push(nb).drop_last() =~= bs);
    lemma_of(bs, x);
}

proof fn lemma_insert_keeps(
    bs: Seq<BlockM>,
    root: Seq<char>,
    parent: Seq<char>,
    after: Option<Seq<char>>,
    nb: BlockM,
)
    requires
        tree(bs, root),
        block_at(bs, parent) is Some,
        block_at(bs, nb.id) is None,
        nb.parent == Some(parent),
        nb.children.len() == 0,
        placed(bs.push(nb), parent, nb.id, after).1 is Ok,
    ensures
        tree(placed(bs.push(nb), parent, nb.id, after).0, root),
{
    let one = bs.push(nb);
    let pos = lemma_placed(one, parent, nb.id, after);
    let out = placed(one, parent, nb.id, after).0;
    lemma_of(bs, nb.id);
    lemma_of(bs, parent);
    lemma_push_block(bs, nb, parent);
    let i = block_at(bs, parent)->0;
    let rest = without(one[i].children, nb.id);
    let list = rest.insert(pos, nb.id);
    assert(one[i] == bs[i]);
    assert(child_list_ok(bs, bs[i]));
    lemma_without(bs[i].children, nb.id);
    lemma_insert_new(rest, pos, nb.id);
    assert(!bs[i].children.contains(nb.id)) by {
        if bs[i].children.contains(nb.id) {
            let k = choose|k: int| 0 <= k < bs[i].children.len() && bs[i].children[k] == nb.id;
            assert(block_of(bs, bs[i].children[k]) is Some);
        }
    }
    assert(ids_differ(out)) by {
        assert forall|a: int, b: int| 0 <= a < b < out.len() implies (#[trigger] out[a]).id
            != (#[trigger] out[b]).id by {
            assert(out[a].id == one[a].id && out[b].id == one[b].id);
            if b < bs.len() {
                assert(one[a] == bs[a] && one[b] == bs[b]);
            } else {
                assert(one[a] == bs[a]);
            }
        }
    }
    lemma_push_block(bs, nb, root);
    lemma_with_children(one, i, list, root);
    assert(children_ok(out)) by {
        assert forall|j: int| 0 <= j < out.len() implies child_list_ok(out, #[trigger] out[j]) by {
            if j == i {
                assert(out[j].children == list);
                assert forall|k: int| 0 <= k < list.len() implies block_of(
                    out,
                    #[trigger] list[k],
                ) is Some && block_of(out, list[k])->0.parent == Some(parent) by {
                    lemma_with_children(one, i, list, list[k]);
                    lemma_push_block(bs, nb, list[k]);
                    if list[k] != nb.id {
                        assert(rest.contains(list[k]));
                        let q = choose|q: int|
                            0 <= q < bs[i].children.len() && bs[i].children[q] == list[k];
                        assert(block_of(bs, bs[i].children[q]) is Some);
                    }
                }
            } else if j < bs.len() {
                assert(out[j] == bs[j]);
                assert(child_list_ok(bs, bs[j]));
                assert forall|k: int| 0 <= k < bs[j].children.len() implies block_of(
                    out,
                    #[trigger] bs[j].children[k],
                ) is Some && block_of(out, bs[j].children[k])->0.parent == Some(bs[j].id) by {
                    lemma_with_children(one, i, list, bs[j].children[k]);
                    lemma_push_block(bs, nb, bs[j].children[k]);
                }
            } else {
                assert(out[j] == nb);
            }
        }
    }
    assert(parents_ok(out, root)) by {
        assert forall|j: int| 0 <= j < out.len() implies parent_ok(out, root, #[trigger] out[j]) by {
            if j < bs.len() {
                assert(out[j].id == bs[j].id && out[j].parent == bs[j].parent);
                assert(parent_ok(bs, root, bs[j]));
                if bs[j].id != root {
                    let q = bs[j].parent->0;
                    lemma_with_children(one, i, list, q);
                    lemma_push_block(bs, nb, q);
                    lemma_of(bs, q);
                    if block_at(bs, q) == Some(i) {
                        assert(bs[i].children.contains(bs[j].id));
                        assert(bs[j].id != nb.id);
                        assert(rest.contains(bs[j].id));
                        assert(list.contains(bs[j].id));
                    }
                }
            } else {
                assert(out[j] == nb);
                lemma_with_children(one, i, list, parent);
                assert(block_of(bs, root) is Some);
                lemma_of(bs, root);
            }
        }
    }
    let rank = choose|rank: spec_fn(Seq<char>) -> nat| ranked(bs, rank);
    let rank2 = |x: Seq<char>|
        if x == nb.id {
            0nat
        } else {
            rank(x) + 1
        };
    assert(ranked(out, rank2)) by {
        assert forall|j: int, k: int| #![trigger out[j].children[k]]
            0 <= j < out.len() && 0 <= k < out[j].children.len() implies rank2(out[j].children[k])
            < rank2(out[j].id) by {
            if j == i {
                let c = list[k];
                assert(out[j].children[k] == c);
                assert(parent != nb.id);
                if c != nb.id {
                    assert(rest.contains(c));
                    let q = choose|q: int|
                        0 <= q < bs[i].children.len() && bs[i].children[q] == c;
                    assert(rank(bs[i].children[q]) < rank(bs[i].id));
                }
            } else if j < bs.len() {
                assert(out[j] == bs[j]);
                assert(child_list_ok(bs, bs[j]));
                assert(block_of(bs, bs[j].children[k]) is Some);
                assert(bs[j].children[k] != nb.id);
                assert(bs[j].id != nb.id);
                assert(rank(bs[j].children[k]) < rank(bs[j].id));
            } else {
                assert(out[j] == nb);
            }
        }
    }
}

// ---- Detaching -------------------------------------------------------------

/// A block other than the root has a place under its parent, and taking it
/// out changes the list of that parent alone.
proof fn lemma_detached(bs: Seq<BlockM>, root: Seq<char>, id: Seq<char>) -> (ip: int)
    requires
        tree(bs, root),
        block_of(bs, id) is Some,
        id != root,
    ensures
        0 <= ip < bs.len(),
        block_of(bs, id)->0.parent == Some(bs[ip].id),
        block_at(bs, bs[ip].id) == Some(ip),
        detached(bs, id) == with_children(bs, ip, without(bs[ip].children, id)),
        forall|j: int, k: int| #![trigger bs[j].children[k]]
            0 <= j < bs.len() && 0 <= k < bs[j].children.len() && bs[j].children[k] == id ==> j
                == ip,
{
    lemma_of(bs, id);
    let i = block_at(bs, id)->0;
    assert(parent_ok(bs, root, bs[i]));
    let p = bs[i].parent->0;
    lemma_of(bs, p);
    let ip = block_at(bs, p)->0;
    assert forall|j: int, k: int| #![trigger bs[j].children[k]]
        0 <= j < bs.len() && 0 <= k < bs[j].children.len() && bs[j].children[k] == id implies j
        == ip by {
        lemma_listed_by_parent(bs, root, j, k);
        lemma_at(bs, j);
    }
    ip
}

/// What hangs under a block with a parent: the children of its members are
/// members, and a member other than the block has its parent among them.
proof fn lemma_members(
    bs: Seq<BlockM>,
    root: Seq<char>,
    id: Seq<char>,
    n: nat,
    j: int,
    k: int,
)
    requires
        tree(bs, root),
        bounded(bs, id, n),
        0 <= j < bs.len(),
        0 <= k < bs[j].children.len(),
        bs[j].children[k] != id,
    ensures
        under(bs, bs[j].children[k], id, n) <==> under(bs, bs[j].id, id, n),
{
    let c = bs[j].children[k];
    lemma_at(bs, j);
    if under(bs, bs[j].id, id, n) {
        assert(kids(bs, bs[j].id)[k] == c);
        lemma_under_step(bs, bs[j].id, k, id, n);
    }
    if under(bs, c, id, n) {
        let (q, m) = lemma_under_parent(bs, c, id, n);
        lemma_of(bs, q);
        let jq = block_at(bs, q)->0;
        assert(bs[jq].children[m] == c);
        lemma_listed_by_parent(bs, root, jq, m);
        lemma_listed_by_parent(bs, root, j, k);
    }
}

// ---- Deletion --------------------------------------------------------------

proof fn lemma_delete_keeps(bs: Seq<BlockM>, root: Seq<char>, id: Seq<char>)
    requires
        tree(bs, root),
        block_of(bs, id) is Some,
        id != root,
    ensures
        tree(keep(detached(bs, id), not_among(ids_of(subtree(bs, id)))), root),
{
    law_tree_grounded(bs, root, id);
    let n = depth(bs, id);
    assert(bounded(bs, id, n));
    let gone = ids_of(subtree(bs, id));
    let p = not_among(gone);
    let ip = lemma_detached(bs, root, id);
    let list = without(bs[ip].children, id);
    let free = detached(bs, id);
    let out = keep(free, p);
    lemma_keep_contains(free, p);
    lemma_without(bs[ip].children, id);
    assert(child_list_ok(bs, bs[ip]));
    assert forall|x: Seq<char>| block_of(bs, x) is Some implies (gone.contains(x) <==> #[trigger] under(
        bs,
        x,
        id,
        n,
    )) by {
        lemma_preorder_under(bs, x, id, n);
    }
    assert(ids_differ(free)) by {
        assert forall|a: int, b: int| 0 <= a < b < free.len() implies (#[trigger] free[a]).id
            != (#[trigger] free[b]).id by {
            assert(free[a].id == bs[a].id && free[b].id == bs[b].id);
        }
    }
    assert(ids_differ(out)) by {
        assert forall|a: int, b: int| 0 <= a < b < out.len() implies (#[trigger] out[a]).id
            != (#[trigger] out[b]).id by {
            let (c, d) = lemma_keep_order(free, p, a, b);
        }
    }
    // A block that is not gone is still found, as it stands in `free`.
    assert forall|x: Seq<char>| block_of(bs, x) is Some && !gone.contains(x) implies #[trigger] block_of(
        out,
        x,
    ) == block_of(free, x) && block_of(free, x) is Some by {
        lemma_with_children(bs, ip, list, x);
        lemma_of(free, x);
        let j = block_at(free, x)->0;
        assert(p(free[j]));
        assert(free.contains(free[j]));
        assert(out.contains(free[j]));
        let m = choose|m: int| 0 <= m < out.len() && out[m] == free[j];
        lemma_at(out, m);
    }
    // A block that is left stood at some place before.
    assert forall|j: int| 0 <= j < out.len() implies exists|i: int|
        0 <= i < bs.len() && (#[trigger] out[j]) == #[trigger] free[i] && !gone.contains(bs[i].id) by {
        assert(out.contains(out[j]));
        let i = choose|i: int| 0 <= i < free.len() && free[i] == out[j];
        assert(p(free[i]));
        assert(free[i].id == bs[i].id);
    }
    assert(under(bs, id, id, n));
    assert(gone.contains(id));
    // The root is not gone.
    assert(!gone.contains(root)) by {
        if gone.contains(root) {
            assert(under(bs, root, id, n));
            let (q, m) = lemma_under_parent(bs, root, id, n);
            lemma_of(bs, q);
            lemma_listed_by_parent(bs, root, block_at(bs, q)->0, m);
        }
    }
    assert(block_of(out, root) is Some);
    assert(children_ok(out)) by {
        assert forall|j: int| 0 <= j < out.len() implies child_list_ok(out, #[trigger] out[j]) by {
            let i = choose|i: int|
                0 <= i < bs.len() && out[j] == #[trigger] free[i] && !gone.contains(bs[i].id);
            assert(child_list_ok(bs, bs[i]));
            lemma_at(bs, i);
            assert(out[j].children.no_duplicates());
            assert forall|k: int| 0 <= k < out[j].children.len() implies block_of(
                out,
                #[trigger] out[j].children[k],
            ) is Some && block_of(out, out[j].children[k])->0.parent == Some(out[j].id) by {
                let c = out[j].children[k];
                assert(bs[i].children.contains(c)) by {
                    if i == ip {
                        assert(list.contains(c));
                    }
                }
                let m = choose|m: int| 0 <= m < bs[i].children.len() && bs[i].children[m] == c;
                assert(c != id) by {
                    if i == ip {
                        assert(list.contains(c));
                    }
                }
                lemma_members(bs, root, id, n, i, m);
                assert(block_of(bs, bs[i].children[m]) is Some);
                assert(!gone.contains(c));
                lemma_with_children(bs, ip, list, c);
            }
        }
    }
    assert(parents_ok(out, root)) by {
        assert forall|j: int| 0 <= j < out.len() implies parent_ok(out, root, #[trigger] out[j]) by {
            let i = choose|i: int|
                0 <= i < bs.len() && out[j] == #[trigger] free[i] && !gone.contains(bs[i].id);
            assert(parent_ok(bs, root, bs[i]));
            assert(out[j].id == bs[i].id && out[j].parent == bs[i].parent);
            if bs[i].id != root {
                let q = bs[i].parent->0;
                lemma_of(bs, q);
                let iq = block_at(bs, q)->0;
                let m = choose|m: int|
                    0 <= m < bs[iq].children.len() && bs[iq].children[m] == bs[i].id;
                assert(bs[i].id != id);
                lemma_members(bs, root, id, n, iq, m);
                lemma_at(bs, i);
                assert(!gone.contains(q));
                lemma_with_children(bs, ip, list, q);
                assert(kids(free, q).contains(bs[i].id)) by {
                    if iq == ip {
                        assert(list.contains(bs[i].id));
                    }
                }
            }
        }
    }
    let rank = choose|rank: spec_fn(Seq<char>) -> nat| ranked(bs, rank);
    assert(ranked(out, rank)) by {
        assert forall|j: int, k: int| #![trigger out[j].children[k]]
            0 <= j < out.len() && 0 <= k < out[j].children.len() implies rank(out[j].children[k])
            < rank(out[j].id) by {
            let i = choose|i: int|
                0 <= i < bs.len() && out[j] == #[trigger] free[i] && !gone.contains(bs[i].id);
            let c = out[j].children[k];
            assert(bs[i].children.contains(c)) by {
                if i == ip {
                    assert(list.contains(c));
                }
            }
            let m = choose|m: int| 0 <= m < bs[i].children.len() && bs[i].children[m] == c;
            assert(rank(bs[i].children[m]) < rank(bs[i].id));
        }
    }
}

// ---- Moving ----------------------------------------------------------------

proof fn lemma_move_keeps(
    bs: Seq<BlockM>,
    root: Seq<char>,
    id: Seq<char>,
    np: Seq<char>,
    after: Option<Seq<char>>,
)
    requires
        tree(bs, root),
        block_of(bs, id) is Some,
        block_of(bs, np) is Some,
        id != root,
        !hangs_under(bs, np, id),
        placed(reparented(bs, id, np), np, id, after).1 is Ok,
    ensures
        tree(placed(reparented(bs, id, np), np, id, after).0, root),
{
    law_tree_grounded(bs, root, id);
    let n = depth(bs, id);
    assert(bounded(bs, id, n));
    let ip = lemma_detached(bs, root, id);
    let list = without(bs[ip].children, id);
    let free = detached(bs, id);
    lemma_without(bs[ip].children, id);
    lemma_with_children(bs, ip, list, id);
    lemma_of(bs, id);
    let ii = block_at(bs, id)->0;
    let two = reparented(bs, id, np);
    assert(two == free.update(ii, BlockM { parent: Some(np), ..free[ii] }));
    let pos = lemma_placed(two, np, id, after);
    let out = placed(two, np, id, after).0;
    lemma_same_places(bs, two, np);
    lemma_of(bs, np);
    let inp = block_at(bs, np)->0;
    let rest = without(two[inp].children, id);
    let last = rest.insert(pos, id);
    lemma_without(two[inp].children, id);
    assert(child_list_ok(bs, bs[inp]));
    assert(child_list_ok(bs, bs[ip]));
    assert(two[inp].children == if inp == ip {
        list
    } else {
        bs[inp].children
    });
    lemma_insert_new(rest, pos, id);
    assert(out == with_children(two, inp, last));
    assert(np != id) by {
        assert(under(bs, id, id, n));
    }
    assert forall|j: int| 0 <= j < bs.len() implies (#[trigger] out[j]).id == bs[j].id && out[j].parent
        == (if j == ii {
        Some(np)
    } else {
        bs[j].parent
    }) by {}
    // Every place finds its block as before.
    assert forall|x: Seq<char>| #[trigger] block_at(out, x) == block_at(bs, x) by {
        lemma_same_places(bs, out, x);
    }
    // The children other than `id` are as before.
    assert forall|j: int, c: Seq<char>| 0 <= j < bs.len() && c != id implies (
    #[trigger] out[j].children.contains(c) <==> bs[j].children.contains(c)) by {
        if j == inp {
            if out[j].children.contains(c) {
                let k = choose|k: int| 0 <= k < last.len() && last[k] == c;
                assert(rest.contains(last[k]));
            }
            if rest.contains(c) {
                assert(last.contains(c));
            }
            assert(rest.contains(c) <==> two[inp].children.contains(c));
            assert(list.contains(c) <==> bs[ip].children.contains(c));
        } else if j == ip {
            assert(list.contains(c) <==> bs[ip].children.contains(c));
        }
    }
    assert forall|j: int| 0 <= j < bs.len() && j != inp implies !(#[trigger] out[j]).children.contains(id) by {
        if out[j].children.contains(id) {
            let k = choose|k: int| 0 <= k < out[j].children.len() && out[j].children[k] == id;
            if j == ip {
                assert(list.contains(id));
            } else {
                assert(bs[j].children[k] == id);
            }
        }
    }
    assert(ids_differ(out)) by {
        assert forall|a: int, b: int| 0 <= a < b < out.len() implies (#[trigger] out[a]).id
            != (#[trigger] out[b]).id by {
            assert(out[a].id == bs[a].id && out[b].id == bs[b].id);
        }
    }
    assert(block_at(out, root) == block_at(bs, root));
    assert(children_ok(out)) by {
        assert forall|j: int| 0 <= j < out.len() implies child_list_ok(out, #[trigger] out[j]) by {
            assert(child_list_ok(bs, bs[j]));
            assert(out[j].children.no_duplicates());
            assert forall|k: int| 0 <= k < out[j].children.len() implies block_of(
                out,
                #[trigger] out[j].children[k],
            ) is Some && block_of(out, out[j].children[k])->0.parent == Some(out[j].id) by {
                let c = out[j].children[k];
                assert(out[j].children.contains(c));
                assert(block_at(out, c) == block_at(bs, c));
                lemma_of(bs, c);
                if c == id {
                    assert(j == inp);
                } else {
                    assert(bs[j].children.contains(c));
                    let m = choose|m: int|
                        0 <= m < bs[j].children.len() && bs[j].children[m] == c;
                    assert(block_of(bs, bs[j].children[m]) is Some);
                    let ic = block_at(bs, c)->0;
                    assert(ic != ii);
                    assert(out[ic].parent == bs[ic].parent);
                }
            }
        }
    }
    assert(parents_ok(out, root)) by {
        assert forall|j: int| 0 <= j < out.len() implies parent_ok(out, root, #[trigger] out[j]) by {
            assert(parent_ok(bs, root, bs[j]));
            assert(out[j].id == bs[j].id);
            lemma_at(bs, j);
            if j == ii {
                assert(block_at(out, np) == block_at(bs, np));
                assert(kids(out, np) == last);
            } else if bs[j].id != root {
                let q = bs[j].parent->0;
                assert(block_at(out, q) == block_at(bs, q));
                lemma_of(bs, q);
                let iq = block_at(bs, q)->0;
                assert(bs[iq].children.contains(bs[j].id));
                assert(bs[j].id != id);
                assert(out[iq].children.contains(bs[j].id));
                assert(kids(out, q) == out[iq].children);
            }
        }
    }
    let rank = choose|rank: spec_fn(Seq<char>) -> nat| ranked(bs, rank);
    let lift = rank(id) + 1;
    let rank2 = |x: Seq<char>|
        if under(bs, x, id, n) {
            rank(x)
        } else {
            rank(x) + lift
        };
    assert(ranked(out, rank2)) by {
        assert forall|j: int, k: int| #![trigger out[j].children[k]]
            0 <= j < out.len() && 0 <= k < out[j].children.len() implies rank2(out[j].children[k])
            < rank2(out[j].id) by {
            let c = out[j].children[k];
            assert(out[j].children.contains(c));
            assert(out[j].id == bs[j].id);
            if c == id {
                assert(j == inp);
                assert(under(bs, id, id, n));
            } else {
                assert(bs[j].children.contains(c));
                let m = choose|m: int| 0 <= m < bs[j].children.len() && bs[j].children[m] == c;
                lemma_members(bs, root, id, n, j, m);
                assert(rank(bs[j].children[m]) < rank(bs[j].id));
            }
        }
    }
}

// ---- The laws --------------------------------------------------------------

/// Identities, parents and children alone make a tree.
proof fn lemma_same_shape(a: Seq<BlockM>, b: Seq<BlockM>, root: Seq<char>)
    requires
        tree(a, root),
        a.len() == b.len(),
        forall|i: int|
            0 <= i < a.len() ==> (#[trigger] a[i]).id == b[i].id && a[i].parent == b[i].parent
                && a[i].children == b[i].children,
    ensures
        tree(b, root),
{
    assert forall|x: Seq<char>| #[trigger] block_at(b, x) == block_at(a, x) by {
        lemma_same_places(a, b, x);
    }
    assert(ids_differ(b)) by {
        assert forall|i: int, j: int| 0 <= i < j < b.len() implies (#[trigger] b[i]).id
            != (#[trigger] b[j]).id by {
            assert(a[i].id != a[j].id);
        }
    }
    assert(block_at(b, root) == block_at(a, root));
    assert forall|i: int| 0 <= i < b.len() implies child_list_ok(b, #[trigger] b[i]) by {
        assert(child_list_ok(a, a[i]));
        assert forall|k: int| 0 <= k < b[i].children.len() implies block_of(
            b,
            #[trigger] b[i].children[k],
        ) is Some && block_of(b, b[i].children[k])->0.parent == Some(b[i].id) by {
            let c = a[i].children[k];
            assert(block_of(a, a[i].children[k]) is Some);
            assert(block_at(b, c) == block_at(a, c));
            lemma_of(a, c);
        }
    }
    assert forall|i: int| 0 <= i < b.len() implies parent_ok(b, root, #[trigger] b[i]) by {
        assert(parent_ok(a, root, a[i]));
        if a[i].id != root {
            let q = a[i].parent->0;
            assert(block_at(b, q) == block_at(a, q));
            lemma_of(a, q);
        }
    }
    let rank = choose|rank: spec_fn(Seq<char>) -> nat| ranked(a, rank);
    assert(ranked(b, rank)) by {
        assert forall|i: int, k: int| #![trigger b[i].children[k]]
            0 <= i < b.len() && 0 <= k < b[i].children.len() implies rank(b[i].children[k]) < rank(
            b[i].id,
        ) by {
            assert(rank(a[i].children[k]) < rank(a[i].id));
        }
    }
}

/// A new document is a tree, if its only block has neither parent nor
/// children.
pub proof fn law_new_valid(id: Seq<char>, title: Seq<char>, root: BlockM, space: Seq<char>)
    requires
        root.parent is None,
        root.children.len() == 0,
    ensures
        valid(new_document(id, title, root, space)),
{
    let d = new_document(id, title, root, space);
    assert(d.blocks[0] == root);
    lemma_at(d.blocks, 0);
    let rank = |x: Seq<char>| 0nat;
    assert(ranked(d.blocks, rank));
}

/// An accepted operation keeps the tree: whatever is inserted comes without
/// children.
pub proof fn law_apply_keeps_tree(d: DocumentM, op: OpM, now: Timestamp)
    requires
        valid(d),
        op matches OpM::InsertBlock { block, .. } ==> block.children.len() == 0,
        applied(d, op, now).1 is Ok,
    ensures
        valid(applied(d, op, now).0),
{
    let e = changed(d, op, now).0;
    match op {
        OpM::InsertBlock { parent, after, block } => {
            lemma_insert_keeps(
                d.blocks,
                d.root,
                parent,
                after,
                BlockM { parent: Some(parent), ..block },
            );
        },
        OpM::UpdateBlock { id, patch } => {
            lemma_of(d.blocks, id);
            lemma_same_shape(d.blocks, e.blocks, d.root);
        },
        OpM::DeleteBlock { id } => {
            lemma_of(d.blocks, id);
            lemma_delete_keeps(d.blocks, d.root, id);
        },
        OpM::MoveBlock { id, new_parent, after } => {
            lemma_of(d.blocks, id);
            lemma_of(d.blocks, new_parent);
            lemma_move_keeps(d.blocks, d.root, id, new_parent, after);
        },
        OpM::UpdateDocMeta { .. } => {},
    }
}

/// A bound on the ranks of all blocks.
proof fn lemma_rank_bound(bs: Seq<BlockM>, rank: spec_fn(Seq<char>) -> nat) -> (m: nat)
    ensures
        forall|i: int| 0 <= i < bs.len() ==> rank((#[trigger] bs[i]).id) <= m,
    decreases bs.len(),
{
    if bs.len() == 0 {
        0
    } else {
        let d = bs.drop_last();
        let m = lemma_rank_bound(d, rank);
        let last = rank(bs.last().id);
        let top = if m < last {
            last
        } else {
            m
        };
        assert forall|i: int| 0 <= i < bs.len() implies rank((#[trigger] bs[i]).id) <= top by {
            if i < d.len() {
                assert(bs[i] == d[i]);
            }
        }
        top
    }
}

proof fn lemma_under_root(
    bs: Seq<BlockM>,
    root: Seq<char>,
    rank: spec_fn(Seq<char>) -> nat,
    m: nat,
    j: int,
    n: nat,
)
    requires
        tree(bs, root),
        ranked(bs, rank),
        forall|i: int| 0 <= i < bs.len() ==> rank((#[trigger] bs[i]).id) <= m,
        bounded(bs, root, n),
        0 <= j < bs.len(),
    ensures
        under(bs, bs[j].id, root, n),
    decreases m - rank(bs[j].id),
{
    assert(parent_ok(bs, root, bs[j]));
    if bs[j].id != root {
        let q = bs[j].parent->0;
        lemma_of(bs, q);
        let iq = block_at(bs, q)->0;
        let k = choose|k: int| 0 <= k < bs[iq].children.len() && bs[iq].children[k] == bs[j].id;
        assert(rank(bs[iq].children[k]) < rank(bs[iq].id));
        lemma_under_root(bs, root, rank, m, iq, n);
        assert(kids(bs, q)[k] == bs[j].id);
        lemma_under_step(bs, q, k, root, n);
    }
}

/// In a tree the walk from the root lists every block, and nothing else.
pub proof fn law_walk_lists_all(d: DocumentM, x: Seq<char>)
    requires
        valid(d),
    ensures
        ids_of(subtree(d.blocks, d.root)).contains(x) <==> block_of(d.blocks, x) is Some,
{
    law_tree_grounded(d.blocks, d.root, d.root);
    let n = depth(d.blocks, d.root);
    lemma_preorder_under(d.blocks, x, d.root, n);
    lemma_of(d.blocks, x);
    if block_of(d.blocks, x) is Some {
        let rank = choose|rank: spec_fn(Seq<char>) -> nat| ranked(d.blocks, rank);
        let m = lemma_rank_bound(d.blocks, rank);
        lemma_under_root(d.blocks, d.root, rank, m, block_at(d.blocks, x)->0, n);
    }
}

/// In a tree no path downwards is longer than the number of blocks.
pub proof fn law_tree_depth(bs: Seq<BlockM>, root: Seq<char>, id: Seq<char>)
    requires
        tree(bs, root),
    ensures
        bounded(bs, id, bs.len()),
{
    law_tree_grounded(bs, root, id);
    lemma_depth_bound(bs, id, depth(bs, id));
}

/// `id` stands in a list behind `after`, or in front of all.
pub open spec fn stands_behind(list: Seq<Seq<char>>, after: Option<Seq<char>>, id: Seq<char>) -> bool {
    match after {
        None => list.len() > 0 && list[0] == id,
        Some(a) => exists|k: int|
            0 <= k < list.len() - 1 && #[trigger] list[k] == a && list[k + 1] == id,
    }
}

proof fn lemma_placed_behind(
    bs: Seq<BlockM>,
    parent: Seq<char>,
    child: Seq<char>,
    after: Option<Seq<char>>,
)
    requires
        placed(bs, parent, child, after).1 is Ok,
    ensures
        stands_behind(kids(placed(bs, parent, child, after).0, parent), after, child),
        forall|x: Seq<char>|
            x != parent ==> #[trigger] block_of(placed(bs, parent, child, after).0, x) == block_of(
                bs,
                x,
            ),
{
    let pos = lemma_placed(bs, parent, child, after);
    lemma_of(bs, parent);
    let i = block_at(bs, parent)->0;
    let rest = without(bs[i].children, child);
    let list = rest.insert(pos, child);
    let out = placed(bs, parent, child, after).0;
    lemma_with_children(bs, i, list, parent);
    match after {
        None => {
            assert(rest.insert(0, child)[0] == child);
        },
        Some(a) => {
            lemma_index_in(rest, a);
            let k = index_in(rest, a)->0;
            let l = rest.insert(k + 1, child);
            assert(out == with_children(bs, i, l));
            lemma_with_children(bs, i, l, parent);
            assert(l[k] == a && l[k + 1] == child);
        },
    }
    assert forall|x: Seq<char>| x != parent implies #[trigger] block_of(out, x) == block_of(
        bs,
        x,
    ) by {
        lemma_with_children(bs, i, list, x);
        lemma_of(bs, x);
    }
}

/// An inserted block is found as it was given, hangs under its parent and
/// stands where it was to stand; no block but its parent changes.
pub proof fn law_inserted_block_hangs(
    d: DocumentM,
    parent: Seq<char>,
    after: Option<Seq<char>>,
    block: BlockM,
    now: Timestamp,
    other: Seq<char>,
)
    requires
        applied(d, (OpM::InsertBlock { parent, after, block }), now).1 is Ok,
        other != parent,
        other != block.id,
    ensures
        ({
            let e = applied(d, (OpM::InsertBlock { parent, after, block }), now).0;
            &&& block_of(e.blocks, block.id) == Some(BlockM { parent: Some(parent), ..block })
            &&& stands_behind(kids(e.blocks, parent), after, block.id)
            &&& block_of(e.blocks, other) == block_of(d.blocks, other)
        }),
{
    let nb = BlockM { parent: Some(parent), ..block };
    let bs = d.blocks.push(nb);
    lemma_push_block(d.blocks, nb, parent);
    lemma_push_block(d.blocks, nb, block.id);
    lemma_push_block(d.blocks, nb, other);
    lemma_placed_behind(bs, parent, block.id, after);
    let e = applied(d, (OpM::InsertBlock { parent, after, block }), now).0;
    assert(e.blocks == placed(bs, parent, block.id, after).0);
    assert(parent != block.id);
    assert(block_of(e.blocks, block.id) == block_of(bs, block.id));
    assert(block_of(e.blocks, other) == block_of(bs, other));
}

/// A moved block hangs under its new parent, stands where it was to stand, and
/// keeps its content and its children.
pub proof fn law_moved_block_hangs(
    d: DocumentM,
    id: Seq<char>,
    new_parent: Seq<char>,
    after: Option<Seq<char>>,
    now: Timestamp,
)
    requires
        valid(d),
        applied(d, (OpM::MoveBlock { id, new_parent, after }), now).1 is Ok,
    ensures
        ({
            let e = applied(d, (OpM::MoveBlock { id, new_parent, after }), now).0;
            &&& block_of(d.blocks, id) is Some
            &&& block_of(e.blocks, id) == Some(
                BlockM { parent: Some(new_parent), ..block_of(d.blocks, id)->0 },
            )
            &&& stands_behind(kids(e.blocks, new_parent), after, id)
        }),
{
    let bs = d.blocks;
    lemma_of(bs, id);
    lemma_of(bs, new_parent);
    let ii = block_at(bs, id)->0;
    let ip = lemma_detached(bs, d.root, id);
    let list = without(bs[ip].children, id);
    let free = detached(bs, id);
    lemma_with_children(bs, ip, list, id);
    let two = reparented(bs, id, new_parent);
    law_tree_grounded(bs, d.root, id);
    let n = depth(bs, id);
    assert(bounded(bs, id, n));
    assert(new_parent != id) by {
        assert(under(bs, id, id, n));
    }
    // A block is no child of its own, so taking it out leaves its children.
    assert(ip != ii) by {
        if ip == ii {
            let rank = choose|rank: spec_fn(Seq<char>) -> nat| ranked(bs, rank);
            assert(parent_ok(bs, d.root, bs[ii]));
            assert(kids(bs, bs[ip].id).contains(id));
            let k = choose|k: int| 0 <= k < bs[ip].children.len() && bs[ip].children[k] == id;
            assert(rank(bs[ip].children[k]) < rank(bs[ip].id));
        }
    }
    assert(free[ii] == bs[ii]);
    assert(two == free.update(ii, BlockM { parent: Some(new_parent), ..bs[ii] }));
    lemma_same_places(bs, two, id);
    lemma_placed_behind(two, new_parent, id, after);
    let e = applied(d, (OpM::MoveBlock { id, new_parent, after }), now).0;
    assert(e.blocks == placed(two, new_parent, id, after).0);
    assert(block_of(e.blocks, id) == block_of(two, id));
}

/// An update merges the patch into one block and counts its version; no other
/// block changes.
pub proof fn law_updated_block(d: DocumentM, id: Seq<char>, patch: Json, now: Timestamp, other: Seq<char>)
    requires
        applied(d, (OpM::UpdateBlock { id, patch }), now).1 is Ok,
        other != id,
    ensures
        ({
            let e = applied(d, (OpM::UpdateBlock { id, patch }), now).0;
            &&& block_of(d.blocks, id) matches Some(b) && block_of(e.blocks, id) == Some(
                bumped(BlockM { content: merged(b.content, patch), ..b }, now),
            )
            &&& block_of(e.blocks, other) == block_of(d.blocks, other)
        }),
{
    let e = applied(d, (OpM::UpdateBlock { id, patch }), now).0;
    lemma_of(d.blocks, id);
    lemma_of(d.blocks, other);
    lemma_same_places(d.blocks, e.blocks, id);
    lemma_same_places(d.blocks, e.blocks, other);
    lemma_of(e.blocks, id);
    lemma_of(e.blocks, other);
}

/// A refused operation does not count as a version.
pub proof fn law_refused_keeps_version(d: DocumentM, op: OpM, now: Timestamp)
    requires
        applied(d, op, now).1 is Err,
    ensures
        applied(d, op, now).0.version == d.version,
{
}

/// A deletion removes exactly the blocks that hang under the deleted one.
pub proof fn law_delete_removes_subtree(d: DocumentM, id: Seq<char>, now: Timestamp, x: Seq<char>)
    requires
        valid(d),
        applied(d, (OpM::DeleteBlock { id }), now).1 is Ok,
    ensures
        block_of(applied(d, (OpM::DeleteBlock { id }), now).0.blocks, x) is Some <==> block_of(
            d.blocks,
            x,
        ) is Some && !hangs_under(d.blocks, x, id),
{
    let bs = d.blocks;
    lemma_of(bs, id);
    law_tree_grounded(bs, d.root, id);
    let n = depth(bs, id);
    let gone = ids_of(subtree(bs, id));
    let p = not_among(gone);
    let ip = lemma_detached(bs, d.root, id);
    let free = detached(bs, id);
    let out = keep(free, p);
    lemma_preorder_under(bs, x, id, n);
    lemma_keep_contains(free, p);
    lemma_with_children(bs, ip, without(bs[ip].children, id), x);
    lemma_of(free, x);
    lemma_of(out, x);
    lemma_of(bs, x);
    if block_at(out, x) is Some {
        let j = block_at(out, x)->0;
        assert(out.contains(out[j]));
        let i = choose|i: int| 0 <= i < free.len() && free[i] == out[j];
        assert(p(free[i]));
        assert(free[i].id == x);
    }
    if block_at(free, x) is Some && !gone.contains(x) {
        let i = block_at(free, x)->0;
        assert(p(free[i]));
        assert(free.contains(free[i]));
        assert(out.contains(free[i]));
        let j = choose|j: int| 0 <= j < out.len() && out[j] == free[i];
        assert(out[j].id == x);
    }
}

} // verus!
