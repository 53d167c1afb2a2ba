//! What the operations on a page do to its blocks.

use vstd::prelude::*;

use crate::error::{WikiError, WikiErrorM};
use crate::ids::BlockId;
use crate::json::{member, Json, JsonValue};
use crate::page::block::{
    block_at, block_of, bounded, depth, grounded, hangs_on, hangs_under, hangs_within, has_id, kids,
    preorder, preorders, rooted, subtree, under, Block, BlockM, CustomBlockM, CustomBlockType,
};
use crate::page::doc::{
    law_status_round_trip, status_name, Document, DocumentM, DocumentStatus, Op, OpM,
};
use crate::page::reach::{lemma_bounded_mono, lemma_within_mono};
use crate::page::space::{
    adopted, applied, batch, can_apply, changed, listed, meta_patched, not_among, released, replayed, with_deleted,
    with_inserted, with_moved, WikiSpace,
};
use crate::seqs::{
    first_index, index_in, is_not, keep, law_keep_filters, law_without, lemma_first_index,
    lemma_first_index_is, lemma_index_in, lemma_keep_all, lemma_keep_contains, without,
};
use crate::text::decimal;
use crate::time::Timestamp;

verus! {

/// The block at `i` is the structured block of the given identity: the first
/// one that has it.
pub open spec fn structured_at(bs: Seq<BlockM>, i: int, id: Seq<char>) -> bool {
    &&& 0 <= i < bs.len()
    &&& bs[i] is Custom
    &&& bs[i]->Custom_0.id == id
    &&& forall|j: int| 0 <= j < i ==> (#[trigger] bs[j]).id() != id
}

/// In `new` the block at `i` differs from that in `old` in its list of children
/// alone.
pub open spec fn relisted(old: BlockM, new: BlockM) -> bool {
    &&& old is Custom
    &&& new is Custom
    &&& new->Custom_0 == CustomBlockM { children: new->Custom_0.children, ..old->Custom_0 }
}

proof fn lemma_structured(bs: Seq<BlockM>, i: int, id: Seq<char>)
    requires
        structured_at(bs, i, id),
    ensures
        block_at(bs, id) == Some(i),
{
    lemma_first_index_is(bs, has_id(id), i);
}

/// The place behind a child in a list, with the new child put there.
proof fn lemma_listed(ids: Seq<Seq<char>>, after: Seq<char>, id: Seq<char>) -> (k: int)
    requires
        ids.contains(after),
    ensures
        0 <= k < ids.len(),
        !ids.take(k).contains(after),
        ({
            let new = listed(ids, Some(after), id);
            &&& new.len() == ids.len() + 1
            &&& new[k] == after
            &&& new[k + 1] == id
            &&& new.remove(k + 1) == ids
        }),
{
    law_without(ids, after);
    lemma_index_in(ids, after);
    let k = index_in(ids, after)->0;
    let new = listed(ids, Some(after), id);
    assert(new.remove(k + 1) =~= ids);
    k
}

/// An inserted block that names a child `after` of its structured parent stands
/// directly behind that child; the other children keep their order, and every
/// other block stays as it is.
pub proof fn law_inserted_behind(
    d: DocumentM,
    after: Seq<char>,
    block: BlockM,
    now: Timestamp,
    i: int,
    p: Seq<char>,
) -> (k: int)
    requires
        block.parent() == Some(p),
        structured_at(d.blocks, i, p),
        d.blocks[i]->Custom_0.children.contains(after),
    ensures
        ({
            let (e, r) = applied(d, OpM::InsertBlock { after: Some(after), block }, now);
            let had = d.blocks[i]->Custom_0.children;
            let got = e.blocks[i]->Custom_0.children;
            &&& r is Ok
            &&& e.blocks.len() == d.blocks.len() + 1
            &&& e.blocks.last() == block
            &&& relisted(d.blocks[i], e.blocks[i])
            &&& forall|j: int|
                0 <= j < d.blocks.len() && j != i ==> #[trigger] e.blocks[j] == d.blocks[j]
            &&& 0 <= k < had.len()
            &&& got.len() == had.len() + 1
            &&& got[k] == after
            &&& got[k + 1] == block.id()
            &&& got.remove(k + 1) == had
            &&& !had.take(k).contains(after)
        }),
{
    lemma_structured(d.blocks, i, p);
    lemma_listed(d.blocks[i]->Custom_0.children, after, block.id())
}

/// An inserted block that names no child of its structured parent stands behind
/// all children; one without such a parent is in nobody's list.
pub proof fn law_inserted_last(
    d: DocumentM,
    after: Option<Seq<char>>,
    block: BlockM,
    now: Timestamp,
    i: int,
    p: Seq<char>,
)
    requires
        after matches Some(a) ==> structured_at(d.blocks, i, p)
            ==> !d.blocks[i]->Custom_0.children.contains(a),
    ensures
        ({
            let (e, r) = applied(d, OpM::InsertBlock { after, block }, now);
            &&& r is Ok
            &&& block.parent() == Some(p) && structured_at(d.blocks, i, p) ==> {
                &&& e.blocks.len() == d.blocks.len() + 1
                &&& e.blocks.last() == block
                &&& relisted(d.blocks[i], e.blocks[i])
                &&& e.blocks[i]->Custom_0.children == d.blocks[i]->Custom_0.children.push(
                    block.id(),
                )
                &&& forall|j: int|
                    0 <= j < d.blocks.len() && j != i ==> #[trigger] e.blocks[j] == d.blocks[j]
            }
            &&& block.parent() is None || block.parent() == Some(p) && (forall|j: int|
                0 <= j < d.blocks.len() ==> (#[trigger] d.blocks[j]).id() != p) ==> e.blocks
                == d.blocks.push(block)
        }),
{
    if block.parent() == Some(p) {
        if structured_at(d.blocks, i, p) {
            lemma_structured(d.blocks, i, p);
            if let Some(a) = after {
                lemma_index_in(d.blocks[i]->Custom_0.children, a);
            }
        } else if forall|j: int| 0 <= j < d.blocks.len() ==> (#[trigger] d.blocks[j]).id() != p {
            lemma_first_index(d.blocks, has_id(p));
        }
    }
}

proof fn lemma_others(ids: Seq<Seq<char>>, id: Seq<char>)
    ensures
        without(ids, id) == ids.filter(|x: Seq<char>| x != id),
{
    law_keep_filters(ids, is_not(id));
    assert(is_not(id) =~= (|x: Seq<char>| x != id));
}

/// How a block that hangs on a structured block is moved: first it leaves the
/// list that it was in.
proof fn lemma_free(bs: Seq<BlockM>, id: Seq<char>, m: int, q: int)
    requires
        structured_at(bs, m, id),
        match bs[m]->Custom_0.parent {
            Some(p) => structured_at(bs, q, p) || forall|j: int|
                0 <= j < bs.len() ==> (#[trigger] bs[j]).id() != p,
            None => true,
        },
    ensures
        ({
            let free = released(bs, id);
            &&& free.len() == bs.len()
            &&& forall|j: int|
                0 <= j < bs.len() ==> (#[trigger] free[j]).id() == bs[j].id() && free[j].parent()
                    == bs[j].parent()
            &&& forall|j: int|
                0 <= j < bs.len() ==> #[trigger] free[j] == (if structured_at(bs, q, bs[m]->Custom_0.parent->0)
                    && bs[m]->Custom_0.parent is Some && j == q {
                    bs[j].with_children(without(bs[j].children(), id))
                } else {
                    bs[j]
                })
        }),
{
    lemma_structured(bs, m, id);
    if let Some(p) = bs[m]->Custom_0.parent {
        if structured_at(bs, q, p) {
            lemma_structured(bs, q, p);
        } else {
            lemma_first_index(bs, has_id(p));
        }
    }
}

/// A list of children after a block has moved in it or into it: what it was
/// without the block, with the block directly behind `after` where that is named
/// and there, and else at the end.
pub open spec fn moved_into(
    had: Seq<Seq<char>>,
    got: Seq<Seq<char>>,
    id: Seq<char>,
    after: Option<Seq<char>>,
) -> bool {
    match after {
        Some(a) if had.contains(a) => exists|k: int|
            {
                &&& 0 <= k < had.len()
                &&& got.len() == had.len() + 1
                &&& #[trigger] got[k] == a
                &&& got[k + 1] == id
                &&& got.remove(k + 1) == had
                &&& !had.take(k).contains(a)
            },
        _ => got == had.push(id),
    }
}

proof fn lemma_moved_into(had: Seq<Seq<char>>, after: Option<Seq<char>>, id: Seq<char>)
    ensures
        moved_into(had, listed(had, after, id), id, after),
{
    if let Some(a) = after {
        if had.contains(a) {
            let k = lemma_listed(had, a, id);
            assert(listed(had, after, id)[k] == a);
        } else {
            lemma_index_in(had, a);
        }
    }
}

/// A block that moves within the list of its parent: it leaves its place and
/// stands directly behind the child that is named, or behind all others; they
/// keep their order.
pub proof fn law_moved_in_place(
    d: DocumentM,
    id: Seq<char>,
    after: Option<Seq<char>>,
    now: Timestamp,
    m: int,
    q: int,
    p: Seq<char>,
)
    requires
        structured_at(d.blocks, m, id),
        structured_at(d.blocks, q, p),
        d.blocks[m]->Custom_0.parent == Some(p),
        p != id,
        !hangs_under(d.blocks, p, id),
    ensures
        ({
            let (e, r) = applied(d, OpM::MoveBlock { id, new_parent: p, after }, now);
            &&& r is Ok
            &&& e.blocks.len() == d.blocks.len()
            &&& forall|j: int|
                0 <= j < d.blocks.len() && j != q ==> #[trigger] e.blocks[j] == d.blocks[j]
            &&& relisted(d.blocks[q], e.blocks[q])
            &&& moved_into(
                d.blocks[q]->Custom_0.children.filter(|x: Seq<char>| x != id),
                e.blocks[q]->Custom_0.children,
                id,
                after,
            )
        }),
{
    let bs = d.blocks;
    lemma_free(bs, id, m, q);
    lemma_structured(bs, m, id);
    lemma_structured(bs, q, p);
    let free = released(bs, id);
    let c = bs[q]->Custom_0.children;
    lemma_others(c, id);
    lemma_first_index_is(free, has_id(id), m);
    let hung = free.update(m, free[m].with_parent(Some(p)));
    lemma_first_index_is(hung, has_id(p), q);
    assert(hung[q]->Custom_0.children == without(c, id));
    assert(hung[m] == bs[m]);
    lemma_moved_into(without(c, id), after, id);
    let e = applied(d, OpM::MoveBlock { id, new_parent: p, after }, now).0;
    assert(e.blocks == adopted(hung, p, after, id));
}

/// A block that moves from one structured block to another: it leaves the list
/// of the one, where the others keep their order, and stands in that of the
/// other directly behind the child that is named, or behind all. Then it hangs
/// on its new parent. Every other block stays as it is.
pub proof fn law_moved_across(
    d: DocumentM,
    id: Seq<char>,
    after: Option<Seq<char>>,
    now: Timestamp,
    m: int,
    q: int,
    n: int,
    old_parent: Seq<char>,
    new_parent: Seq<char>,
)
    requires
        structured_at(d.blocks, m, id),
        structured_at(d.blocks, q, old_parent),
        structured_at(d.blocks, n, new_parent),
        d.blocks[m]->Custom_0.parent == Some(old_parent),
        new_parent != old_parent,
        new_parent != id,
        old_parent != id,
        !hangs_under(d.blocks, new_parent, id),
    ensures
        ({
            let (e, r) = applied(d, OpM::MoveBlock { id, new_parent, after }, now);
            &&& r is Ok
            &&& e.blocks.len() == d.blocks.len()
            &&& forall|j: int|
                0 <= j < d.blocks.len() && j != q && j != n && j != m ==> #[trigger] e.blocks[j]
                    == d.blocks[j]
            &&& relisted(d.blocks[q], e.blocks[q])
            &&& e.blocks[q]->Custom_0.children == d.blocks[q]->Custom_0.children.filter(
                |x: Seq<char>| x != id,
            )
            &&& relisted(d.blocks[n], e.blocks[n])
            &&& moved_into(
                d.blocks[n]->Custom_0.children,
                e.blocks[n]->Custom_0.children,
                id,
                after,
            )
            &&& e.blocks[m] == BlockM::Custom(
                CustomBlockM { parent: Some(new_parent), ..d.blocks[m]->Custom_0 },
            )
        }),
{
    let bs = d.blocks;
    lemma_free(bs, id, m, q);
    lemma_structured(bs, m, id);
    lemma_structured(bs, q, old_parent);
    lemma_structured(bs, n, new_parent);
    let free = released(bs, id);
    lemma_others(bs[q]->Custom_0.children, id);
    lemma_first_index_is(free, has_id(id), m);
    let hung = free.update(m, free[m].with_parent(Some(new_parent)));
    lemma_first_index_is(hung, has_id(new_parent), n);
    assert(hung[n] == bs[n]);
    lemma_moved_into(bs[n]->Custom_0.children, after, id);
    let e = applied(d, OpM::MoveBlock { id, new_parent, after }, now).0;
    assert(e.blocks == adopted(hung, new_parent, after, id));
}

/// A block that hung on nothing and moves to a structured block stands in its
/// list directly behind the child that is named, or behind all, and hangs on it.
pub proof fn law_moved_from_top(
    d: DocumentM,
    id: Seq<char>,
    after: Option<Seq<char>>,
    now: Timestamp,
    m: int,
    n: int,
    new_parent: Seq<char>,
)
    requires
        structured_at(d.blocks, m, id),
        structured_at(d.blocks, n, new_parent),
        d.blocks[m]->Custom_0.parent is None,
        new_parent != id,
        !hangs_under(d.blocks, new_parent, id),
    ensures
        ({
            let (e, r) = applied(d, OpM::MoveBlock { id, new_parent, after }, now);
            &&& r is Ok
            &&& e.blocks.len() == d.blocks.len()
            &&& forall|j: int|
                0 <= j < d.blocks.len() && j != n && j != m ==> #[trigger] e.blocks[j]
                    == d.blocks[j]
            &&& relisted(d.blocks[n], e.blocks[n])
            &&& moved_into(
                d.blocks[n]->Custom_0.children,
                e.blocks[n]->Custom_0.children,
                id,
                after,
            )
            &&& e.blocks[m] == BlockM::Custom(
                CustomBlockM { parent: Some(new_parent), ..d.blocks[m]->Custom_0 },
            )
        }),
{
    let bs = d.blocks;
    lemma_structured(bs, m, id);
    lemma_structured(bs, n, new_parent);
    assert(released(bs, id) == bs);
    let hung = bs.update(m, bs[m].with_parent(Some(new_parent)));
    lemma_first_index_is(hung, has_id(new_parent), n);
    assert(hung[n] == bs[n]);
    lemma_moved_into(bs[n]->Custom_0.children, after, id);
    let e = applied(d, OpM::MoveBlock { id, new_parent, after }, now).0;
    assert(e.blocks == adopted(hung, new_parent, after, id));
}

/// A deleted block leaves the list of its structured parent, and goes with all
/// that hangs under it; the blocks that are left keep their order and stay as they
/// are.
pub proof fn law_deleted_under(
    d: DocumentM,
    id: Seq<char>,
    now: Timestamp,
    m: int,
    q: int,
    p: Seq<char>,
)
    requires
        structured_at(d.blocks, m, id),
        structured_at(d.blocks, q, p),
        d.blocks[m]->Custom_0.parent == Some(p),
    ensures
        ({
            let (e, r) = applied(d, OpM::DeleteBlock { block_id: id }, now);
            let less = BlockM::Custom(
                CustomBlockM {
                    children: d.blocks[q]->Custom_0.children.filter(|x: Seq<char>| x != id),
                    ..d.blocks[q]->Custom_0
                },
            );
            &&& r is Ok
            &&& e.blocks == d.blocks.update(q, less).filter(
                |b: BlockM| !subtree(d.blocks, id).contains(b.id()),
            )
        }),
{
    let bs = d.blocks;
    lemma_structured(bs, m, id);
    lemma_structured(bs, q, p);
    let c = bs[q]->Custom_0.children;
    lemma_others(c, id);
    let less = BlockM::Custom(
        CustomBlockM { children: c.filter(|x: Seq<char>| x != id), ..bs[q]->Custom_0 },
    );
    assert(released(bs, id) =~= bs.update(q, less));
    lemma_left(released(bs, id), subtree(bs, id));
}

proof fn lemma_left(bs: Seq<BlockM>, gone: Seq<Seq<char>>)
    ensures
        keep(bs, not_among(gone)) == bs.filter(|b: BlockM| !gone.contains(b.id())),
{
    law_keep_filters(bs, not_among(gone));
    assert(not_among(gone) =~= (|b: BlockM| !gone.contains(b.id())));
}

/// A block that hangs on nothing is deleted with all that hangs under it; the
/// blocks that are left stay as they are.
pub proof fn law_deleted_at_top(d: DocumentM, id: Seq<char>, now: Timestamp, m: int)
    requires
        0 <= m < d.blocks.len(),
        d.blocks[m].id() == id,
        forall|j: int| 0 <= j < m ==> (#[trigger] d.blocks[j]).id() != id,
        d.blocks[m] matches BlockM::Custom(c) ==> c.parent is None,
    ensures
        ({
            let (e, r) = applied(d, OpM::DeleteBlock { block_id: id }, now);
            &&& r is Ok
            &&& e.blocks == d.blocks.filter(|b: BlockM| !subtree(d.blocks, id).contains(b.id()))
        }),
{
    lemma_first_index_is(d.blocks, has_id(id), m);
    lemma_left(d.blocks, subtree(d.blocks, id));
}

proof fn lemma_preorder_same(bs: Seq<BlockM>, id: Seq<char>, n: nat, m: nat)
    requires
        bounded(bs, id, n),
        bounded(bs, id, m),
    ensures
        preorder(bs, id, n) == preorder(bs, id, m),
    decreases n, 0nat,
{
    let ids = kids(bs, id);
    assert forall|i: int| 0 <= i < ids.len() implies bounded(bs, #[trigger] ids[i], (n - 1) as nat)
        && bounded(bs, ids[i], (m - 1) as nat) by {}
    lemma_preorders_same(bs, ids, (n - 1) as nat, (m - 1) as nat);
}

proof fn lemma_preorders_same(bs: Seq<BlockM>, ids: Seq<Seq<char>>, n: nat, m: nat)
    requires
        forall|i: int|
            0 <= i < ids.len() ==> bounded(bs, #[trigger] ids[i], n) && bounded(bs, ids[i], m),
    ensures
        preorders(bs, ids, n) == preorders(bs, ids, m),
    decreases n, ids.len() + 1,
{
    if ids.len() > 0 {
        let front = ids.drop_last();
        assert forall|i: int| 0 <= i < front.len() implies bounded(bs, #[trigger] front[i], n)
            && bounded(bs, front[i], m) by {
            assert(bounded(bs, ids[i], n));
        }
        lemma_preorders_same(bs, front, n, m);
        assert(bounded(bs, ids[ids.len() - 1], n));
        lemma_preorder_same(bs, ids.last(), n, m);
    }
}

/// What hangs under a block by the lists of children: the block itself, and then
/// child by child what hangs under that.
pub proof fn law_subtree(bs: Seq<BlockM>, id: Seq<char>)
    requires
        grounded(bs, id),
    ensures
        subtree(bs, id) == seq![id] + (match block_of(bs, id) {
            Some(b) => b.children(),
            None => Seq::empty(),
        }).map_values(|k: Seq<char>| subtree(bs, k)).flatten_alt(),
{
    let n = depth(bs, id);
    let ids = kids(bs, id);
    assert(bounded(bs, id, n));
    assert(ids == match block_of(bs, id) {
        Some(b) => b.children(),
        None => Seq::empty(),
    });
    lemma_subtrees(bs, ids, (n - 1) as nat);
}

proof fn lemma_subtrees(bs: Seq<BlockM>, ids: Seq<Seq<char>>, n: nat)
    requires
        forall|i: int| 0 <= i < ids.len() ==> bounded(bs, #[trigger] ids[i], n),
    ensures
        preorders(bs, ids, n) == ids.map_values(|k: Seq<char>| subtree(bs, k)).flatten_alt(),
    decreases ids.len(),
{
    let f = |k: Seq<char>| subtree(bs, k);
    if ids.len() > 0 {
        let front = ids.drop_last();
        assert forall|i: int| 0 <= i < front.len() implies bounded(bs, #[trigger] front[i], n) by {
            assert(bounded(bs, ids[i], n));
        }
        lemma_subtrees(bs, front, n);
        assert(bounded(bs, ids[ids.len() - 1], n));
        assert(bounded(bs, ids.last(), depth(bs, ids.last())));
        lemma_preorder_same(bs, ids.last(), n, depth(bs, ids.last()));
        assert(ids.map_values(f).drop_last() =~= front.map_values(f));
    }
}

proof fn lemma_under_same(bs: Seq<BlockM>, node: Seq<char>, top: Seq<char>, n: nat, m: nat)
    requires
        hangs_within(bs, top, n),
        hangs_within(bs, top, m),
    ensures
        under(bs, node, top, n) == under(bs, node, top, m),
    decreases n,
{
    assert forall|i: int|
        0 <= i < bs.len() && (#[trigger] bs[i]).parent() == Some(top) implies under(
        bs,
        node,
        bs[i].id(),
        (n - 1) as nat,
    ) == under(bs, node, bs[i].id(), (m - 1) as nat) by {
        lemma_under_same(bs, node, bs[i].id(), (n - 1) as nat, (m - 1) as nat);
    }
    if node != top && under(bs, node, top, n) {
        let i = choose|i: int|
            0 <= i < bs.len() && (#[trigger] bs[i]).parent() == Some(top) && under(
                bs,
                node,
                bs[i].id(),
                (n - 1) as nat,
            );
        assert(under(bs, node, bs[i].id(), (m - 1) as nat));
    }
    if node != top && under(bs, node, top, m) {
        let i = choose|i: int|
            0 <= i < bs.len() && (#[trigger] bs[i]).parent() == Some(top) && under(
                bs,
                node,
                bs[i].id(),
                (m - 1) as nat,
            );
        assert(under(bs, node, bs[i].id(), (n - 1) as nat));
    }
}

/// A block hangs under another exactly if it is that one, or hangs under a block
/// whose parent is that one.
pub proof fn law_hangs_under(bs: Seq<BlockM>, node: Seq<char>, top: Seq<char>)
    requires
        rooted(bs, top),
    ensures
        hangs_under(bs, node, top) <==> node == top || exists|i: int|
            0 <= i < bs.len() && (#[trigger] bs[i]).parent() == Some(top) && hangs_under(
                bs,
                node,
                bs[i].id(),
            ),
{
    let n = choose|n: nat| hangs_within(bs, top, n);
    assert(hangs_within(bs, top, n));
    assert forall|i: int|
        0 <= i < bs.len() && (#[trigger] bs[i]).parent() == Some(top) implies under(
        bs,
        node,
        bs[i].id(),
        (n - 1) as nat,
    ) == hangs_under(bs, node, bs[i].id()) by {
        let m = choose|m: nat| hangs_within(bs, bs[i].id(), m);
        assert(hangs_within(bs, bs[i].id(), (n - 1) as nat));
        assert(hangs_within(bs, bs[i].id(), m));
        lemma_under_same(bs, node, bs[i].id(), (n - 1) as nat, m);
    }
    if node != top && hangs_under(bs, node, top) {
        let i = choose|i: int|
            0 <= i < bs.len() && (#[trigger] bs[i]).parent() == Some(top) && under(
                bs,
                node,
                bs[i].id(),
                (n - 1) as nat,
            );
        assert(hangs_under(bs, node, bs[i].id()));
    }
    if exists|i: int|
        0 <= i < bs.len() && (#[trigger] bs[i]).parent() == Some(top) && hangs_under(
            bs,
            node,
            bs[i].id(),
        ) {
        let i = choose|i: int|
            0 <= i < bs.len() && (#[trigger] bs[i]).parent() == Some(top) && hangs_under(
                bs,
                node,
                bs[i].id(),
            );
        assert(under(bs, node, bs[i].id(), (n - 1) as nat));
    }
}

/// An update of a structured block puts the members of the patch over those of
/// its data and counts its version up; everything else of it, and every other
/// block, stays. An update of any other block is refused.
pub proof fn law_block_updated(
    d: DocumentM,
    id: Seq<char>,
    patch: Json,
    now: Timestamp,
    i: int,
    key: Seq<char>,
)
    requires
        0 <= i < d.blocks.len(),
        d.blocks[i].id() == id,
        d.blocks[i].version() < u64::MAX,
        forall|j: int| 0 <= j < i ==> (#[trigger] d.blocks[j]).id() != id,
        d.blocks[i] matches BlockM::Custom(c) ==> (c.data matches Json::Object(o)
            ==> crate::json::keys_ascend(o)),
        patch matches Json::Object(p) && crate::json::keys_ascend(p),
    ensures
        ({
            let (e, r) = applied(d, OpM::BlockUpdate { block_id: id, patch }, now);
            match d.blocks[i] {
                BlockM::Custom(c) => {
                    &&& r is Ok
                    &&& e.blocks.len() == d.blocks.len()
                    &&& forall|j: int|
                        0 <= j < d.blocks.len() && j != i ==> #[trigger] e.blocks[j] == d.blocks[j]
                    &&& e.blocks[i] matches BlockM::Custom(n) && {
                        &&& n == (CustomBlockM { data: n.data, version: n.version, ..c })
                        &&& n.version == c.version + 1
                        &&& member(n.data, key) == (if member(patch, key) is Some {
                            member(patch, key)
                        } else {
                            member(c.data, key)
                        })
                    }
                },
                BlockM::Markdown(_) => r matches Err(WikiErrorM::Invalid(_)) && e == d,
            }
        }),
{
    lemma_first_index_is(d.blocks, has_id(id), i);
    if let BlockM::Custom(c) = d.blocks[i] {
        crate::json_law::law_merged(c.data, patch, key);
    }
}

/// An update of a block that is not there is refused, and so is a text that was
/// edited from another version than the page has; a refused operation leaves the
/// page as it is.
pub proof fn law_refused(d: DocumentM, op: OpM, now: Timestamp)
    ensures
        applied(d, op, now).1 is Err ==> applied(d, op, now).0 == d,
        op matches OpM::BlockUpdate { block_id, .. } && (forall|j: int|
            0 <= j < d.blocks.len() ==> (#[trigger] d.blocks[j]).id() != block_id) ==> (applied(
            d,
            op,
            now,
        ).1 matches Err(WikiErrorM::NotFound(_))),
        op matches OpM::TextUpdate { base_version, .. } ==> (applied(d, op, now).1 is Ok
            <==> base_version == d.version),
        op matches OpM::MoveBlock { id, new_parent, .. } ==> (applied(d, op, now).1 is Err
            <==> hangs_under(d.blocks, new_parent, id)),
        op is InsertBlock || op is DeleteBlock || op is UpdateMeta ==> applied(d, op, now).1 is Ok,
{
    if let OpM::BlockUpdate { block_id, .. } = op {
        lemma_first_index(d.blocks, has_id(block_id));
        if forall|j: int| 0 <= j < d.blocks.len() ==> (#[trigger] d.blocks[j]).id() != block_id {
            if let Some(i) = block_at(d.blocks, block_id) {
                assert(d.blocks[i].id() != block_id);
            }
        }
    }
}

/// What every operation leaves as it is: the identity of the page, where it lies,
/// who made it and when, and its source. An operation on blocks leaves the fields
/// of the page too, and one on the fields the blocks.
pub proof fn law_operation_keeps(d: DocumentM, op: OpM, now: Timestamp)
    ensures
        ({
            let e = applied(d, op, now).0;
            &&& applied(d, op, now).1 is Ok ==> e.updated_at == now && e.version == (d.version
                + 1) as u64
            &&& e == (DocumentM {
                title: e.title,
                status: e.status,
                path: e.path,
                tags: e.tags,
                version: e.version,
                updated_at: e.updated_at,
                blocks: e.blocks,
                ..d
            })
            &&& !(op is UpdateMeta) ==> e.title == d.title && e.status == d.status && e.path
                == d.path && e.tags == d.tags
            &&& op is UpdateMeta || op is TextUpdate ==> e.blocks == d.blocks
        }),
{
}

/// An update of the fields sets each that the patch holds in the right form, and
/// leaves the others.
pub proof fn law_meta_updated(d: DocumentM, patch: Json, now: Timestamp, s: DocumentStatus)
    ensures
        ({
            let e = applied(d, OpM::UpdateMeta { patch }, now).0;
            &&& match member(patch, "title"@) {
                Some(Json::Str(t)) => e.title == t,
                _ => e.title == d.title,
            }
            &&& match member(patch, "path"@) {
                Some(Json::Str(t)) => e.path == Some(t),
                _ => e.path == d.path,
            }
            &&& match member(patch, "tags"@) {
                Some(Json::Array(a)) => e.tags == a.filter(|j: Json| j is Str).map_values(
                    |j: Json| j->Str_0,
                ),
                _ => e.tags == d.tags,
            }
            &&& match member(patch, "status"@) {
                Some(Json::Str(t)) => (status_name(s) == t ==> e.status == s) && (status_name(
                    e.status,
                ) == t || e.status == d.status),
                _ => e.status == d.status,
            }
        }),
{
    if let Some(Json::Array(a)) = member(patch, "tags"@) {
        crate::json_law::law_strings_of(a);
    }
    law_status_round_trip(s);
}

/// Counting the version of a block up makes an embedding that was up to date
/// stale; nothing else but the time of the block changes.
pub proof fn law_bumped(b: BlockM, now: Timestamp)
    requires
        b.version() < u64::MAX,
    ensures
        b.bumped(now).version() == b.version() + 1,
        b.embedding() is Some && b.embedding_version() == b.version() ==> !b.stale() && b.bumped(
            now,
        ).stale(),
        b.embedding() is None ==> !b.stale() && !b.bumped(now).stale(),
        b.bumped(now).id() == b.id(),
        b.bumped(now).parent() == b.parent(),
        b.bumped(now).children() == b.children(),
        b.bumped(now).embedding() == b.embedding(),
        b matches BlockM::Markdown(o) ==> (b.bumped(now) matches BlockM::Markdown(n) && n.raw == o.raw
            && n.ast == o.ast && n.meta.updated_at == now && n.meta.created_at == o.meta.created_at),
        b matches BlockM::Custom(o) ==> (b.bumped(now) matches BlockM::Custom(n) && n.raw == o.raw
            && n.data == o.data && n.ty == o.ty && n.meta.updated_at == now && n.meta.created_at
            == o.meta.created_at),
{
}

/// A batch goes operation by operation, each at its time, and stops at the first
/// that is refused.
pub proof fn law_replayed(d: DocumentM, ops: Seq<OpM>, op: OpM, times: Seq<Timestamp>)
    ensures
        replayed(d, seq![], times) == (d, Ok::<(), WikiErrorM>(())),
        replayed(d, ops, times).1 is Ok ==> replayed(d, ops.push(op), times) == applied(
            replayed(d, ops, times).0,
            op,
            times[ops.len() as int],
        ),
        replayed(d, ops, times).1 is Err ==> replayed(d, ops.push(op), times) == replayed(
            d,
            ops,
            times,
        ),
        batch(d, ops, times).1 is Ok ==> batch(d, ops, times).0 == replayed(d, ops, times).0,
{
    assert(ops.push(op).drop_last() =~= ops);
}

/// What a refusal names: a conflict of versions the version that the edit started
/// from and behind it the one that the page has, and a missing block its identity.
pub proof fn law_refusal_names(d: DocumentM, op: OpM, now: Timestamp)
    ensures
        op matches OpM::TextUpdate { base_version, .. } ==> (applied(d, op, now).1 matches Err(e)
            ==> (e matches WikiErrorM::Invalid(s) && ("version conflict: expected "@ + decimal(
            base_version as nat,
        )).is_prefix_of(s) && (" got "@ + decimal(d.version as nat)).is_suffix_of(s))),
        op matches OpM::BlockUpdate { block_id, .. } ==> (applied(d, op, now).1 matches Err(
            WikiErrorM::NotFound(s),
        ) ==> block_id.is_suffix_of(s)),
{
    if let OpM::TextUpdate { base_version, .. } = op {
        let s = "version conflict: expected "@ + decimal(base_version as nat) + " got "@ + decimal(
            d.version as nat,
        );
        assert(("version conflict: expected "@ + decimal(base_version as nat)).is_prefix_of(s));
        assert((" got "@ + decimal(d.version as nat)).is_suffix_of(s));
    }
    if let OpM::BlockUpdate { block_id, .. } = op {
        assert(block_id.is_suffix_of("block "@ + block_id));
    }
}

/// A call that inserts a block behind a child of its structured parent succeeds,
/// puts the identity of the block directly behind that child, keeps the other
/// children in their order, and leaves every other block as it is.
pub proof fn law_insert_call(
    space: &WikiSpace,
    doc: &mut Document,
    op: &Op,
    now: Timestamp,
    r: Result<(), WikiError>,
    after: Seq<char>,
    block: BlockM,
    i: int,
    p: Seq<char>,
) -> (k: int)
    requires
        call_ensures(WikiSpace::apply_op, (space, doc, op, now), r),
        op.deep_view() == (OpM::InsertBlock { after: Some(after), block }),
        block.parent() == Some(p),
        structured_at(old(doc).deep_view().blocks, i, p),
        old(doc).deep_view().blocks[i]->Custom_0.children.contains(after),
    ensures
        r is Ok,
        ({
            let (had, got) = (old(doc).deep_view().blocks, final(doc).deep_view().blocks);
            let (ids, new) = (had[i]->Custom_0.children, got[i]->Custom_0.children);
            &&& got.len() == had.len() + 1
            &&& got.last() == block
            &&& relisted(had[i], got[i])
            &&& forall|j: int| 0 <= j < had.len() && j != i ==> #[trigger] got[j] == had[j]
            &&& 0 <= k < ids.len()
            &&& !ids.take(k).contains(after)
            &&& new.len() == ids.len() + 1
            &&& new[k] == after
            &&& new[k + 1] == block.id()
            &&& new.remove(k + 1) == ids
        }),
{
    law_inserted_behind(old(doc).deep_view(), after, block, now, i, p)
}

/// A structured block as it is made holds its type, data, source and author as
/// given, no children, no embedding and the first version; it hangs on a parent
/// exactly if one is named. A Markdown block holds its tree, kind and source.
pub proof fn law_made_blocks(
    ty: CustomBlockType,
    data: JsonValue,
    raw: &str,
    author: &str,
    parent: BlockId,
    alone: Block,
    below: Block,
    node_type: &str,
    prose: Block,
)
    requires
        call_ensures(Block::custom, (ty, data, raw, author), alone),
        call_ensures(Block::custom_with_parent, (ty, data, raw, author, parent), below),
        call_ensures(Block::markdown, (data, node_type, raw, author), prose),
    ensures
        alone.deep_view().parent() is None,
        below.deep_view().parent() == Some(parent.deep_view()),
        alone.deep_view() matches BlockM::Custom(b) && b.ty == ty.deep_view() && b.data
            == data.deep_view() && b.raw == raw@ && b.meta.created_by == author@ && b.children.len()
            == 0 && b.version == 0 && b.embedding is None,
        below.deep_view() matches BlockM::Custom(b) && b.ty == ty.deep_view() && b.data
            == data.deep_view() && b.raw == raw@ && b.meta.created_by == author@ && b.children.len()
            == 0 && b.version == 0 && b.embedding is None,
        prose.deep_view() matches BlockM::Markdown(b) && b.ast == data.deep_view() && b.node_type
            == node_type@ && b.raw == raw@ && b.meta.created_by == author@ && b.version == 0
            && b.embedding is None,
{
}

/// A child that is added stands behind the children that a structured block has,
/// and a parent that is set is the one it hangs on; nothing else changes. Markdown
/// keeps neither.
pub proof fn law_hung(b: &mut Block, child: BlockId, c: &mut Block, parent: Option<BlockId>)
    requires
        call_ensures(Block::add_child, (b, child), ()),
        call_ensures(Block::set_parent, (c, parent), ()),
    ensures
        old(b).deep_view() is Markdown ==> final(b).deep_view() == old(b).deep_view(),
        old(c).deep_view() is Markdown ==> final(c).deep_view() == old(c).deep_view(),
        old(b).deep_view() is Custom ==> relisted(old(b).deep_view(), final(b).deep_view()) && {
            let (had, got) = (
                old(b).deep_view()->Custom_0.children,
                final(b).deep_view()->Custom_0.children,
            );
            had.is_prefix_of(got) && got.len() == had.len() + 1 && got.last() == child.deep_view()
        },
        old(c).deep_view() is Custom ==> final(c).deep_view() == BlockM::Custom(
            CustomBlockM { parent: parent.deep_view(), ..old(c).deep_view()->Custom_0 },
        ),
{
}

/// The children of a block are exactly the blocks that name it as their parent, in
/// their order.
pub proof fn law_children_call(d: &Document, parent: &BlockId, r: Vec<&Block>)
    requires
        call_ensures(Document::children_of, (d, parent), r),
    ensures
        ({
            let kids = d.deep_view().blocks.filter(
                |b: BlockM| b.parent() == Some(parent.deep_view()),
            );
            &&& r@.len() == kids.len()
            &&& forall|i: int| 0 <= i < r@.len() ==> (#[trigger] r@[i]).deep_view() == kids[i]
        }),
{
    let p = parent.deep_view();
    law_keep_filters(d.deep_view().blocks, hangs_on(p));
    assert(hangs_on(p) =~= (|b: BlockM| b.parent() == Some(p)));
}

} // verus!
