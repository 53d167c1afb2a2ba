//! What the operations on a document do to its lists of children, when they are
//! refused, and what they leave as it is.

use vstd::prelude::*;

use crate::error::WikiErrorM;
use crate::json::{member, Json};
use crate::seqs::{
    index_in, is_not, keep, law_keep_filters, law_without, lemma_index_in, lemma_keep_all,
    lemma_keep_contains, without,
};
use crate::time::Timestamp;
use crate::tree::block::{bumped, embedding_stale, BlockM, BlockMetaM};
use crate::tree::doc::{
    applied, block_at, block_of, blocks_of, bounded, depth, detached, grounded, hangs_under, ids_of,
    kids, lemma_preorder_stable, lemma_under_stable, new_document, not_among, placed, preorder,
    preorders, reparented, subtree, under, with_children, DocumentM, OpM,
};
use crate::tree::history::{noted, stepped_back, stepped_forth, HistoryM};
use crate::tree::law::{lemma_of, lemma_push_block, lemma_same_places, lemma_with_children};
use crate::tree::doc::can_apply;
use crate::tree::space::{alive, batch_outcome, doomed, index_entry, replayed, touched_by};

verus! {

/// A list of children with a block put among the others: in front of all of them,
/// or directly behind the one that is named. They keep their order.
pub open spec fn put_in(
    others: Seq<Seq<char>>,
    got: Seq<Seq<char>>,
    after: Option<Seq<char>>,
    id: Seq<char>,
) -> bool {
    match after {
        None => got == seq![id] + others,
        Some(a) => exists|k: int|
            {
                &&& 0 <= k < others.len()
                &&& got.len() == others.len() + 1
                &&& #[trigger] got[k] == a
                &&& got[k + 1] == id
                &&& got.remove(k + 1) == others
                &&& !others.take(k).contains(a)
            },
    }
}

/// A block of which nothing but the list of children may have changed.
pub open spec fn same_but_list(old: BlockM, new: BlockM) -> bool {
    new == BlockM { children: new.children, ..old }
}

proof fn lemma_others(ids: Seq<Seq<char>>, id: Seq<char>)
    ensures
        without(ids, id) == ids.filter(|x: Seq<char>| x != id),
        without(without(ids, id), id) == without(ids, id),
        forall|a: Seq<char>| #[trigger]
            without(ids, id).contains(a) <==> ids.contains(a) && a != id,
{
    law_keep_filters(ids, is_not(id));
    assert(is_not(id) =~= (|x: Seq<char>| x != id));
    lemma_keep_contains(ids, is_not(id));
    let w = without(ids, id);
    assert forall|i: int| 0 <= i < w.len() implies is_not(id)(#[trigger] w[i]) by {
        assert(w.contains(w[i]));
    }
    lemma_keep_all(w, is_not(id));
}

/// Placing a child in a list.
proof fn lemma_placing(
    bs: Seq<BlockM>,
    parent: Seq<char>,
    child: Seq<char>,
    after: Option<Seq<char>>,
)
    requires
        block_of(bs, parent) is Some,
    ensures
        placed(bs, parent, child, after).1 is Ok <==> (after matches Some(a) ==> kids(
            bs,
            parent,
        ).contains(a) && a != child),
        placed(bs, parent, child, after).1 is Ok ==> ({
            let cs = placed(bs, parent, child, after).0;
            let i = block_at(bs, parent)->0;
            &&& cs == with_children(bs, i, cs[i].children)
            &&& put_in(without(kids(bs, parent), child), cs[i].children, after, child)
        }),
{
    lemma_of(bs, parent);
    let i = block_at(bs, parent)->0;
    let had = bs[i].children;
    lemma_others(had, child);
    let rest = without(had, child);
    let cs = placed(bs, parent, child, after).0;
    match after {
        None => {
            let got = rest.insert(0, child);
            assert(got =~= seq![child] + rest);
            assert(cs =~= with_children(bs, i, got));
            assert(cs[i].children == got);
            assert(put_in(rest, got, after, child));
        },
        Some(a) => {
            lemma_index_in(rest, a);
            law_without(rest, a);
            if let Some(k) = index_in(rest, a) {
                let got = rest.insert(k + 1, child);
                assert(got.remove(k + 1) =~= rest);
                assert(got[k] == a);
                assert(cs =~= with_children(bs, i, got));
                assert(cs[i].children == got);
            }
        },
    }
}

/// An insertion is accepted exactly if the parent is there, the block is not, and
/// the child that is named, if any, is one of the parent's.
pub proof fn law_insert_accepted(
    d: DocumentM,
    parent: Seq<char>,
    after: Option<Seq<char>>,
    block: BlockM,
    now: Timestamp,
)
    ensures
        applied(d, (OpM::InsertBlock { parent, after, block }), now).1 is Ok <==> block_of(
            d.blocks,
            parent,
        ) is Some && block_of(d.blocks, block.id) is None && (after matches Some(a) ==> kids(
            d.blocks,
            parent,
        ).contains(a) && a != block.id),
        block_of(d.blocks, parent) is None ==> (applied(
            d,
            (OpM::InsertBlock { parent, after, block }),
            now,
        ).1 matches Err(WikiErrorM::NotFound(_))),
{
    lemma_of(d.blocks, parent);
    lemma_of(d.blocks, block.id);
    if block_of(d.blocks, parent) is Some && block_of(d.blocks, block.id) is None {
        let nb = BlockM { parent: Some(parent), ..block };
        lemma_push_block(d.blocks, nb, parent);
        lemma_placing(d.blocks.push(nb), parent, block.id, after);
    }
}

/// An accepted insertion puts the block in front of all children of the parent, or
/// directly behind the one that is named, and the others keep their order; nothing
/// else of the parent changes.
pub proof fn law_inserted_list(
    d: DocumentM,
    parent: Seq<char>,
    after: Option<Seq<char>>,
    block: BlockM,
    now: Timestamp,
)
    requires
        applied(d, (OpM::InsertBlock { parent, after, block }), now).1 is Ok,
    ensures
        ({
            let e = applied(d, (OpM::InsertBlock { parent, after, block }), now).0;
            &&& block_of(d.blocks, parent) is Some
            &&& block_of(e.blocks, parent) is Some
            &&& same_but_list(block_of(d.blocks, parent)->0, block_of(e.blocks, parent)->0)
            &&& put_in(
                block_of(d.blocks, parent)->0.children.filter(|x: Seq<char>| x != block.id),
                block_of(e.blocks, parent)->0.children,
                after,
                block.id,
            )
            &&& e == (DocumentM { version: e.version, blocks: e.blocks, ..d })
            &&& e.blocks.len() == d.blocks.len() + 1
        }),
{
    law_insert_accepted(d, parent, after, block, now);
    let nb = BlockM { parent: Some(parent), ..block };
    let more = d.blocks.push(nb);
    lemma_push_block(d.blocks, nb, parent);
    lemma_placing(more, parent, block.id, after);
    lemma_others(kids(d.blocks, parent), block.id);
    lemma_of(d.blocks, parent);
    lemma_of(more, parent);
    let i = block_at(more, parent)->0;
    let e = applied(d, (OpM::InsertBlock { parent, after, block }), now).0;
    lemma_with_children(more, i, e.blocks[i].children, parent);
    lemma_of(e.blocks, parent);
}

/// What freeing a block and giving it a new parent does to the blocks.
proof fn lemma_reparented(bs: Seq<BlockM>, id: Seq<char>, new_parent: Seq<char>)
    requires
        block_of(bs, id) is Some,
        block_of(bs, id)->0.parent != Some(id),
    ensures
        ({
            let cs = reparented(bs, id, new_parent);
            &&& cs.len() == bs.len()
            &&& forall|i: int| 0 <= i < bs.len() ==> (#[trigger] cs[i]).id == bs[i].id
            &&& forall|x: Seq<char>| #[trigger] block_at(cs, x) == block_at(bs, x)
            &&& block_of(cs, id) == Some(
                BlockM { parent: Some(new_parent), ..block_of(bs, id)->0 },
            )
            &&& forall|x: Seq<char>|
                x != id && block_of(bs, id)->0.parent != Some(x) ==> #[trigger] block_of(cs, x)
                    == block_of(bs, x)
            &&& block_of(bs, id)->0.parent matches Some(p) ==> (block_of(bs, p) matches Some(b)
                ==> block_of(cs, p) == Some(BlockM { children: without(b.children, id), ..b }))
        }),
{
    lemma_of(bs, id);
    let m = block_at(bs, id)->0;
    let free = detached(bs, id);
    let cs = reparented(bs, id, new_parent);
    if let Some(p) = bs[m].parent {
        lemma_of(bs, p);
    }
    assert(forall|i: int| 0 <= i < bs.len() ==> (#[trigger] free[i]).id == bs[i].id);
    lemma_same_places(free, bs, id);
    assert forall|x: Seq<char>| #[trigger] block_at(cs, x) == block_at(bs, x) by {
        lemma_same_places(cs, bs, x);
    }
    assert forall|x: Seq<char>|
        x != id && block_of(bs, id)->0.parent != Some(x) implies #[trigger] block_of(cs, x)
        == block_of(bs, x) by {
        lemma_of(bs, x);
        assert(block_at(cs, x) == block_at(bs, x));
    }
    assert(block_at(cs, id) == block_at(bs, id));
    if let Some(p) = bs[m].parent {
        assert(block_at(cs, p) == block_at(bs, p));
    }
}

/// A move is accepted exactly if it is not of the root, the block and its new
/// parent are there, the new parent does not hang under the block, and the child
/// that is named, if any, is another one of the new parent's.
pub proof fn law_move_accepted(
    d: DocumentM,
    id: Seq<char>,
    new_parent: Seq<char>,
    after: Option<Seq<char>>,
    now: Timestamp,
)
    requires
        block_of(d.blocks, id) matches Some(b) ==> b.parent != Some(id),
    ensures
        applied(d, (OpM::MoveBlock { id, new_parent, after }), now).1 is Ok <==> id != d.root
            && block_of(d.blocks, id) is Some && block_of(d.blocks, new_parent) is Some
            && !hangs_under(d.blocks, new_parent, id) && (after matches Some(a) ==> kids(
            d.blocks,
            new_parent,
        ).contains(a) && a != id),
{
    lemma_of(d.blocks, id);
    lemma_of(d.blocks, new_parent);
    if block_of(d.blocks, id) is Some && block_of(d.blocks, new_parent) is Some {
        lemma_reparented(d.blocks, id, new_parent);
        let cs = reparented(d.blocks, id, new_parent);
        lemma_of(cs, new_parent);
        assert(block_at(cs, new_parent) == block_at(d.blocks, new_parent));
        lemma_placing(cs, new_parent, id, after);
        lemma_others(kids(d.blocks, new_parent), id);
        if new_parent == id {
            assert(hangs_under(d.blocks, new_parent, id));
        } else if block_of(d.blocks, id)->0.parent == Some(new_parent) {
            assert(kids(cs, new_parent) == without(kids(d.blocks, new_parent), id));
            if let Some(a) = after {
                assert(without(kids(d.blocks, new_parent), id).contains(a) <==> kids(
                    d.blocks,
                    new_parent,
                ).contains(a) && a != id);
            }
        } else {
            assert(block_of(cs, new_parent) == block_of(d.blocks, new_parent));
        }
    }
}

/// An accepted move takes the block out of the list of its parent, where the
/// others keep their order, and puts it into that of the new parent, in front of
/// all or directly behind the child that is named; every other block stays as it
/// is.
pub proof fn law_moved_list(
    d: DocumentM,
    id: Seq<char>,
    new_parent: Seq<char>,
    after: Option<Seq<char>>,
    now: Timestamp,
    other: Seq<char>,
)
    requires
        block_of(d.blocks, id) matches Some(b) ==> b.parent != Some(id),
        applied(d, (OpM::MoveBlock { id, new_parent, after }), now).1 is Ok,
    ensures
        ({
            let e = applied(d, (OpM::MoveBlock { id, new_parent, after }), now).0;
            &&& block_of(e.blocks, new_parent) is Some
            &&& same_but_list(block_of(d.blocks, new_parent)->0, block_of(e.blocks, new_parent)->0)
            &&& put_in(
                kids(d.blocks, new_parent).filter(|x: Seq<char>| x != id),
                block_of(e.blocks, new_parent)->0.children,
                after,
                id,
            )
            &&& block_of(e.blocks, id) == Some(
                BlockM { parent: Some(new_parent), ..block_of(d.blocks, id)->0 },
            )
            &&& block_of(d.blocks, id)->0.parent matches Some(p) ==> p != new_parent ==> (block_of(
                d.blocks,
                p,
            ) matches Some(b) ==> block_of(e.blocks, p) == Some(
                BlockM { children: b.children.filter(|x: Seq<char>| x != id), ..b },
            ))
            &&& other != id && other != new_parent && block_of(d.blocks, id)->0.parent != Some(other)
                ==> block_of(e.blocks, other) == block_of(d.blocks, other)
            &&& e == (DocumentM { version: e.version, blocks: e.blocks, ..d })
            &&& e.blocks.len() == d.blocks.len()
        }),
{
    law_move_accepted(d, id, new_parent, after, now);
    lemma_of(d.blocks, id);
    lemma_of(d.blocks, new_parent);
    assert(new_parent != id) by {
        if new_parent == id {
            assert(hangs_under(d.blocks, new_parent, id));
        }
    }
    lemma_reparented(d.blocks, id, new_parent);
    let cs = reparented(d.blocks, id, new_parent);
    lemma_of(cs, new_parent);
    assert(block_at(cs, new_parent) == block_at(d.blocks, new_parent));
    lemma_placing(cs, new_parent, id, after);
    let n = block_at(cs, new_parent)->0;
    let e = applied(d, (OpM::MoveBlock { id, new_parent, after }), now).0;
    let list = e.blocks[n].children;
    assert(e.blocks == with_children(cs, n, list));
    lemma_at_list(cs, n, list, new_parent, new_parent);
    lemma_at_list(cs, n, list, new_parent, id);
    lemma_at_list(cs, n, list, new_parent, other);
    lemma_others(kids(d.blocks, new_parent), id);
    lemma_others(kids(cs, new_parent), id);
    if block_of(d.blocks, id)->0.parent == Some(new_parent) {
        assert(kids(cs, new_parent) == without(kids(d.blocks, new_parent), id));
    } else {
        assert(block_of(cs, new_parent) == block_of(d.blocks, new_parent));
    }
    assert(put_in(without(kids(d.blocks, new_parent), id), list, after, id));
    assert(same_but_list(block_of(d.blocks, new_parent)->0, block_of(e.blocks, new_parent)->0));
    if let Some(p) = block_of(d.blocks, id)->0.parent {
        if p != new_parent {
            lemma_at_list(cs, n, list, new_parent, p);
            if let Some(b) = block_of(d.blocks, p) {
                lemma_others(b.children, id);
            }
        }
    }
}

proof fn lemma_at_list(
    bs: Seq<BlockM>,
    i: int,
    list: Seq<Seq<char>>,
    parent: Seq<char>,
    x: Seq<char>,
)
    requires
        block_at(bs, parent) == Some(i),
    ensures
        x != parent ==> block_of(with_children(bs, i, list), x) == block_of(bs, x),
        block_of(with_children(bs, i, list), parent) == Some(BlockM { children: list, ..bs[i] }),
{
    lemma_of(bs, parent);
    lemma_of(bs, x);
    lemma_with_children(bs, i, list, x);
    lemma_with_children(bs, i, list, parent);
}

/// A deletion is accepted exactly if it is not of the root and the block is
/// there. The block leaves the list of its parent, and goes with all that hangs
/// under it; the blocks that are left keep their order and stay as they are.
pub proof fn law_deleted_list(d: DocumentM, id: Seq<char>, now: Timestamp)
    ensures
        applied(d, (OpM::DeleteBlock { id }), now).1 is Ok <==> id != d.root && block_of(
            d.blocks,
            id,
        ) is Some,
        id != d.root && block_of(d.blocks, id) is Some ==> ({
            let e = applied(d, (OpM::DeleteBlock { id }), now).0;
            let gone = |b: BlockM| !ids_of(subtree(d.blocks, id)).contains(b.id);
            &&& e == (DocumentM { version: e.version, blocks: e.blocks, ..d })
            &&& match block_of(d.blocks, id)->0.parent {
                Some(p) if block_of(d.blocks, p) is Some => exists|i: int|
                    {
                        &&& 0 <= i < d.blocks.len()
                        &&& (#[trigger] d.blocks[i]).id == p
                        &&& Some(d.blocks[i]) == block_of(d.blocks, p)
                        &&& e.blocks == d.blocks.update(
                            i,
                            BlockM {
                                children: d.blocks[i].children.filter(|x: Seq<char>| x != id),
                                ..d.blocks[i]
                            },
                        ).filter(gone)
                    },
                _ => e.blocks == d.blocks.filter(gone),
            }
        }),
{
    lemma_of(d.blocks, id);
    if id != d.root && block_of(d.blocks, id) is Some {
        let ids = ids_of(subtree(d.blocks, id));
        let gone = |b: BlockM| !ids_of(subtree(d.blocks, id)).contains(b.id);
        let left = detached(d.blocks, id);
        law_keep_filters(left, not_among(ids));
        assert(not_among(ids) =~= gone);
        if let Some(p) = block_of(d.blocks, id)->0.parent {
            lemma_of(d.blocks, p);
            if block_of(d.blocks, p) is Some {
                let i = block_at(d.blocks, p)->0;
                lemma_others(d.blocks[i].children, id);
                assert(d.blocks[i].id == p);
            }
        }
    }
}

/// An update is accepted exactly if the block is there; of the block it changes
/// the content, the version and the time, and every member of the content is the
/// patch's where the patch has it.
pub proof fn law_updated_content(
    d: DocumentM,
    id: Seq<char>,
    patch: Json,
    now: Timestamp,
    key: Seq<char>,
)
    requires
        patch matches Json::Object(p) && crate::json::keys_ascend(p),
        block_of(d.blocks, id) matches Some(b) ==> b.version < u64::MAX && (
        b.content matches Json::Object(o) ==> crate::json::keys_ascend(o)),
    ensures
        applied(d, (OpM::UpdateBlock { id, patch }), now).1 is Ok <==> block_of(d.blocks, id) is Some,
        block_of(d.blocks, id) matches Some(b) ==> ({
            let e = applied(d, (OpM::UpdateBlock { id, patch }), now).0;
            &&& block_of(e.blocks, id) matches Some(n) && {
                &&& n == (BlockM {
                    content: n.content,
                    version: n.version,
                    meta: BlockMetaM { updated_at: now, ..b.meta },
                    ..b
                })
                &&& n.version == b.version + 1
                &&& member(n.content, key) == (if member(patch, key) is Some {
                    member(patch, key)
                } else {
                    member(b.content, key)
                })
            }
            &&& e.blocks.len() == d.blocks.len()
            &&& e == (DocumentM { version: e.version, blocks: e.blocks, ..d })
        }),
{
    lemma_of(d.blocks, id);
    if let Some(b) = block_of(d.blocks, id) {
        crate::json_law::law_merged(b.content, patch, key);
        let e = applied(d, (OpM::UpdateBlock { id, patch }), now).0;
        lemma_same_places(e.blocks, d.blocks, id);
    }
}

/// An update of the fields is accepted exactly if it is meant for the document. It
/// sets each field that the patch holds in the right form, and leaves the others and
/// the blocks. An accepted operation counts one version.
pub proof fn law_meta_updated(d: DocumentM, doc_id: Seq<char>, patch: Json, now: Timestamp)
    requires
        d.version < u64::MAX,
    ensures
        applied(d, (OpM::UpdateDocMeta { doc_id, patch }), now).1 is Ok <==> doc_id == d.id,
        doc_id != d.id ==> applied(d, (OpM::UpdateDocMeta { doc_id, patch }), now).0 == d,
        doc_id == d.id ==> ({
            let e = applied(d, (OpM::UpdateDocMeta { doc_id, patch }), now).0;
            &&& e.blocks == d.blocks && e.root == d.root && e.id == d.id && e.space_id == d.space_id
            &&& e.version == d.version + 1
            &&& match member(patch, "title"@) {
                Some(Json::Str(t)) => e.title == t,
                _ => e.title == d.title,
            }
            &&& match member(patch, "icon"@) {
                Some(Json::Str(t)) => e.icon == Some(t),
                _ => e.icon == d.icon,
            }
            &&& match member(patch, "cover"@) {
                Some(Json::Str(t)) => e.cover == Some(t),
                _ => e.cover == d.cover,
            }
            &&& match member(patch, "tags"@) {
                Some(Json::Array(a)) => e.tags == a.filter(|j: Json| j is Str).map_values(
                    |j: Json| j->Str_0,
                ),
                _ => e.tags == d.tags,
            }
        }),
{
    if let Some(Json::Array(a)) = member(patch, "tags"@) {
        crate::json_law::law_strings_of(a);
    }
}

/// An accepted operation counts one version.
pub proof fn law_operation_counts(d: DocumentM, op: OpM, now: Timestamp)
    requires
        d.version < u64::MAX,
    ensures
        applied(d, op, now).1 is Ok ==> applied(d, op, now).0.version == d.version + 1,
        applied(d, op, now).0.id == d.id,
        applied(d, op, now).0.root == d.root,
        applied(d, op, now).0.space_id == d.space_id,
{
}

/// A new document has the title, the root and the space that it is made with, and
/// the root as its only block.
pub proof fn law_new_document(id: Seq<char>, title: Seq<char>, root: BlockM, space: Seq<char>)
    ensures
        ({
            let d = new_document(id, title, root, space);
            &&& d.id == id && d.title == title && d.root == root.id && d.space_id == space
            &&& d.blocks == seq![root] && d.version == 0
            &&& d.tags.len() == 0 && d.icon is None && d.cover is None
        }),
{
}

/// What hangs under a block: the block itself, and then child by child what hangs
/// under that; under a block that is not there, nothing.
pub proof fn law_subtree(bs: Seq<BlockM>, id: Seq<char>)
    requires
        grounded(bs, id),
    ensures
        match block_of(bs, id) {
            Some(b) => subtree(bs, id) == seq![b] + b.children.map_values(
                |k: Seq<char>| subtree(bs, k),
            ).flatten_alt(),
            None => subtree(bs, id).len() == 0,
        },
{
    let n = depth(bs, id);
    assert(bounded(bs, id, n));
    if let Some(b) = block_of(bs, id) {
        lemma_subtrees(bs, b.children, (n - 1) as nat);
    }
}

proof fn lemma_subtrees(bs: Seq<BlockM>, ids: Seq<Seq<char>>, n: nat)
    requires
        forall|i: int| 0 <= i < ids.len() ==> bounded(bs, #[trigger] ids[i], n),
    ensures
        preorders(bs, ids, n) == ids.map_values(|k: Seq<char>| subtree(bs, k)).flatten_alt(),
    decreases ids.len(),
{
    let f = |k: Seq<char>| subtree(bs, k);
    if ids.len() > 0 {
        let front = ids.drop_last();
        assert forall|i: int| 0 <= i < front.len() implies bounded(bs, #[trigger] front[i], n) by {
            assert(bounded(bs, ids[i], n));
        }
        lemma_subtrees(bs, front, n);
        assert(bounded(bs, ids[ids.len() - 1], n));
        assert(bounded(bs, ids.last(), depth(bs, ids.last())));
        lemma_preorder_stable(bs, ids.last(), n, depth(bs, ids.last()));
        assert(ids.map_values(f).drop_last() =~= front.map_values(f));
    }
}

/// A block hangs under another exactly if it is that one, or hangs under one of
/// its children.
pub proof fn law_hangs_under(bs: Seq<BlockM>, node: Seq<char>, top: Seq<char>)
    requires
        grounded(bs, top),
    ensures
        hangs_under(bs, node, top) <==> node == top || exists|i: int|
            0 <= i < kids(bs, top).len() && hangs_under(bs, node, #[trigger] kids(bs, top)[i]),
{
    let n = depth(bs, top);
    let ids = kids(bs, top);
    assert(bounded(bs, top, n));
    assert forall|i: int| 0 <= i < ids.len() implies bounded(bs, #[trigger] ids[i], (n - 1) as nat)
        && bounded(bs, ids[i], depth(bs, ids[i])) by {
        assert(bounded(bs, block_of(bs, top)->0.children[i], (n - 1) as nat));
    }
    if node != top && hangs_under(bs, node, top) {
        let i = choose|i: int|
            0 <= i < ids.len() && under(bs, node, #[trigger] kids(bs, top)[i], (n - 1) as nat);
        assert(bounded(bs, ids[i], (n - 1) as nat));
        lemma_under_stable(bs, node, ids[i], (n - 1) as nat, depth(bs, ids[i]));
        assert(hangs_under(bs, node, kids(bs, top)[i]));
    }
    if exists|i: int| 0 <= i < ids.len() && hangs_under(bs, node, #[trigger] kids(bs, top)[i]) {
        let i = choose|i: int|
            0 <= i < ids.len() && hangs_under(bs, node, #[trigger] kids(bs, top)[i]);
        assert(bounded(bs, ids[i], (n - 1) as nat));
        lemma_under_stable(bs, node, ids[i], depth(bs, ids[i]), (n - 1) as nat);
        assert(under(bs, node, kids(bs, top)[i], (n - 1) as nat));
    }
}

/// Looking blocks up by their identities gives those that are there, in the order
/// of the identities.
pub proof fn law_blocks_of(bs: Seq<BlockM>, ids: Seq<Seq<char>>)
    ensures
        blocks_of(bs, ids) == ids.filter(|id: Seq<char>| block_of(bs, id) is Some).map_values(
            |id: Seq<char>| block_of(bs, id)->0,
        ),
    decreases ids.len(),
{
    reveal(Seq::filter);
    let f = |id: Seq<char>| block_of(bs, id) is Some;
    let g = |id: Seq<char>| block_of(bs, id)->0;
    if ids.len() > 0 {
        law_blocks_of(bs, ids.drop_last());
        if f(ids.last()) {
            assert(ids.filter(f).map_values(g) =~= ids.drop_last().filter(f).map_values(g).push(
                g(ids.last()),
            ));
        }
    }
    assert(blocks_of(bs, ids) =~= ids.filter(f).map_values(g));
}

/// What a batch touches: the blocks that it inserts, updates or moves, in order;
/// a batch of two parts touches what the first does and then what the second does.
pub proof fn law_touched(a: Seq<OpM>, b: Seq<OpM>, op: OpM)
    ensures
        touched_by(a + b) == touched_by(a) + touched_by(b),
        touched_by(seq![op]) == match op {
            OpM::InsertBlock { block, .. } => seq![block.id],
            OpM::UpdateBlock { id, .. } => seq![id],
            OpM::MoveBlock { id, .. } => seq![id],
            _ => Seq::empty(),
        },
    decreases b.len(),
{
    let none: Seq<OpM> = seq![];
    assert(seq![op].drop_last() =~= none);
    assert(touched_by(none) =~= seq![]);
    assert(touched_by(seq![op]) =~= match op {
        OpM::InsertBlock { block, .. } => seq![block.id],
        OpM::UpdateBlock { id, .. } => seq![id],
        OpM::MoveBlock { id, .. } => seq![id],
        _ => Seq::empty(),
    });
    if b.len() > 0 {
        assert((a + b).drop_last() =~= a + b.drop_last());
        law_touched(a, b.drop_last(), op);
        assert(touched_by(a + b) =~= touched_by(a) + touched_by(b));
    } else {
        assert(a + b =~= a);
        assert(touched_by(a + b) =~= touched_by(a) + touched_by(b));
    }
}

/// What a batch removes from the index: for every deletion all that hangs under
/// the block, in order, as the document stands before the batch.
pub proof fn law_doomed(d: DocumentM, ops: Seq<OpM>, op: OpM)
    requires
        op matches OpM::DeleteBlock { id } ==> grounded(d.blocks, id),
    ensures
        doomed(d, ops) matches Some(ids) ==> doomed(d, ops.push(op)) == Some(
            match op {
                OpM::DeleteBlock { id } => ids + ids_of(subtree(d.blocks, id)),
                _ => ids,
            },
        ),
        doomed(d, seq![]) == Some(Seq::<Seq<char>>::empty()),
{
    assert(ops.push(op).drop_last() =~= ops);
}

/// A block is indexed with the text of its content, under the document that it is
/// in; one that is not there is not.
pub proof fn law_index_entry(d: DocumentM, id: Seq<char>)
    ensures
        index_entry(d, id) is Some <==> block_of(d.blocks, id) is Some,
        index_entry(d, id) matches Some(e) ==> e.0 == crate::json::all_text(
            block_of(d.blocks, id)->0.content,
        ) && member(e.1, "doc"@) == Some(Json::Str(d.id)),
{
    if block_of(d.blocks, id) is Some {
        crate::json_law::law_member(Seq::empty(), "doc"@, Json::Str(d.id), Seq::empty());
        assert(Seq::<(Seq<char>, Json)>::empty() + seq![("doc"@, Json::Str(d.id))] + Seq::<
            (Seq<char>, Json),
        >::empty() =~= seq![("doc"@, Json::Str(d.id))]);
    }
}

/// The text that a content is made of is what is read out of it.
pub proof fn law_text_content(s: Seq<char>)
    ensures
        crate::json::all_text(crate::tree::block::text_content(s)) == s,
        member(crate::tree::block::text_content(s), "text"@) == Some(Json::Str(s)),
{
    let none: Seq<Json> = seq![];
    let bare: Seq<(Seq<char>, Json)> = seq![];
    crate::json_law::law_all_text(none, none, bare, bare, "text"@, Json::Str(s));
    crate::json_law::law_member(bare, "text"@, Json::Str(s), bare);
    assert(bare + seq![("text"@, Json::Str(s))] + bare =~= seq![("text"@, Json::Str(s))]);
}

/// Noting a change keeps those noted before: after two changes, two steps back
/// give the document before the second and then the one before the first, and two
/// steps forth from there give them again.
pub proof fn law_history_kept(h: HistoryM, a: DocumentM, b: DocumentM, c: DocumentM)
    ensures
        h.done.is_prefix_of(noted(h, a).done),
        ({
            let two = noted(noted(h, a), b);
            stepped_back(two, c) matches Some((x, h1)) && x == b && (stepped_back(
                h1,
                x,
            ) matches Some((y, h2)) && y == a && h2.done == h.done && (stepped_forth(
                h2,
                y,
            ) matches Some((z, h3)) && z == b && (stepped_forth(h3, z) matches Some((w, h4)) && w
                == c)))
        }),
        h.done.len() == 0 ==> stepped_back(h, a) is None,
        h.undone.len() == 0 ==> stepped_forth(h, a) is None,
{
    let two = noted(noted(h, a), b);
    assert(two.done.drop_last() =~= noted(h, a).done);
    assert(noted(h, a).done.drop_last() =~= h.done);
    let h1 = (stepped_back(two, c)->0).1;
    let h2 = (stepped_back(h1, b)->0).1;
    assert(h2.undone =~= seq![c, b]);
    let h3 = (stepped_forth(h2, a)->0).1;
    assert(h3.undone =~= seq![c]);
}

/// A batch goes operation by operation, and stops at the first that is refused.
pub proof fn law_replayed(d: DocumentM, ops: Seq<OpM>, op: OpM, times: Seq<Timestamp>)
    ensures
        replayed(d, seq![], times) == Some((d, Ok::<(), WikiErrorM>(()))),
        replayed(d, ops, times) matches Some((e, Ok(_))) ==> (can_apply(e, op) ==> replayed(
            d,
            ops.push(op),
            times,
        ) == Some(applied(e, op, times[ops.len() as int]))),
        replayed(d, ops, times) matches Some((e, Err(x))) ==> replayed(d, ops.push(op), times)
            == Some((e, Err::<(), WikiErrorM>(x))),
{
    assert(ops.push(op).drop_last() =~= ops);
}

/// A batch that succeeds gives the document after its last operation, what it
/// removes from the index, and of the blocks that it touches, in order, those that
/// are still there.
pub proof fn law_batch_outcome(d: DocumentM, ops: Seq<OpM>, times: Seq<Timestamp>)
    ensures
        batch_outcome(d, ops, times) matches Some(Ok(b)) ==> replayed(d, ops, times) == Some(
            (b.doc, Ok::<(), WikiErrorM>(())),
        ) && doomed(d, ops) == Some(b.removed) && b.touched == touched_by(ops).filter(
            |id: Seq<char>| block_of(b.doc.blocks, id) is Some,
        ),
        batch_outcome(d, ops, times) matches Some(Err(x)) ==> (replayed(d, ops, times) matches Some(
            (_, Err(y)),
        ) && y == x),
        batch_outcome(d, ops, times) is None <==> doomed(d, ops) is None || replayed(d, ops, times)
            is None,
{
    if let Some(Ok(b)) = batch_outcome(d, ops, times) {
        law_keep_filters(touched_by(ops), alive(b.doc.blocks));
        assert(alive(b.doc.blocks) =~= (|id: Seq<char>| block_of(b.doc.blocks, id) is Some));
    }
}

/// What a refusal names: a missing parent or block its identity, a block that is
/// there already its own, a child that is not among the parent's that child, and a
/// change meant for another document that one first and then this one.
pub proof fn law_refusal_names(d: DocumentM, op: OpM, now: Timestamp)
    ensures
        op matches OpM::InsertBlock { parent, after, block } ==> {
            &&& block_of(d.blocks, parent) is None ==> (applied(d, op, now).1 matches Err(
                WikiErrorM::NotFound(s),
            ) && s == "parent block "@ + parent)
            &&& block_of(d.blocks, parent) is Some && block_of(d.blocks, block.id) is Some ==> (
            applied(d, op, now).1 matches Err(WikiErrorM::Invalid(s)) && ("block "@
                + block.id).is_prefix_of(s))
        },
        op matches OpM::UpdateBlock { id, .. } ==> (applied(d, op, now).1 matches Err(e) ==> (
        e matches WikiErrorM::NotFound(s) && s == "block "@ + id)),
        op matches OpM::DeleteBlock { id } ==> (id == d.root ==> applied(
            d,
            op,
            now,
        ).1 matches Err(WikiErrorM::Invalid(_))) && (id != d.root && block_of(d.blocks, id) is None
            ==> (applied(d, op, now).1 matches Err(WikiErrorM::NotFound(s)) && s == "block "@ + id)),
        op matches OpM::UpdateDocMeta { doc_id, .. } ==> (applied(d, op, now).1 matches Err(e) ==> (
        e matches WikiErrorM::Invalid(s) && ("doc meta op targets "@ + doc_id).is_prefix_of(s) && (
        ", not "@ + d.id).is_suffix_of(s))),
{
    match op {
        OpM::InsertBlock { parent, after, block } => {
            lemma_of(d.blocks, parent);
            lemma_of(d.blocks, block.id);
            assert(parent.is_suffix_of("parent block "@ + parent));
            assert(("block "@ + block.id).is_prefix_of("block "@ + block.id + " already exists"@));
        },
        OpM::UpdateBlock { id, .. } => {
            assert(id.is_suffix_of("block "@ + id));
        },
        OpM::DeleteBlock { id } => {
            lemma_of(d.blocks, id);
            assert(id.is_suffix_of("block "@ + id));
        },
        OpM::UpdateDocMeta { doc_id, .. } => {
            let s = "doc meta op targets "@ + doc_id + ", not "@ + d.id;
            assert(("doc meta op targets "@ + doc_id).is_prefix_of(s));
            assert((", not "@ + d.id).is_suffix_of(s));
        },
        _ => {},
    }
}

/// An embedding is stale exactly if there is one of an earlier version than that of
/// the block; counting the version up makes one that was up to date stale.
pub proof fn law_embedding_stale(b: BlockM, now: Timestamp)
    requires
        b.version < u64::MAX,
    ensures
        b.embedding is None ==> !embedding_stale(b) && !embedding_stale(bumped(b, now)),
        b.embedding is Some && b.embedding_version == b.version ==> !embedding_stale(b)
            && embedding_stale(bumped(b, now)),
        b.embedding is Some && b.embedding_version < b.version ==> embedding_stale(b)
            && embedding_stale(bumped(b, now)),
        b.embedding_version > b.version ==> !embedding_stale(b),
        bumped(b, now).version == b.version + 1,
        bumped(b, now).meta.updated_at == now,
        bumped(b, now) == (BlockM {
            version: bumped(b, now).version,
            meta: bumped(b, now).meta,
            ..b
        }),
{
}

/// What the refusal of a move names: the block that is not there, or else the new
/// parent that is not. The root does not move, and no block moves under itself.
pub proof fn law_move_refusal_names(
    d: DocumentM,
    id: Seq<char>,
    new_parent: Seq<char>,
    after: Option<Seq<char>>,
    now: Timestamp,
)
    ensures
        ({
            let r = applied(d, OpM::MoveBlock { id, new_parent, after }, now).1;
            &&& id == d.root ==> r is Err && r->Err_0 is Invalid
            &&& id != d.root && block_of(d.blocks, id) is None ==> r == Err::<(), WikiErrorM>(
                WikiErrorM::NotFound("block "@ + id),
            )
            &&& id != d.root && block_of(d.blocks, id) is Some && block_of(d.blocks, new_parent)
                is None ==> r == Err::<(), WikiErrorM>(
                WikiErrorM::NotFound("new parent "@ + new_parent),
            )
            &&& id != d.root && block_of(d.blocks, id) is Some && block_of(d.blocks, new_parent)
                is Some && hangs_under(d.blocks, new_parent, id) ==> r is Err && r->Err_0 is Invalid
        }),
{
    lemma_of(d.blocks, id);
    lemma_of(d.blocks, new_parent);
}

} // verus!
