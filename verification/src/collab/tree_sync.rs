//! Documents as replicated trees.

use vstd::prelude::*;

use crate::collab::crdt::{sync_outcome, SyncError, SyncErrorM};
use crate::ids::BlockId;
use crate::json::{Json, JsonValue};
use crate::tree::block::{Block, BlockM};
use crate::tree::doc::{Op, OpM};

verus! {

broadcast use vstd::std_specs::vec::group_vec_axioms;

/// What a replicated tree is told. A node without parent hangs at the top.
#[derive(Debug, PartialEq)]
pub enum CrdtOp {
    Insert { id: BlockId, parent: Option<BlockId>, after: Option<BlockId>, block: Block },
    Update { id: BlockId, patch: JsonValue },
    Delete { id: BlockId },
    Move { id: BlockId, new_parent: Option<BlockId>, after: Option<BlockId> },
}

/// What a `CrdtOp` holds.
#[verifier::ext_equal]
pub enum CrdtOpM {
    Insert { id: Seq<char>, parent: Option<Seq<char>>, after: Option<Seq<char>>, block: BlockM },
    Update { id: Seq<char>, patch: Json },
    Delete { id: Seq<char> },
    Move { id: Seq<char>, new_parent: Option<Seq<char>>, after: Option<Seq<char>> },
}

impl DeepView for CrdtOp {
    type V = CrdtOpM;

    open spec fn deep_view(&self) -> CrdtOpM {
        match self {
            CrdtOp::Insert { id, parent, after, block } => CrdtOpM::Insert {
                id: id.deep_view(),
                parent: parent.deep_view(),
                after: after.deep_view(),
                block: block.deep_view(),
            },
            CrdtOp::Update { id, patch } => CrdtOpM::Update {
                id: id.deep_view(),
                patch: patch.deep_view(),
            },
            CrdtOp::Delete { id } => CrdtOpM::Delete { id: id.deep_view() },
            CrdtOp::Move { id, new_parent, after } => CrdtOpM::Move {
                id: id.deep_view(),
                new_parent: new_parent.deep_view(),
                after: after.deep_view(),
            },
        }
    }
}

impl Clone for CrdtOp {
    fn clone(&self) -> (r: Self)
        ensures
            r.deep_view() == self.deep_view(),
    {
        match self {
            CrdtOp::Insert { id, parent, after, block } => CrdtOp::Insert {
                id: id.clone(),
                parent: parent.clone(),
                after: after.clone(),
                block: block.clone(),
            },
            CrdtOp::Update { id, patch } => CrdtOp::Update { id: id.clone(), patch: patch.clone() },
            CrdtOp::Delete { id } => CrdtOp::Delete { id: id.clone() },
            CrdtOp::Move { id, new_parent, after } => CrdtOp::Move {
                id: id.clone(),
                new_parent: new_parent.clone(),
                after: after.clone(),
            },
        }
    }
}

/// What hangs under the root of a document hangs at the top of the tree.
pub open spec fn node_parent(parent: Seq<char>, root: Seq<char>) -> Option<Seq<char>> {
    if parent == root {
        None
    } else {
        Some(parent)
    }
}

/// What a tree is told of an operation: nothing of a change to the document's
/// own fields.
pub open spec fn translated(op: OpM, root: Seq<char>) -> Option<CrdtOpM> {
    match op {
        OpM::InsertBlock { parent, after, block } => Some(
            CrdtOpM::Insert { id: block.id, parent: node_parent(parent, root), after, block },
        ),
        OpM::UpdateBlock { id, patch } => Some(CrdtOpM::Update { id, patch }),
        OpM::DeleteBlock { id } => Some(CrdtOpM::Delete { id }),
        OpM::MoveBlock { id, new_parent, after } => Some(
            CrdtOpM::Move { id, new_parent: node_parent(new_parent, root), after },
        ),
        OpM::UpdateDocMeta { .. } => None,
    }
}

/// What a tree is told of a batch.
pub open spec fn all_translated(ops: Seq<OpM>, root: Seq<char>) -> Seq<CrdtOpM>
    decreases ops.len(),
{
    if ops.len() == 0 {
        seq![]
    } else {
        let front = all_translated(ops.drop_last(), root);
        match translated(ops.last(), root) {
            Some(t) => front.push(t),
            None => front,
        }
    }
}

/// What a tree is told of a batch, and how many operations it is not told of.
#[derive(Debug, PartialEq)]
pub struct CrdtBatch {
    pub ops: Vec<CrdtOp>,
    pub skipped: usize,
}

/// What a `CrdtBatch` holds.
#[verifier::ext_equal]
pub struct CrdtBatchM {
    pub ops: Seq<CrdtOpM>,
    pub skipped: usize,
}

impl DeepView for CrdtBatch {
    type V = CrdtBatchM;

    open spec fn deep_view(&self) -> CrdtBatchM {
        CrdtBatchM {
            ops: self.ops.deep_view(),
            skipped: self.skipped,
        }
    }
}

impl Clone for CrdtBatch {
    fn clone(&self) -> (r: Self)
        ensures
            r.deep_view() == self.deep_view(),
    {
        CrdtBatch {
            ops: self.ops.clone(),
            skipped: self.skipped,
        }
    }
}

fn parent_node(parent: &BlockId, root: &BlockId) -> (r: Option<BlockId>)
    ensures
        r.deep_view() == node_parent(parent.deep_view(), root.deep_view()),
{
    if parent.same(root) {
        None
    } else {
        Some(parent.clone())
    }
}

/// What a tree is told of an operation.
pub fn translate_op(op: &Op, root: &BlockId) -> (r: Result<Option<CrdtOp>, SyncError>)
    ensures
        sync_outcome(r) == Ok::<Option<CrdtOpM>, SyncErrorM>(
            translated(op.deep_view(), root.deep_view()),
        ),
{
    let t = match op {
        Op::InsertBlock { parent, after, block } => Some(
            CrdtOp::Insert {
                id: block.id.clone(),
                parent: parent_node(parent, root),
                after: after.clone(),
                block: block.clone(),
            },
        ),
        Op::UpdateBlock { id, patch } => Some(
            CrdtOp::Update { id: id.clone(), patch: patch.clone() },
        ),
        Op::DeleteBlock { id } => Some(CrdtOp::Delete { id: id.clone() }),
        Op::MoveBlock { id, new_parent, after } => Some(
            CrdtOp::Move {
                id: id.clone(),
                new_parent: parent_node(new_parent, root),
                after: after.clone(),
            },
        ),
        Op::UpdateDocMeta { .. } => None,
    };
    Ok(t)
}

/// What a tree is told of a batch, and how many operations it is not told of.
pub fn translate_ops(ops: &Vec<Op>, root: &BlockId) -> (r: Result<CrdtBatch, SyncError>)
    ensures
        sync_outcome(r) == Ok::<CrdtBatchM, SyncErrorM>(
            batch_of(ops.deep_view(), root.deep_view()),
        ),
{
    let ghost all = ops.deep_view();
    let ghost top = root.deep_view();
    let mut out: Vec<CrdtOp> = Vec::new();
    let mut skipped: usize = 0;
    let mut i: usize = 0;
    assert(out.deep_view() =~= all_translated(all.take(0), top));
    while i < ops.len()
        invariant
            i <= ops.len(),
            all == ops.deep_view(),
            top == root.deep_view(),
            out.deep_view() == all_translated(all.take(i as int), top),
            skipped + out@.len() == i,
        decreases ops.len() - i,
    {
        assert(all.take(i + 1).drop_last() =~= all.take(i as int));
        assert(all.take(i + 1).last() == ops@[i as int].deep_view());
        let ghost done = out.deep_view();
        match translate_op(&ops[i], root) {
            Ok(Some(t)) => {
                out.push(t);
                assert(out.deep_view() =~= done.push(t.deep_view()));
            },
            Ok(None) => {
                skipped = skipped + 1;
            },
            Err(e) => {
                return Err(e);
            },
        }
        i = i + 1;
    }
    assert(all.take(i as int) =~= all);
    assert(out.deep_view().len() == out@.len());
    Ok(CrdtBatch { ops: out, skipped })
}

/// What a tree is told of a batch, with the number of operations that it is
/// not told of.
pub open spec fn batch_of(ops: Seq<OpM>, root: Seq<char>) -> CrdtBatchM {
    let told = all_translated(ops, root);
    CrdtBatchM { ops: told, skipped: (ops.len() - told.len()) as usize }
}

/// A document that is kept in step through a replicated tree.
#[derive(Debug, PartialEq)]
pub struct CollabDoc {
    pub peer_id: u64,
    pub root: BlockId,
}

/// What a `CollabDoc` holds.
#[verifier::ext_equal]
pub struct CollabDocM {
    pub peer_id: u64,
    pub root: Seq<char>,
}

impl DeepView for CollabDoc {
    type V = CollabDocM;

    open spec fn deep_view(&self) -> CollabDocM {
        CollabDocM {
            peer_id: self.peer_id,
            root: self.root.deep_view(),
        }
    }
}

impl Clone for CollabDoc {
    fn clone(&self) -> (r: Self)
        ensures
            r.deep_view() == self.deep_view(),
    {
        CollabDoc {
            peer_id: self.peer_id,
            root: self.root.clone(),
        }
    }
}

impl CollabDoc {
    /// A document with its root block, and what the tree is told of it first.
    pub fn new(peer_id: u64, root: Block) -> (r: (CollabDoc, CrdtOp))
        ensures
            r.0.deep_view() == (CollabDocM { peer_id, root: root.deep_view().id }),
            r.1.deep_view() == (CrdtOpM::Insert {
                id: root.deep_view().id,
                parent: None,
                after: None,
                block: root.deep_view(),
            }),
    {
        let id = root.id.clone();
        (
            CollabDoc { peer_id, root: root.id.clone() },
            CrdtOp::Insert { id, parent: None, after: None, block: root },
        )
    }

    /// What the tree is told of a batch.
    pub fn apply_ops(&self, ops: &Vec<Op>) -> (r: Result<CrdtBatch, SyncError>)
        ensures
            sync_outcome(r) == Ok::<CrdtBatchM, SyncErrorM>(
                batch_of(ops.deep_view(), self.deep_view().root),
            ),
    {
        translate_ops(ops, &self.root)
    }
}

/// Every operation of a batch is either told to the tree or counted as
/// skipped; those that are told keep their order.
pub proof fn law_batch_complete(ops: Seq<OpM>, root: Seq<char>)
    ensures
        all_translated(ops, root).len() <= ops.len(),
        forall|i: int|
            0 <= i < ops.len() && translated(#[trigger] ops[i], root) is Some
                ==> all_translated(ops, root).contains(translated(ops[i], root)->0),
        (forall|i: int|
            0 <= i < ops.len() ==> translated(#[trigger] ops[i], root) is Some)
            ==> all_translated(ops, root).len() == ops.len(),
    decreases ops.len(),
{
    if ops.len() > 0 {
        let front = ops.drop_last();
        law_batch_complete(front, root);
        let told = all_translated(front, root);
        assert forall|i: int|
            0 <= i < ops.len() && translated(#[trigger] ops[i], root) is Some implies
            all_translated(ops, root).contains(translated(ops[i], root)->0) by {
            let t = translated(ops[i], root)->0;
            if i < front.len() {
                assert(front[i] == ops[i]);
                let k = choose|k: int| 0 <= k < told.len() && told[k] == t;
                assert(all_translated(ops, root)[k] == t);
            } else {
                assert(all_translated(ops, root)[told.len() as int] == t);
            }
        }
        if forall|i: int| 0 <= i < ops.len() ==> translated(#[trigger] ops[i], root) is Some {
            assert forall|i: int| 0 <= i < front.len() implies translated(
                #[trigger] front[i],
                root,
            ) is Some by {
                assert(front[i] == ops[i]);
            }
        }
    }
}

} // verus!
