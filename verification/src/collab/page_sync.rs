//! Pages as replicated trees.

use vstd::prelude::*;

use crate::collab::crdt::{sync_outcome, SyncError, SyncErrorM};
use crate::ids::BlockId;
use crate::json::{Json, JsonValue};
use crate::page::block::{Block, BlockM};
use crate::page::doc::{
    body_of, content_name, status_name, texts_of, Document, DocumentM, Op, OpM,
};
use crate::page::law::{
    lemma_content_line, lemma_line, lemma_lines_add, lemma_parts, lemma_status_line, one_line,
};
use crate::text::trim_start;

verus! {

broadcast use vstd::std_specs::vec::group_vec_axioms;

/// What a replicated tree is told. A node without parent hangs at the top.
#[derive(Debug, PartialEq)]
pub enum CrdtOp {
    Insert { id: BlockId, parent: Option<BlockId>, after: Option<BlockId>, block: Block },
    Update { id: BlockId, patch: JsonValue },
    Delete { id: BlockId },
    Move { id: BlockId, new_parent: Option<BlockId>, after: Option<BlockId> },
}

/// What a `CrdtOp` holds.
#[verifier::ext_equal]
pub enum CrdtOpM {
    Insert { id: Seq<char>, parent: Option<Seq<char>>, after: Option<Seq<char>>, block: BlockM },
    Update { id: Seq<char>, patch: Json },
    Delete { id: Seq<char> },
    Move { id: Seq<char>, new_parent: Option<Seq<char>>, after: Option<Seq<char>> },
}

impl DeepView for CrdtOp {
    type V = CrdtOpM;

    open spec fn deep_view(&self) -> CrdtOpM {
        match self {
            CrdtOp::Insert { id, parent, after, block } => CrdtOpM::Insert {
                id: id.deep_view(),
                parent: parent.deep_view(),
                after: after.deep_view(),
                block: block.deep_view(),
            },
            CrdtOp::Update { id, patch } => CrdtOpM::Update {
                id: id.deep_view(),
                patch: patch.deep_view(),
            },
            CrdtOp::Delete { id } => CrdtOpM::Delete { id: id.deep_view() },
            CrdtOp::Move { id, new_parent, after } => CrdtOpM::Move {
                id: id.deep_view(),
                new_parent: new_parent.deep_view(),
                after: after.deep_view(),
            },
        }
    }
}

impl Clone for CrdtOp {
    fn clone(&self) -> (r: Self)
        ensures
            r.deep_view() == self.deep_view(),
    {
        match self {
            CrdtOp::Insert { id, parent, after, block } => CrdtOp::Insert {
                id: id.clone(),
                parent: parent.clone(),
                after: after.clone(),
                block: block.clone(),
            },
            CrdtOp::Update { id, patch } => CrdtOp::Update { id: id.clone(), patch: patch.clone() },
            CrdtOp::Delete { id } => CrdtOp::Delete { id: id.clone() },
            CrdtOp::Move { id, new_parent, after } => CrdtOp::Move {
                id: id.clone(),
                new_parent: new_parent.clone(),
                after: after.clone(),
            },
        }
    }
}

/// What a tree is told of an operation: nothing of edited text and of the
/// page's own fields.
pub open spec fn translated(op: OpM) -> Option<CrdtOpM> {
    match op {
        OpM::TextUpdate { .. } => None,
        OpM::UpdateMeta { .. } => None,
        OpM::BlockUpdate { block_id, patch } => Some(CrdtOpM::Update { id: block_id, patch }),
        OpM::InsertBlock { after, block } => Some(
            CrdtOpM::Insert { id: block.id(), parent: block.parent(), after, block },
        ),
        OpM::DeleteBlock { block_id } => Some(CrdtOpM::Delete { id: block_id }),
        OpM::MoveBlock { id, new_parent, after } => Some(
            CrdtOpM::Move { id, new_parent: Some(new_parent), after },
        ),
    }
}

/// What a tree is told of a batch.
pub open spec fn all_translated(ops: Seq<OpM>) -> Seq<CrdtOpM>
    decreases ops.len(),
{
    if ops.len() == 0 {
        seq![]
    } else {
        let front = all_translated(ops.drop_last());
        match translated(ops.last()) {
            Some(t) => front.push(t),
            None => front,
        }
    }
}

/// What a tree is told of a batch, and how many operations it is not told of.
#[derive(Debug, PartialEq)]
pub struct CrdtBatch {
    pub ops: Vec<CrdtOp>,
    pub skipped: usize,
}

/// What a `CrdtBatch` holds.
#[verifier::ext_equal]
pub struct CrdtBatchM {
    pub ops: Seq<CrdtOpM>,
    pub skipped: usize,
}

impl DeepView for CrdtBatch {
    type V = CrdtBatchM;

    open spec fn deep_view(&self) -> CrdtBatchM {
        CrdtBatchM {
            ops: self.ops.deep_view(),
            skipped: self.skipped,
        }
    }
}

impl Clone for CrdtBatch {
    fn clone(&self) -> (r: Self)
        ensures
            r.deep_view() == self.deep_view(),
    {
        CrdtBatch {
            ops: self.ops.clone(),
            skipped: self.skipped,
        }
    }
}

/// What a tree is told of a batch, with the number of operations that it is
/// not told of.
pub open spec fn batch_of(ops: Seq<OpM>) -> CrdtBatchM {
    let told = all_translated(ops);
    CrdtBatchM { ops: told, skipped: (ops.len() - told.len()) as usize }
}

/// What a tree is told of an operation.
pub fn translate_op(op: &Op) -> (r: Result<Option<CrdtOp>, SyncError>)
    ensures
        sync_outcome(r) == Ok::<Option<CrdtOpM>, SyncErrorM>(translated(op.deep_view())),
{
    let t = match op {
        Op::TextUpdate { .. } => None,
        Op::UpdateMeta { .. } => None,
        Op::BlockUpdate { block_id, patch } => Some(
            CrdtOp::Update { id: block_id.clone(), patch: patch.clone() },
        ),
        Op::InsertBlock { after, block } => Some(
            CrdtOp::Insert {
                id: block.id().clone(),
                parent: match block.parent() {
                    Some(p) => Some(p.clone()),
                    None => None,
                },
                after: after.clone(),
                block: block.clone(),
            },
        ),
        Op::DeleteBlock { block_id } => Some(CrdtOp::Delete { id: block_id.clone() }),
        Op::MoveBlock { id, new_parent, after } => Some(
            CrdtOp::Move {
                id: id.clone(),
                new_parent: Some(new_parent.clone()),
                after: after.clone(),
            },
        ),
    };
    Ok(t)
}

/// What a tree is told of a batch, and how many operations it is not told of.
pub fn translate_ops(ops: &Vec<Op>) -> (r: Result<CrdtBatch, SyncError>)
    ensures
        sync_outcome(r) == Ok::<CrdtBatchM, SyncErrorM>(batch_of(ops.deep_view())),
{
    let ghost all = ops.deep_view();
    let mut out: Vec<CrdtOp> = Vec::new();
    let mut skipped: usize = 0;
    let mut i: usize = 0;
    assert(out.deep_view() =~= all_translated(all.take(0)));
    while i < ops.len()
        invariant
            i <= ops.len(),
            all == ops.deep_view(),
            out.deep_view() == all_translated(all.take(i as int)),
            skipped + out@.len() == i,
        decreases ops.len() - i,
    {
        assert(all.take(i + 1).drop_last() =~= all.take(i as int));
        assert(all.take(i + 1).last() == ops@[i as int].deep_view());
        let ghost done = out.deep_view();
        match translate_op(&ops[i]) {
            Ok(Some(t)) => {
                out.push(t);
                assert(out.deep_view() =~= done.push(t.deep_view()));
            },
            Ok(None) => {
                skipped = skipped + 1;
            },
            Err(e) => {
                return Err(e);
            },
        }
        i = i + 1;
    }
    assert(all.take(i as int) =~= all);
    assert(out.deep_view().len() == out@.len());
    Ok(CrdtBatch { ops: out, skipped })
}

/// A page that is kept in step through a replicated tree.
#[derive(Debug, PartialEq)]
pub struct CollabDoc {
    pub peer_id: u64,
    /// The version that was committed last.
    pub committed_version: u64,
}

/// What a `CollabDoc` holds.
#[verifier::ext_equal]
pub struct CollabDocM {
    pub peer_id: u64,
    pub committed_version: u64,
}

impl DeepView for CollabDoc {
    type V = CollabDocM;

    open spec fn deep_view(&self) -> CollabDocM {
        CollabDocM {
            peer_id: self.peer_id,
            committed_version: self.committed_version,
        }
    }
}

impl Clone for CollabDoc {
    fn clone(&self) -> (r: Self)
        ensures
            r.deep_view() == self.deep_view(),
    {
        CollabDoc {
            peer_id: self.peer_id,
            committed_version: self.committed_version,
        }
    }
}

/// What a committed page is: its source, the words of the commit, its version
/// and its author.
#[derive(Debug, PartialEq)]
pub struct FinalizeResult {
    pub new_raw_markdown: String,
    pub commit_message: String,
    pub version: u64,
    pub author: String,
}

/// What a `FinalizeResult` holds.
#[verifier::ext_equal]
pub struct FinalizeResultM {
    pub new_raw_markdown: Seq<char>,
    pub commit_message: Seq<char>,
    pub version: u64,
    pub author: Seq<char>,
}

impl DeepView for FinalizeResult {
    type V = FinalizeResultM;

    open spec fn deep_view(&self) -> FinalizeResultM {
        FinalizeResultM {
            new_raw_markdown: self.new_raw_markdown.deep_view(),
            commit_message: self.commit_message.deep_view(),
            version: self.version,
            author: self.author.deep_view(),
        }
    }
}

impl Clone for FinalizeResult {
    fn clone(&self) -> (r: Self)
        ensures
            r.deep_view() == self.deep_view(),
    {
        FinalizeResult {
            new_raw_markdown: self.new_raw_markdown.clone(),
            commit_message: self.commit_message.clone(),
            version: self.version,
            author: self.author.clone(),
        }
    }
}

/// The source of a page as it is committed.
pub open spec fn committed_text(d: DocumentM) -> Seq<char> {
    "---\ntitle: "@ + d.title + "\ncontent_type: "@ + content_name(d.content_type) + "\nstatus: "@
        + status_name(d.status) + "\nauthor: "@ + d.author + "\n---\n\n"@ + texts_of(d.blocks)
}

impl CollabDoc {
    /// A page of which nothing was committed yet.
    pub fn new(peer_id: u64) -> (r: CollabDoc)
        ensures
            r.deep_view() == (CollabDocM { peer_id, committed_version: 0 }),
    {
        CollabDoc { peer_id, committed_version: 0 }
    }

    pub fn committed_version(&self) -> (r: u64)
        ensures
            r == self.deep_view().committed_version,
    {
        self.committed_version
    }

    /// What the tree is told of a batch.
    pub fn apply_ops(&self, ops: &Vec<Op>) -> (r: Result<CrdtBatch, SyncError>)
        ensures
            sync_outcome(r) == Ok::<CrdtBatchM, SyncErrorM>(batch_of(ops.deep_view())),
    {
        translate_ops(ops)
    }

    /// What the tree is told of a batch that was made on a version: nothing if
    /// a later version was committed already.
    pub fn apply_delta(&self, ops: &Vec<Op>, base_version: u64) -> (r: Result<CrdtBatch, SyncError>)
        ensures
            sync_outcome(r) == delta_outcome(self.deep_view(), ops.deep_view(), base_version),
    {
        if base_version < self.committed_version {
            return Err(
                SyncError::VersionConflict {
                    expected: self.committed_version,
                    actual: base_version,
                },
            );
        }
        self.apply_ops(ops)
    }

    /// Commits a page as it is.
    pub fn finalize(&mut self, doc: &Document, message: &str) -> (r: Result<
        FinalizeResult,
        SyncError,
    >)
        ensures
            final(self).deep_view() == (CollabDocM {
                committed_version: doc.deep_view().version,
                ..old(self).deep_view()
            }),
            sync_outcome(r) == Ok::<FinalizeResultM, SyncErrorM>(
                FinalizeResultM {
                    new_raw_markdown: committed_text(doc.deep_view()),
                    commit_message: message@,
                    version: doc.deep_view().version,
                    author: doc.deep_view().author,
                },
            ),
    {
        let mut md = "---\ntitle: ".to_owned();
        md.push_str(doc.title.as_str());
        md.push_str("\ncontent_type: ");
        md.push_str(doc.content_type.as_str());
        md.push_str("\nstatus: ");
        md.push_str(doc.status.as_str());
        md.push_str("\nauthor: ");
        md.push_str(doc.author.as_str());
        md.push_str("\n---\n\n");
        let ghost head = md@;
        let ghost all = doc.deep_view().blocks;
        let mut i: usize = 0;
        assert(head + texts_of(all.take(0)) =~= head);
        while i < doc.blocks.len()
            invariant
                i <= doc.blocks.len(),
                all == doc.deep_view().blocks,
                md@ == head + texts_of(all.take(i as int)),
            decreases doc.blocks.len() - i,
        {
            assert(all.take(i + 1).drop_last() =~= all.take(i as int));
            assert(all.take(i + 1).last() == doc.blocks@[i as int].deep_view());
            md.push_str(doc.blocks[i].to_diffable_text().as_str());
            assert(md@ =~= head + texts_of(all.take(i + 1)));
            i = i + 1;
        }
        assert(all.take(i as int) =~= all);
        self.committed_version = doc.version;
        Ok(
            FinalizeResult {
                new_raw_markdown: md,
                commit_message: message.to_owned(),
                version: doc.version,
                author: doc.author.clone(),
            },
        )
    }
}

/// What a tree is told of a batch that was made on a version.
pub open spec fn delta_outcome(c: CollabDocM, ops: Seq<OpM>, base_version: u64) -> Result<
    CrdtBatchM,
    SyncErrorM,
> {
    if base_version < c.committed_version {
        Err(
            SyncErrorM::VersionConflict { expected: c.committed_version, actual: base_version },
        )
    } else {
        Ok(batch_of(ops))
    }
}

/// Once a version is committed, batches made on older versions are refused,
/// and batches made on it or a later one are not.
pub proof fn law_commit_refuses_older(c: CollabDocM, d: DocumentM, ops: Seq<OpM>, base: u64)
    ensures
        ({
            let done = CollabDocM { committed_version: d.version, ..c };
            delta_outcome(done, ops, base) is Err <==> base < d.version
        }),
{
}

/// Every operation of a batch is either told to the tree or counted as
/// skipped.
pub proof fn law_batch_complete(ops: Seq<OpM>)
    ensures
        all_translated(ops).len() <= ops.len(),
        forall|i: int|
            0 <= i < ops.len() && translated(#[trigger] ops[i]) is Some
                ==> all_translated(ops).contains(translated(ops[i])->0),
        (forall|i: int| 0 <= i < ops.len() ==> translated(#[trigger] ops[i]) is Some)
            ==> all_translated(ops).len() == ops.len(),
    decreases ops.len(),
{
    if ops.len() > 0 {
        let front = ops.drop_last();
        law_batch_complete(front);
        let told = all_translated(front);
        assert forall|i: int|
            0 <= i < ops.len() && translated(#[trigger] ops[i]) is Some implies all_translated(
            ops,
        ).contains(translated(ops[i])->0) by {
            let t = translated(ops[i])->0;
            if i < front.len() {
                assert(front[i] == ops[i]);
                let k = choose|k: int| 0 <= k < told.len() && told[k] == t;
                assert(all_translated(ops)[k] == t);
            } else {
                assert(all_translated(ops)[told.len() as int] == t);
            }
        }
        if forall|i: int| 0 <= i < ops.len() ==> translated(#[trigger] ops[i]) is Some {
            assert forall|i: int| 0 <= i < front.len() implies translated(
                #[trigger] front[i],
            ) is Some by {
                assert(front[i] == ops[i]);
            }
        }
    }
}

/// Reading the source that a page is committed as gives back the text of its
/// blocks as the body, the white space before it aside.
pub proof fn law_committed_page_read_back(d: DocumentM)
    requires
        one_line(d.title),
        one_line(d.author),
    ensures
        body_of(committed_text(d)) == trim_start(texts_of(d.blocks)),
{
    reveal_strlit("---\ntitle: ");
    reveal_strlit("\ncontent_type: ");
    reveal_strlit("\nstatus: ");
    reveal_strlit("\nauthor: ");
    reveal_strlit("\n---\n\n");
    reveal_strlit("---\n");
    reveal_strlit("---\n\n");
    let end = seq!['\n'];
    assert(end.drop_last() =~= seq![]);
    let title = "---\ntitle: "@.skip(4);
    let kind = "\ncontent_type: "@.skip(1);
    let status = "\nstatus: "@.skip(1);
    let author = "\nauthor: "@.skip(1);
    lemma_line(title, d.title, end);
    lemma_content_line(d.content_type);
    lemma_line(kind, content_name(d.content_type), end);
    lemma_status_line(d.status);
    lemma_line(status, status_name(d.status), end);
    lemma_line(author, d.author, end);
    let a = title + d.title + end;
    let b = kind + content_name(d.content_type) + end;
    let c = status + status_name(d.status) + end;
    let e = author + d.author + end;
    lemma_lines_add(a, b);
    lemma_lines_add(a + b, c);
    lemma_lines_add(a + b + c, e);
    let lines = a + b + c + e;
    assert(lines[0] == 't');
    assert(committed_text(d) =~= "---\n"@ + lines + "---\n\n"@ + texts_of(d.blocks));
    lemma_parts(lines, texts_of(d.blocks));
}

} // verus!
