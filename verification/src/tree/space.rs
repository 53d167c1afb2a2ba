//! What a space does with a document: replaying a batch of operations and
//! keeping its indexes in step.

use vstd::prelude::*;

use crate::error::{outcome, WikiError, WikiErrorM};
use crate::ids::{BlockId, DocId};
use crate::json::{all_text, Json, JsonValue};
use crate::seqs::keep;
use crate::text::cat;
use crate::time::Timestamp;
use crate::tree::block::BlockM;
use crate::tree::doc::{
    applied, block_of, bounded, can_apply, depth, grounded, ids_of, lemma_depth_bound, subtree,
    Document, DocumentM, Op, OpM,
};
use crate::tree::law::{law_apply_keeps_tree, law_tree_grounded, valid};

verus! {

broadcast use vstd::std_specs::vec::group_vec_axioms;

/// A batch applied to a document, up to the first operation that is refused;
/// nothing where an operation cannot be applied.
pub open spec fn replayed(d: DocumentM, ops: Seq<OpM>, times: Seq<Timestamp>) -> Option<
    (DocumentM, Result<(), WikiErrorM>),
>
    decreases ops.len(),
{
    if ops.len() == 0 {
        Some((d, Ok(())))
    } else {
        match replayed(d, ops.drop_last(), times) {
            None => None,
            Some((e, Err(x))) => Some((e, Err(x))),
            Some((e, Ok(_))) => if can_apply(e, ops.last()) {
                Some(applied(e, ops.last(), times[ops.len() - 1]))
            } else {
                None
            },
        }
    }
}

/// The blocks that the deletions of a batch take away, as the document stands
/// before the batch; nothing where a walk does not end.
pub open spec fn doomed(d: DocumentM, ops: Seq<OpM>) -> Option<Seq<Seq<char>>>
    decreases ops.len(),
{
    if ops.len() == 0 {
        Some(seq![])
    } else {
        match doomed(d, ops.drop_last()) {
            None => None,
            Some(ids) => match ops.last() {
                OpM::DeleteBlock { id } => if grounded(d.blocks, id) {
                    Some(ids + ids_of(subtree(d.blocks, id)))
                } else {
                    None
                },
                _ => Some(ids),
            },
        }
    }
}

/// The blocks that a batch inserts, changes or moves.
pub open spec fn touched_by(ops: Seq<OpM>) -> Seq<Seq<char>>
    decreases ops.len(),
{
    if ops.len() == 0 {
        seq![]
    } else {
        let front = touched_by(ops.drop_last());
        match ops.last() {
            OpM::InsertBlock { block, .. } => front.push(block.id),
            OpM::UpdateBlock { id, .. } => front.push(id),
            OpM::MoveBlock { id, .. } => front.push(id),
            _ => front,
        }
    }
}

/// Whether an identity belongs to a block.
pub open spec fn alive(bs: Seq<BlockM>) -> spec_fn(Seq<char>) -> bool {
    |id: Seq<char>| block_of(bs, id) is Some
}

/// What is to be stored and indexed after a batch.
#[derive(Debug, PartialEq)]
pub struct Batch {
    /// The document as it is to be saved.
    pub doc: Document,
    /// The blocks that leave the text index.
    pub removed: Vec<BlockId>,
    /// The blocks that are indexed anew.
    pub touched: Vec<BlockId>,
}

/// What a `Batch` holds.
#[verifier::ext_equal]
pub struct BatchM {
    pub doc: DocumentM,
    pub removed: Seq<Seq<char>>,
    pub touched: Seq<Seq<char>>,
}

impl DeepView for Batch {
    type V = BatchM;

    open spec fn deep_view(&self) -> BatchM {
        BatchM {
            doc: self.doc.deep_view(),
            removed: self.removed.deep_view(),
            touched: self.touched.deep_view(),
        }
    }
}

impl Clone for Batch {
    fn clone(&self) -> (r: Self)
        ensures
            r.deep_view() == self.deep_view(),
    {
        Batch {
            doc: self.doc.clone(),
            removed: self.removed.clone(),
            touched: self.touched.clone(),
        }
    }
}

/// The outcome of a batch: an error of the first refused operation and nothing
/// to store, or the document with the blocks that leave and enter the index.
pub open spec fn batch_outcome(d: DocumentM, ops: Seq<OpM>, times: Seq<Timestamp>) -> Option<
    Result<BatchM, WikiErrorM>,
> {
    match (doomed(d, ops), replayed(d, ops, times)) {
        (Some(_), Some((_, Err(x)))) => Some(Err(x)),
        (Some(removed), Some((e, Ok(_)))) => Some(
            Ok(BatchM { doc: e, removed, touched: keep(touched_by(ops), alive(e.blocks)) }),
        ),
        _ => None,
    }
}

/// Whether no path downwards from `id` is longer than `n` blocks.
fn within(doc: &Document, id: &BlockId, n: usize) -> (r: bool)
    ensures
        r == bounded(doc.deep_view().blocks, id.deep_view(), n as nat),
    decreases n,
{
    match doc.block(id) {
        None => true,
        Some(b) => {
            if n == 0 {
                return false;
            }
            let ghost ids = b.deep_view().children;
            let mut i: usize = 0;
            while i < b.children.len()
                invariant
                    i <= b.children.len(),
                    n > 0,
                    ids == b.children.deep_view(),
                    block_of(doc.deep_view().blocks, id.deep_view()) == Some(b.deep_view()),
                    forall|k: int|
                        0 <= k < i ==> bounded(
                            doc.deep_view().blocks,
                            #[trigger] ids[k],
                            (n - 1) as nat,
                        ),
                decreases b.children.len() - i,
            {
                assert(ids[i as int] == b.children@[i as int].deep_view());
                if !within(doc, &b.children[i], n - 1) {
                    assert(!bounded(
                        doc.deep_view().blocks,
                        b.deep_view().children[i as int],
                        (n - 1) as nat,
                    ));
                    return false;
                }
                i = i + 1;
            }
            true
        },
    }
}

impl Document {
    /// Whether the operation can be applied.
    pub fn fits(&self, op: &Op) -> (r: bool)
        ensures
            r == can_apply(self.deep_view(), op.deep_view()),
    {
        if self.version == u64::MAX {
            return false;
        }
        match op {
            Op::UpdateBlock { id, .. } => match self.block(id) {
                Some(b) => b.version < u64::MAX,
                None => true,
            },
            Op::DeleteBlock { id } => self.is_grounded(id),
            Op::MoveBlock { id, .. } => self.is_grounded(id),
            _ => true,
        }
    }

    /// Whether the walk from `id` comes to an end.
    pub fn is_grounded(&self, id: &BlockId) -> (r: bool)
        ensures
            r == grounded(self.deep_view().blocks, id.deep_view()),
    {
        assert(self.deep_view().blocks.len() == self.blocks.len());
        proof {
            let bs = self.deep_view().blocks;
            if grounded(bs, id.deep_view()) {
                lemma_depth_bound(bs, id.deep_view(), depth(bs, id.deep_view()));
            }
        }
        within(self, id, self.blocks.len())
    }
}

fn doomed_ids(doc: &Document, ops: &Vec<Op>) -> (r: Option<Vec<BlockId>>)
    ensures
        r.deep_view() == doomed(doc.deep_view(), ops.deep_view()),
{
    let ghost d = doc.deep_view();
    let ghost all = ops.deep_view();
    let mut r: Vec<BlockId> = Vec::new();
    let mut i: usize = 0;
    assert(r.deep_view() =~= seq![]);
    while i < ops.len()
        invariant
            i <= ops.len(),
            d == doc.deep_view(),
            all == ops.deep_view(),
            doomed(d, all.take(i as int)) == Some(r.deep_view()),
        decreases ops.len() - i,
    {
        assert(all.take(i + 1).drop_last() =~= all.take(i as int));
        assert(all.take(i + 1).last() == ops@[i as int].deep_view());
        if let Op::DeleteBlock { id } = &ops[i] {
            if !doc.is_grounded(id) {
                proof {
                    lemma_doomed_none(d, all, i + 1);
                }
                return None;
            }
            let ghost done = r.deep_view();
            let mut more = doc.descendants(id);
            let ghost add = more.deep_view();
            let ghost rv = r@;
            let ghost mv = more@;
            r.append(&mut more);
            assert(r.deep_view() =~= done + add);
        }
        i = i + 1;
    }
    assert(all.take(i as int) =~= all);
    Some(r)
}

proof fn lemma_doomed_none(d: DocumentM, ops: Seq<OpM>, n: int)
    requires
        0 <= n <= ops.len(),
        doomed(d, ops.take(n)) is None,
    ensures
        doomed(d, ops) is None,
    decreases ops.len() - n,
{
    if n < ops.len() {
        assert(ops.take(n + 1).drop_last() =~= ops.take(n));
        lemma_doomed_none(d, ops, n + 1);
    } else {
        assert(ops.take(n) =~= ops);
    }
}

proof fn lemma_replayed_stuck(d: DocumentM, ops: Seq<OpM>, times: Seq<Timestamp>, n: int)
    requires
        0 <= n <= ops.len(),
        !(replayed(d, ops.take(n), times) matches Some((_, Ok(_)))),
    ensures
        replayed(d, ops, times) == replayed(d, ops.take(n), times),
    decreases ops.len() - n,
{
    if n < ops.len() {
        assert(ops.take(n + 1).drop_last() =~= ops.take(n));
        lemma_replayed_stuck(d, ops, times, n + 1);
    } else {
        assert(ops.take(n) =~= ops);
    }
}

fn touched_ids(ops: &Vec<Op>) -> (r: Vec<BlockId>)
    ensures
        r.deep_view() == touched_by(ops.deep_view()),
{
    let ghost all = ops.deep_view();
    let mut r: Vec<BlockId> = Vec::new();
    let mut i: usize = 0;
    assert(r.deep_view() =~= seq![]);
    while i < ops.len()
        invariant
            i <= ops.len(),
            all == ops.deep_view(),
            r.deep_view() == touched_by(all.take(i as int)),
        decreases ops.len() - i,
    {
        assert(all.take(i + 1).drop_last() =~= all.take(i as int));
        assert(all.take(i + 1).last() == ops@[i as int].deep_view());
        let ghost done = r.deep_view();
        match &ops[i] {
            Op::InsertBlock { block, .. } => {
                r.push(block.id.clone());
                assert(r.deep_view() =~= done.push(block.id.deep_view()));
            },
            Op::UpdateBlock { id, .. } => {
                r.push(id.clone());
                assert(r.deep_view() =~= done.push(id.deep_view()));
            },
            Op::MoveBlock { id, .. } => {
                r.push(id.clone());
                assert(r.deep_view() =~= done.push(id.deep_view()));
            },
            _ => {},
        }
        i = i + 1;
    }
    assert(all.take(i as int) =~= all);
    r
}

fn alive_ids(doc: &Document, ids: &Vec<BlockId>) -> (r: Vec<BlockId>)
    ensures
        r.deep_view() == keep(ids.deep_view(), alive(doc.deep_view().blocks)),
{
    let ghost all = ids.deep_view();
    let ghost p = alive(doc.deep_view().blocks);
    let mut r: Vec<BlockId> = Vec::new();
    let mut i: usize = 0;
    assert(r.deep_view() =~= keep(all.take(0), p));
    while i < ids.len()
        invariant
            i <= ids.len(),
            all == ids.deep_view(),
            p == alive(doc.deep_view().blocks),
            r.deep_view() == keep(all.take(i as int), p),
        decreases ids.len() - i,
    {
        proof {
            crate::seqs::lemma_keep_step(all, p, i as int);
        }
        let ghost done = r.deep_view();
        assert(all[i as int] == ids@[i as int].deep_view());
        if doc.block(&ids[i]).is_some() {
            r.push(ids[i].clone());
            assert(r.deep_view() =~= done.push(all[i as int]));
        }
        i = i + 1;
    }
    assert(all.take(i as int) =~= all);
    r
}

/// Replays a batch on a document, each operation at its time. The first
/// refused operation refuses the batch; there is then nothing to store.
pub fn apply_ops_at(doc: &Document, ops: &Vec<Op>, times: &Vec<Timestamp>) -> (r: Option<
    Result<Batch, WikiError>,
>)
    requires
        times@.len() >= ops@.len(),
    ensures
        match r {
            Some(o) => batch_outcome(doc.deep_view(), ops.deep_view(), times@) == Some(outcome(o)),
            None => batch_outcome(doc.deep_view(), ops.deep_view(), times@) is None,
        },
{
    let ghost d = doc.deep_view();
    let ghost all = ops.deep_view();
    let removed = match doomed_ids(doc, ops) {
        Some(ids) => ids,
        None => {
            return None;
        },
    };
    let mut out = doc.clone();
    let mut i: usize = 0;
    while i < ops.len()
        invariant
            i <= ops.len(),
            times@.len() >= ops@.len(),
            d == doc.deep_view(),
            all == ops.deep_view(),
            doomed(d, all) == Some(removed.deep_view()),
            replayed(d, all.take(i as int), times@) == Some(
                (out.deep_view(), Ok::<(), WikiErrorM>(())),
            ),
        decreases ops.len() - i,
    {
        assert(all.take(i + 1).drop_last() =~= all.take(i as int));
        assert(all.take(i + 1).last() == ops@[i as int].deep_view());
        if !out.fits(&ops[i]) {
            proof {
                lemma_replayed_stuck(d, all, times@, i + 1);
            }
            return None;
        }
        match out.apply_at(ops[i].clone(), times[i]) {
            Ok(_) => {},
            Err(e) => {
                proof {
                    lemma_replayed_stuck(d, all, times@, i + 1);
                }
                return Some(Err(e));
            },
        }
        i = i + 1;
    }
    assert(all.take(i as int) =~= all);
    let touched = alive_ids(&out, &touched_ids(ops));
    Some(Ok(Batch { doc: out, removed, touched }))
}

/// Replays a batch on a document now.
pub fn apply_ops(doc: &Document, ops: &Vec<Op>) -> (r: Option<Result<Batch, WikiError>>)
    ensures
        exists|times: Seq<Timestamp>|
            times.len() == ops@.len() && match r {
                Some(o) => #[trigger] batch_outcome(doc.deep_view(), ops.deep_view(), times)
                    == Some(outcome(o)),
                None => batch_outcome(doc.deep_view(), ops.deep_view(), times) is None,
            },
{
    let mut times: Vec<Timestamp> = Vec::new();
    while times.len() < ops.len()
        invariant
            times@.len() <= ops@.len(),
        decreases ops.len() - times.len(),
    {
        times.push(Timestamp::now());
    }
    apply_ops_at(doc, ops, &times)
}

/// The error of an unknown document.
pub fn unknown_doc(id: &DocId) -> (r: WikiError)
    ensures
        r.deep_view() == WikiErrorM::NotFound("doc "@ + id.deep_view()),
{
    WikiError::NotFound(cat("doc ", id.as_str()))
}

/// What the text index holds of a block: its text, and a record of the
/// document that it belongs to.
pub open spec fn index_entry(d: DocumentM, id: Seq<char>) -> Option<(Seq<char>, Json)> {
    match block_of(d.blocks, id) {
        Some(b) => Some((all_text(b.content), Json::Object(seq![("doc"@, Json::Str(d.id))]))),
        None => None,
    }
}

/// What the text index is to hold of a block.
pub fn reindex_block(doc: &Document, id: &BlockId) -> (r: Option<(String, JsonValue)>)
    ensures
        r.deep_view() == index_entry(doc.deep_view(), id.deep_view()),
{
    match doc.block(id) {
        Some(b) => {
            let mut entries: Vec<(String, JsonValue)> = Vec::new();
            entries.push(("doc".to_owned(), JsonValue::text(doc.id.as_str())));
            proof {
                crate::json::lemma_object_model(entries);
                assert(entries.deep_view() =~= seq![("doc"@, Json::Str(doc.id.deep_view()))]);
            }
            Some((b.content.as_plain_text(), JsonValue::Object(entries)))
        },
        None => None,
    }
}

// ---- Laws ------------------------------------------------------------------

/// What a batch inserts comes without children.
pub open spec fn inserts_leaves(ops: Seq<OpM>) -> bool {
    forall|i: int| 0 <= i < ops.len() ==> leaf_insert(#[trigger] ops[i])
}

pub open spec fn leaf_insert(op: OpM) -> bool {
    op matches OpM::InsertBlock { block, .. } ==> block.children.len() == 0
}

/// No version is within `n` of its end.
pub open spec fn room(d: DocumentM, n: nat) -> bool {
    d.version + n <= u64::MAX && forall|i: int|
        0 <= i < d.blocks.len() ==> (#[trigger] d.blocks[i]).version + n <= u64::MAX
}

/// In a tree every operation can be applied, as long as versions can count.
pub proof fn law_tree_fits(d: DocumentM, op: OpM)
    requires
        valid(d),
        room(d, 1),
    ensures
        can_apply(d, op),
{
    match op {
        OpM::UpdateBlock { id, .. } => {
            crate::tree::law::lemma_of(d.blocks, id);
        },
        OpM::DeleteBlock { id } => {
            law_tree_grounded(d.blocks, d.root, id);
        },
        OpM::MoveBlock { id, .. } => {
            law_tree_grounded(d.blocks, d.root, id);
        },
        _ => {},
    }
}

/// An accepted batch keeps the tree.
pub proof fn law_batch_keeps_tree(d: DocumentM, ops: Seq<OpM>, times: Seq<Timestamp>)
    requires
        valid(d),
        inserts_leaves(ops),
    ensures
        replayed(d, ops, times) matches Some((e, Ok(_))) ==> valid(e),
    decreases ops.len(),
{
    if ops.len() > 0 {
        let front = ops.drop_last();
        assert forall|i: int| 0 <= i < front.len() implies leaf_insert(#[trigger] front[i]) by {
            assert(front[i] == ops[i]);
        }
        law_batch_keeps_tree(d, front, times);
        assert(leaf_insert(ops[ops.len() - 1]));
        match replayed(d, front, times) {
            Some((e, Ok(_))) => {
                if applied(e, ops.last(), times[ops.len() - 1]).1 is Ok {
                    law_apply_keeps_tree(e, ops.last(), times[ops.len() - 1]);
                }
            },
            _ => {},
        }
    }
}

/// A batch is all or nothing: one refused operation and there is no document
/// to store.
pub proof fn law_batch_atomic(d: DocumentM, ops: Seq<OpM>, times: Seq<Timestamp>, n: int)
    requires
        0 <= n <= ops.len(),
        replayed(d, ops.take(n), times) matches Some((_, Err(_))),
        doomed(d, ops) is Some,
    ensures
        batch_outcome(d, ops, times) matches Some(Err(_)),
{
    lemma_replayed_stuck(d, ops, times, n);
}

} // verus!
