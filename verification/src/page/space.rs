//! A space of pages: making pages and replaying operations on them.

use vstd::prelude::*;

use crate::error::{outcome, WikiError, WikiErrorM};
use crate::ids::{find_id, BlockId};
use crate::json::{member, merged, strings_of, text_of, Json, JsonValue};
use crate::page::block::{
    block_at, block_of, descendants, find_block, grounded, hangs_under, hangs_within,
    is_descendant_of, position, rooted, subtree, under, Block, BlockM, CustomBlockM,
};
use crate::page::doc::{
    blocks_read, body_of, content_named, fresh_page, front_of, hand_made, status_named, ContentType,
    Document, DocumentM, DocumentStatus, Frontmatter, Op, OpM, SpaceId,
};
use crate::page::reach::{is_grounded, is_rooted, lemma_within_mono};
use crate::seqs::{index_in, keep, without};
use crate::text::{cat, cat3, decimal, show_u64};
use crate::time::Timestamp;

verus! {

broadcast use vstd::std_specs::vec::group_vec_axioms;

/// A list of children with one more: behind `after` where that is among them,
/// else at the end.
pub open spec fn listed(ids: Seq<Seq<char>>, after: Option<Seq<char>>, id: Seq<char>) -> Seq<
    Seq<char>,
> {
    match after {
        Some(a) => match index_in(ids, a) {
            Some(k) => ids.insert(k + 1, id),
            None => ids.push(id),
        },
        None => ids.push(id),
    }
}

/// The blocks with `id` listed under `parent`, if that is a structured block.
pub open spec fn adopted(
    bs: Seq<BlockM>,
    parent: Seq<char>,
    after: Option<Seq<char>>,
    id: Seq<char>,
) -> Seq<BlockM> {
    match block_at(bs, parent) {
        Some(i) => bs.update(i, bs[i].with_children(listed(bs[i].children(), after, id))),
        None => bs,
    }
}

/// The blocks with `id` taken out of the list of its parent.
pub open spec fn released(bs: Seq<BlockM>, id: Seq<char>) -> Seq<BlockM> {
    match block_of(bs, id) {
        Some(b) => match b.parent() {
            Some(p) => match block_at(bs, p) {
                Some(i) => bs.update(i, bs[i].with_children(without(bs[i].children(), id))),
                None => bs,
            },
            None => bs,
        },
        None => bs,
    }
}

/// Whether the identity of a block is none of the given ones.
pub open spec fn not_among(ids: Seq<Seq<char>>) -> spec_fn(BlockM) -> bool {
    |b: BlockM| !ids.contains(b.id())
}

/// The blocks after an insertion.
pub open spec fn with_inserted(bs: Seq<BlockM>, after: Option<Seq<char>>, block: BlockM) -> Seq<
    BlockM,
> {
    (match block.parent() {
        Some(p) => adopted(bs, p, after, block.id()),
        None => bs,
    }).push(block)
}

/// The blocks after a deletion.
pub open spec fn with_deleted(bs: Seq<BlockM>, id: Seq<char>) -> Seq<BlockM> {
    keep(released(bs, id), not_among(subtree(bs, id)))
}

/// The blocks after a move.
pub open spec fn with_moved(
    bs: Seq<BlockM>,
    id: Seq<char>,
    new_parent: Seq<char>,
    after: Option<Seq<char>>,
) -> Seq<BlockM> {
    let free = released(bs, id);
    let hung = match block_at(free, id) {
        Some(i) => free.update(i, free[i].with_parent(Some(new_parent))),
        None => free,
    };
    adopted(hung, new_parent, after, id)
}

/// The page with title, tags, status and path taken from a patch, each as far
/// as the patch holds one.
pub open spec fn meta_patched(d: DocumentM, patch: Json) -> DocumentM {
    DocumentM {
        title: match text_of(member(patch, "title"@)) {
            Some(t) => t,
            None => d.title,
        },
        tags: match member(patch, "tags"@) {
            Some(Json::Array(a)) => strings_of(a),
            _ => d.tags,
        },
        status: match text_of(member(patch, "status"@)) {
            Some(s) => match status_named(s) {
                Some(t) => t,
                None => d.status,
            },
            None => d.status,
        },
        path: match text_of(member(patch, "path"@)) {
            Some(p) => Some(p),
            None => d.path,
        },
        ..d
    }
}

/// The page after an operation, version and time not yet set, or why the
/// operation is refused.
pub open spec fn changed(d: DocumentM, op: OpM) -> Result<DocumentM, WikiErrorM> {
    match op {
        OpM::TextUpdate { base_version, .. } => if d.version != base_version {
            Err(
                WikiErrorM::Invalid(
                    "version conflict: expected "@ + decimal(base_version as nat) + " got "@
                        + decimal(d.version as nat),
                ),
            )
        } else {
            Ok(d)
        },
        OpM::BlockUpdate { block_id, patch } => match block_at(d.blocks, block_id) {
            None => Err(WikiErrorM::NotFound("block "@ + block_id)),
            Some(i) => match d.blocks[i] {
                BlockM::Custom(c) => Ok(
                    DocumentM {
                        blocks: d.blocks.update(
                            i,
                            BlockM::Custom(
                                CustomBlockM {
                                    data: merged(c.data, patch),
                                    version: (c.version + 1) as u64,
                                    ..c
                                },
                            ),
                        ),
                        ..d
                    },
                ),
                BlockM::Markdown(_) => Err(
                    WikiErrorM::Invalid("BlockUpdate only for custom blocks"@),
                ),
            },
        },
        OpM::InsertBlock { after, block } => Ok(
            DocumentM { blocks: with_inserted(d.blocks, after, block), ..d },
        ),
        OpM::DeleteBlock { block_id } => Ok(
            DocumentM { blocks: with_deleted(d.blocks, block_id), ..d },
        ),
        OpM::MoveBlock { id, new_parent, after } => if hangs_under(d.blocks, new_parent, id) {
            Err(WikiErrorM::Invalid("cannot move block into its own subtree"@))
        } else {
            Ok(DocumentM { blocks: with_moved(d.blocks, id, new_parent, after), ..d })
        },
        OpM::UpdateMeta { patch } => Ok(meta_patched(d, patch)),
    }
}

/// The page after an operation at a time; a refused operation changes nothing.
pub open spec fn applied(d: DocumentM, op: OpM, now: Timestamp) -> (
    DocumentM,
    Result<(), WikiErrorM>,
) {
    match changed(d, op) {
        Ok(e) => (DocumentM { version: (d.version + 1) as u64, updated_at: now, ..e }, Ok(())),
        Err(x) => (d, Err(x)),
    }
}

/// The versions can still count, and the part of the page that the operation
/// walks through is free of cycles.
pub open spec fn can_apply(d: DocumentM, op: OpM) -> bool {
    &&& d.version < u64::MAX
    &&& match op {
        OpM::BlockUpdate { block_id, .. } => block_of(d.blocks, block_id) matches Some(b)
            ==> b.version() < u64::MAX,
        OpM::DeleteBlock { block_id } => grounded(d.blocks, block_id),
        OpM::MoveBlock { id, .. } => rooted(d.blocks, id),
        _ => true,
    }
}

/// A batch of operations, each at its time, up to the first that is refused.
pub open spec fn replayed(d: DocumentM, ops: Seq<OpM>, times: Seq<Timestamp>) -> (
    DocumentM,
    Result<(), WikiErrorM>,
)
    decreases ops.len(),
{
    if ops.len() == 0 {
        (d, Ok(()))
    } else {
        let (e, r) = replayed(d, ops.drop_last(), times);
        match r {
            Ok(_) => applied(e, ops.last(), times[ops.len() - 1]),
            Err(x) => (e, Err(x)),
        }
    }
}

/// The page after a batch of operations, each at its time. One refused
/// operation aborts the whole batch, the operations before it included.
pub open spec fn batch(d: DocumentM, ops: Seq<OpM>, times: Seq<Timestamp>) -> (
    DocumentM,
    Result<(), WikiErrorM>,
) {
    match replayed(d, ops, times) {
        (e, Ok(_)) => (e, Ok(())),
        (_, Err(x)) => (d, Err(x)),
    }
}

/// Every operation of a batch that is reached can be applied.
pub open spec fn can_replay(d: DocumentM, ops: Seq<OpM>, times: Seq<Timestamp>) -> bool {
    forall|k: int|
        0 <= k < ops.len() && replayed(d, #[trigger] ops.take(k), times).1 is Ok ==> can_apply(
            replayed(d, ops.take(k), times).0,
            ops[k],
        )
}

/// A wiki in a library.
pub struct WikiSpace {
    pub id: SpaceId,
}

impl Clone for WikiSpace {
    fn clone(&self) -> (r: Self)
        ensures
            r.id.deep_view() == self.id.deep_view(),
    {
        WikiSpace { id: self.id.clone() }
    }
}

/// Sets the children of the block at a place, if it is a structured one.
fn set_children(blocks: &mut Vec<Block>, i: usize, ids: Vec<BlockId>)
    requires
        i < old(blocks)@.len(),
    ensures
        final(blocks).deep_view() == old(blocks).deep_view().update(
            i as int,
            old(blocks).deep_view()[i as int].with_children(ids.deep_view()),
        ),
{
    let ghost bs = blocks.deep_view();
    let mut block = blocks[i].clone();
    if let Block::Custom(c) = &mut block {
        c.children = ids;
    }
    blocks.set(i, block);
    assert(blocks.deep_view() =~= bs.update(i as int, block.deep_view()));
}

/// Lists a child.
fn list_child(ids: &Vec<BlockId>, after: &Option<BlockId>, id: &BlockId) -> (r: Vec<BlockId>)
    ensures
        r.deep_view() == listed(ids.deep_view(), after.deep_view(), id.deep_view()),
{
    let ghost all = ids.deep_view();
    let mut r = ids.clone();
    if let Some(a) = after {
        if let Some(k) = find_id(&r, a) {
            assert(k < r.len());
            r.insert(k + 1, id.clone());
            assert(r.deep_view() =~= all.insert(k + 1, id.deep_view()));
            return r;
        }
    }
    r.push(id.clone());
    assert(r.deep_view() =~= all.push(id.deep_view()));
    r
}

/// Lists `id` under `parent`.
fn adopt(blocks: &mut Vec<Block>, parent: &BlockId, after: &Option<BlockId>, id: &BlockId)
    ensures
        final(blocks).deep_view() == adopted(
            old(blocks).deep_view(),
            parent.deep_view(),
            after.deep_view(),
            id.deep_view(),
        ),
{
    if let Some(i) = position(blocks, parent) {
        let ids = blocks[i].children();
        assert(ids.deep_view() == blocks.deep_view()[i as int].children());
        let more = list_child(&ids, after, id);
        set_children(blocks, i, more);
    }
}

/// Takes `id` out of the list of its parent.
fn release(blocks: &mut Vec<Block>, id: &BlockId)
    ensures
        final(blocks).deep_view() == released(old(blocks).deep_view(), id.deep_view()),
{
    let parent = match find_block(blocks, id) {
        Some(b) => match b.parent() {
            Some(p) => Some(p.clone()),
            None => None,
        },
        None => None,
    };
    if let Some(p) = parent {
        if let Some(i) = position(blocks, &p) {
            let ids = blocks[i].children();
            assert(ids.deep_view() == blocks.deep_view()[i as int].children());
            let less = crate::ids::drop_id(&ids, id);
            set_children(blocks, i, less);
        }
    }
}

/// Removes the blocks with the given identities.
fn remove_all(blocks: &Vec<Block>, gone: &Vec<BlockId>) -> (r: Vec<Block>)
    ensures
        r.deep_view() == keep(blocks.deep_view(), not_among(gone.deep_view())),
{
    let ghost bs = blocks.deep_view();
    let ghost p = not_among(gone.deep_view());
    let mut left: Vec<Block> = Vec::new();
    let mut i: usize = 0;
    assert(left.deep_view() =~= keep(bs.take(0), p));
    while i < blocks.len()
        invariant
            i <= blocks.len(),
            bs == blocks.deep_view(),
            p == not_among(gone.deep_view()),
            left.deep_view() == keep(bs.take(i as int), p),
        decreases blocks.len() - i,
    {
        proof {
            crate::seqs::lemma_keep_step(bs, p, i as int);
            crate::seqs::lemma_index_in(gone.deep_view(), bs[i as int].id());
        }
        let ghost done = left.deep_view();
        if find_id(gone, blocks[i].id()).is_none() {
            left.push(blocks[i].clone());
            assert(left.deep_view() =~= done.push(bs[i as int]));
        }
        i = i + 1;
    }
    assert(bs.take(i as int) =~= bs);
    left
}

fn apply_doc_meta(doc: &mut Document, patch: &JsonValue)
    ensures
        final(doc).deep_view() == meta_patched(old(doc).deep_view(), patch.deep_view()),
{
    if let Some(t) = patch.get_str("title") {
        doc.title = t.to_owned();
    }
    if let Some(v) = patch.get("tags") {
        if let Some(a) = v.as_array() {
            doc.tags = crate::json::string_items(a);
        }
    }
    if let Some(s) = patch.get_str("status") {
        if let Some(st) = DocumentStatus::from_str(s) {
            doc.status = st;
        }
    }
    if let Some(p) = patch.get_str("path") {
        doc.path = Some(p.to_owned());
    }
}

impl WikiSpace {
    pub fn new(id: SpaceId) -> (r: WikiSpace)
        ensures
            r.id == id,
    {
        WikiSpace { id }
    }

    pub fn id(&self) -> (r: &SpaceId)
        ensures
            *r == self.id,
    {
        &self.id
    }

    /// Makes a page in the space.
    pub fn create_document(&self, title: &str, ct: ContentType, raw: &str, author: &str) -> (r:
        Result<Document, WikiError>)
        ensures
            match r {
                Ok(d) => blocks_read(raw@, Ok(d.blocks)) && fresh_page(
                    d.deep_view(),
                    hand_made(title@, author@),
                    ct,
                    DocumentStatus::Active,
                    raw@,
                    raw@,
                    self.id.deep_view(),
                ),
                Err(e) => blocks_read(raw@, Err(e)),
            },
    {
        Document::new(title, ct, raw, self.id.clone(), author)
    }

    /// Reads a page into the space.
    pub fn parse_document(&self, raw: &str, parsed: Option<Frontmatter>) -> (r: Result<
        Document,
        WikiError,
    >)
        ensures
            match r {
                Ok(d) => {
                    let front = front_of(raw@, parsed.deep_view());
                    &&& blocks_read(body_of(raw@), Ok(d.blocks))
                    &&& fresh_page(
                        d.deep_view(),
                        front,
                        match front.content_type {
                            Some(s) => match content_named(s) {
                                Some(t) => t,
                                None => ContentType::Article,
                            },
                            None => ContentType::Article,
                        },
                        match front.status {
                            Some(s) => match status_named(s) {
                                Some(t) => t,
                                None => DocumentStatus::Active,
                            },
                            None => DocumentStatus::Active,
                        },
                        raw@,
                        body_of(raw@),
                        self.id.deep_view(),
                    )
                },
                Err(e) => blocks_read(body_of(raw@), Err(e)),
            },
    {
        Document::parse(raw, parsed, self.id.clone())
    }

    /// Reads the blocks of a page anew from its source.
    pub fn reparse(&self, doc: &mut Document) -> (r: Result<(), WikiError>)
        ensures
            match r {
                Ok(_) => {
                    &&& blocks_read(body_of(old(doc).raw_markdown@), Ok(final(doc).blocks))
                    &&& final(doc).deep_view() == (DocumentM {
                        blocks: final(doc).deep_view().blocks,
                        updated_at: final(doc).updated_at,
                        ..old(doc).deep_view()
                    })
                },
                Err(e) => blocks_read(body_of(old(doc).raw_markdown@), Err(e)) && *final(doc)
                    == *old(doc),
            },
    {
        doc.reparse()
    }

    /// Applies an operation at a time. A refused operation changes nothing.
    pub fn apply_op(&self, doc: &mut Document, op: &Op, now: Timestamp) -> (r: Result<
        (),
        WikiError,
    >)
        requires
            can_apply(old(doc).deep_view(), op.deep_view()),
        ensures
            (final(doc).deep_view(), outcome(r)) == applied(
                old(doc).deep_view(),
                op.deep_view(),
                now,
            ),
    {
        let ghost d = doc.deep_view();
        match op {
            Op::TextUpdate { base_version, .. } => {
                if doc.version != *base_version {
                    let want = show_u64(*base_version);
                    let have = show_u64(doc.version);
                    let head = cat3("version conflict: expected ", want.as_str(), " got ");
                    return Err(WikiError::Invalid(cat(head.as_str(), have.as_str())));
                }
            },
            Op::BlockUpdate { block_id, patch } => {
                match position(&doc.blocks, block_id) {
                    None => {
                        return Err(WikiError::NotFound(cat("block ", block_id.as_str())));
                    },
                    Some(i) => {
                        let mut block = doc.blocks[i].clone();
                        assert(block.deep_view() == d.blocks[i as int]);
                        match &mut block {
                            Block::Custom(custom) => {
                                custom.data.merge(patch);
                                custom.version = custom.version + 1;
                            },
                            Block::Markdown(_) => {
                                return Err(
                                    WikiError::Invalid(
                                        "BlockUpdate only for custom blocks".to_owned(),
                                    ),
                                );
                            },
                        }
                        doc.blocks.set(i, block);
                        assert(doc.blocks.deep_view() =~= d.blocks.update(
                            i as int,
                            block.deep_view(),
                        ));
                    },
                }
            },
            Op::InsertBlock { after, block } => {
                if let Some(p) = block.parent() {
                    adopt(&mut doc.blocks, p, after, block.id());
                }
                let ghost bs = doc.blocks.deep_view();
                doc.blocks.push(block.clone());
                assert(doc.blocks.deep_view() =~= bs.push(block.deep_view()));
            },
            Op::DeleteBlock { block_id } => {
                let gone = descendants(&doc.blocks, block_id);
                release(&mut doc.blocks, block_id);
                doc.blocks = remove_all(&doc.blocks, &gone);
            },
            Op::MoveBlock { id, new_parent, after } => {
                if is_descendant_of(&doc.blocks, new_parent, id) {
                    return Err(
                        WikiError::Invalid("cannot move block into its own subtree".to_owned()),
                    );
                }
                release(&mut doc.blocks, id);
                let ghost free = doc.blocks.deep_view();
                if let Some(i) = position(&doc.blocks, id) {
                    let mut block = doc.blocks[i].clone();
                    assert(block.deep_view() == free[i as int]);
                    block.set_parent(Some(new_parent.clone()));
                    doc.blocks.set(i, block);
                    assert(doc.blocks.deep_view() =~= free.update(i as int, block.deep_view()));
                }
                adopt(&mut doc.blocks, new_parent, after, id);
            },
            Op::UpdateMeta { patch } => {
                apply_doc_meta(doc, patch);
            },
        }
        doc.version = doc.version + 1;
        doc.updated_at = now;
        Ok(())
    }

    /// Applies operations one after the other, each at its time. One refused
    /// operation aborts the whole batch, and the page stays as it is.
    pub fn apply_ops_at(&self, doc: &mut Document, ops: &Vec<Op>, times: &Vec<Timestamp>) -> (r:
        Result<(), WikiError>)
        requires
            times@.len() >= ops@.len(),
            can_replay(old(doc).deep_view(), ops.deep_view(), times@),
        ensures
            (final(doc).deep_view(), outcome(r)) == batch(
                old(doc).deep_view(),
                ops.deep_view(),
                times@,
            ),
            r is Err ==> *final(doc) == *old(doc),
    {
        let ghost d = doc.deep_view();
        let ghost all = ops.deep_view();
        let mut out = doc.clone();
        let mut i: usize = 0;
        while i < ops.len()
            invariant
                i <= ops.len(),
                times@.len() >= ops@.len(),
                *doc == *old(doc),
                d == old(doc).deep_view(),
                all == ops.deep_view(),
                can_replay(d, all, times@),
                (out.deep_view(), Ok::<(), WikiErrorM>(())) == replayed(
                    d,
                    all.take(i as int),
                    times@,
                ),
            decreases ops.len() - i,
        {
            assert(all.take(i + 1).drop_last() =~= all.take(i as int));
            assert(all.take(i + 1).last() == ops@[i as int].deep_view());
            assert(can_apply(out.deep_view(), all[i as int]));
            match self.apply_op(&mut out, &ops[i], times[i]) {
                Ok(_) => {},
                Err(e) => {
                    proof {
                        lemma_replayed_stuck(d, all, times@, i + 1);
                    }
                    return Err(e);
                },
            }
            i = i + 1;
        }
        assert(all.take(i as int) =~= all);
        *doc = out;
        Ok(())
    }
}

impl WikiSpace {
    /// Applies operations one after the other. One refused operation aborts the
    /// whole batch, and the page stays as it is.
    pub fn apply_ops(&self, doc: &mut Document, ops: &Vec<Op>) -> (r: Result<(), WikiError>)
        requires
            forall|times: Seq<Timestamp>|
                times.len() == ops@.len() ==> #[trigger] can_replay(
                    old(doc).deep_view(),
                    ops.deep_view(),
                    times,
                ),
        ensures
            exists|times: Seq<Timestamp>|
                times.len() == ops@.len() && (final(doc).deep_view(), outcome(r))
                    == #[trigger] batch(old(doc).deep_view(), ops.deep_view(), times),
            r is Err ==> *final(doc) == *old(doc),
    {
        let mut times: Vec<Timestamp> = Vec::new();
        while times.len() < ops.len()
            invariant
                times@.len() <= ops@.len(),
            decreases ops.len() - times.len(),
        {
            times.push(Timestamp::now());
        }
        assert(times@.len() == ops@.len());
        self.apply_ops_at(doc, ops, &times)
    }
}

impl Document {
    /// Whether an operation can be applied.
    pub fn fits(&self, op: &Op) -> (r: bool)
        ensures
            r == can_apply(self.deep_view(), op.deep_view()),
    {
        if self.version == u64::MAX {
            return false;
        }
        match op {
            Op::BlockUpdate { block_id, .. } => match find_block(&self.blocks, block_id) {
                Some(b) => b.version() < u64::MAX,
                None => true,
            },
            Op::DeleteBlock { block_id } => is_grounded(&self.blocks, block_id),
            Op::MoveBlock { id, .. } => is_rooted(&self.blocks, id),
            _ => true,
        }
    }
}

impl WikiSpace {
    /// Applies operations one after the other, each at its time. Where one is
    /// refused or cannot be applied, the page stays as it is.
    pub fn try_apply_ops_at(&self, doc: &mut Document, ops: &Vec<Op>, times: &Vec<Timestamp>) -> (r:
        Option<Result<(), WikiError>>)
        requires
            times@.len() >= ops@.len(),
        ensures
            match r {
                Some(o) => can_replay(old(doc).deep_view(), ops.deep_view(), times@) && (
                    final(doc).deep_view(),
                    outcome(o),
                ) == batch(old(doc).deep_view(), ops.deep_view(), times@),
                None => !can_replay(old(doc).deep_view(), ops.deep_view(), times@),
            },
            !(r matches Some(Ok(_))) ==> *final(doc) == *old(doc),
    {
        let ghost d = doc.deep_view();
        let ghost all = ops.deep_view();
        let mut out = doc.clone();
        let mut i: usize = 0;
        while i < ops.len()
            invariant
                i <= ops.len(),
                times@.len() >= ops@.len(),
                *doc == *old(doc),
                d == old(doc).deep_view(),
                all == ops.deep_view(),
                forall|k: int|
                    0 <= k < i ==> can_apply(
                        replayed(d, #[trigger] all.take(k), times@).0,
                        all[k],
                    ),
                (out.deep_view(), Ok::<(), WikiErrorM>(())) == replayed(
                    d,
                    all.take(i as int),
                    times@,
                ),
            decreases ops.len() - i,
        {
            assert(all.take(i + 1).drop_last() =~= all.take(i as int));
            assert(all.take(i + 1).last() == ops@[i as int].deep_view());
            assert(all[i as int] == ops@[i as int].deep_view());
            if !out.fits(&ops[i]) {
                assert(!can_apply(replayed(d, all.take(i as int), times@).0, all[i as int]));
                return None;
            }
            match self.apply_op(&mut out, &ops[i], times[i]) {
                Ok(_) => {},
                Err(e) => {
                    proof {
                        lemma_replayed_stuck(d, all, times@, i + 1);
                        assert forall|k: int|
                            0 <= k < all.len() && replayed(d, #[trigger] all.take(k), times@).1
                                is Ok implies can_apply(
                            replayed(d, all.take(k), times@).0,
                            all[k],
                        ) by {
                            if k > i {
                                assert(all.take(k).take(i + 1) =~= all.take(i + 1));
                                lemma_replayed_stuck(d, all.take(k), times@, i + 1);
                            }
                        }
                    }
                    return Some(Err(e));
                },
            }
            i = i + 1;
        }
        assert(all.take(i as int) =~= all);
        *doc = out;
        Some(Ok(()))
    }

    /// Applies operations one after the other. Where one is refused or cannot
    /// be applied, the page stays as it is.
    pub fn try_apply_ops(&self, doc: &mut Document, ops: &Vec<Op>) -> (r: Option<
        Result<(), WikiError>,
    >)
        ensures
            exists|times: Seq<Timestamp>|
                times.len() == ops@.len() && match r {
                    Some(o) => #[trigger] can_replay(old(doc).deep_view(), ops.deep_view(), times)
                        && (final(doc).deep_view(), outcome(o)) == batch(
                        old(doc).deep_view(),
                        ops.deep_view(),
                        times,
                    ),
                    None => !can_replay(old(doc).deep_view(), ops.deep_view(), times),
                },
            !(r matches Some(Ok(_))) ==> *final(doc) == *old(doc),
    {
        let mut times: Vec<Timestamp> = Vec::new();
        while times.len() < ops.len()
            invariant
                times@.len() <= ops@.len(),
            decreases ops.len() - times.len(),
        {
            times.push(Timestamp::now());
        }
        assert(times@.len() == ops@.len());
        self.try_apply_ops_at(doc, ops, &times)
    }
}

proof fn lemma_replayed_stuck(d: DocumentM, ops: Seq<OpM>, times: Seq<Timestamp>, n: int)
    requires
        0 <= n <= ops.len(),
        replayed(d, ops.take(n), times).1 is Err,
    ensures
        replayed(d, ops, times) == replayed(d, ops.take(n), times),
    decreases ops.len() - n,
{
    if n < ops.len() {
        assert(ops.take(n + 1).drop_last() =~= ops.take(n));
        lemma_replayed_stuck(d, ops, times, n + 1);
    } else {
        assert(ops.take(n) =~= ops);
    }
}

// ---- Laws ------------------------------------------------------------------

/// A batch is all or nothing: one refused operation and the page is left as it
/// was, with the error of that operation.
pub proof fn law_batch_atomic(d: DocumentM, ops: Seq<OpM>, times: Seq<Timestamp>, n: int)
    requires
        0 <= n < ops.len(),
        replayed(d, ops.take(n), times).1 is Ok,
        changed(replayed(d, ops.take(n), times).0, ops[n]) is Err,
    ensures
        batch(d, ops, times) == (
            d,
            Err::<(), WikiErrorM>(changed(replayed(d, ops.take(n), times).0, ops[n])->Err_0),
        ),
{
    assert(ops.take(n + 1).drop_last() =~= ops.take(n));
    assert(ops.take(n + 1).last() == ops[n]);
    lemma_replayed_stuck(d, ops, times, n + 1);
}

/// A batch succeeds exactly if none of its operations is refused when its turn
/// comes.
pub proof fn law_batch_succeeds(d: DocumentM, ops: Seq<OpM>, times: Seq<Timestamp>)
    ensures
        batch(d, ops, times).1 is Ok <==> forall|n: int|
            0 <= n < ops.len() ==> changed(
                replayed(d, #[trigger] ops.take(n), times).0,
                ops[n],
            ) is Ok,
    decreases ops.len(),
{
    if batch(d, ops, times).1 is Ok {
        assert forall|n: int| 0 <= n < ops.len() implies changed(
            replayed(d, #[trigger] ops.take(n), times).0,
            ops[n],
        ) is Ok by {
            if replayed(d, ops.take(n), times).1 is Err {
                lemma_replayed_stuck(d, ops, times, n);
            } else if changed(replayed(d, ops.take(n), times).0, ops[n]) is Err {
                law_batch_atomic(d, ops, times, n);
            }
        }
    } else if ops.len() > 0 {
        let front = ops.drop_last();
        let last = ops.len() - 1;
        assert(ops.take(last) =~= front);
        law_batch_succeeds(d, front, times);
        if replayed(d, front, times).1 is Err {
            let n = choose|n: int|
                0 <= n < front.len() && changed(
                    replayed(d, #[trigger] front.take(n), times).0,
                    front[n],
                ) is Err;
            assert(front.take(n) =~= ops.take(n));
            assert(changed(replayed(d, ops.take(n), times).0, ops[n]) is Err);
        } else {
            assert(changed(replayed(d, ops.take(last), times).0, ops[last]) is Err);
        }
    }
}

/// Every block ranks below the parent that it names.
pub open spec fn ranked(bs: Seq<BlockM>, rank: spec_fn(Seq<char>) -> nat) -> bool {
    forall|i: int|
        0 <= i < bs.len() && (#[trigger] bs[i]).parent() is Some ==> rank(bs[i].id()) < rank(
            bs[i].parent()->0,
        )
}

/// The parents that the blocks name form no cycle.
pub open spec fn acyclic(bs: Seq<BlockM>) -> bool {
    exists|rank: spec_fn(Seq<char>) -> nat| ranked(bs, rank)
}

proof fn lemma_ranked_rooted(bs: Seq<BlockM>, rank: spec_fn(Seq<char>) -> nat, id: Seq<char>)
    requires
        ranked(bs, rank),
    ensures
        hangs_within(bs, id, rank(id) + 1),
    decreases rank(id),
{
    assert forall|i: int| 0 <= i < bs.len() && (#[trigger] bs[i]).parent() == Some(
        id,
    ) implies hangs_within(bs, bs[i].id(), rank(id)) by {
        lemma_ranked_rooted(bs, rank, bs[i].id());
        lemma_within_mono(bs, bs[i].id(), rank(bs[i].id()) + 1, rank(id));
    }
}

/// Without a cycle every search downwards comes to an end.
pub proof fn law_acyclic_rooted(bs: Seq<BlockM>, id: Seq<char>)
    requires
        acyclic(bs),
    ensures
        rooted(bs, id),
{
    let rank = choose|rank: spec_fn(Seq<char>) -> nat| ranked(bs, rank);
    lemma_ranked_rooted(bs, rank, id);
}

/// A block whose parent hangs under `top` hangs under `top`.
proof fn lemma_under_child(bs: Seq<BlockM>, j: int, x: Seq<char>, top: Seq<char>, n: nat)
    requires
        hangs_within(bs, top, n),
        under(bs, x, top, n),
        0 <= j < bs.len(),
        bs[j].parent() == Some(x),
    ensures
        under(bs, bs[j].id(), top, n),
    decreases n,
{
    if x == top {
        assert(under(bs, bs[j].id(), bs[j].id(), (n - 1) as nat));
    } else {
        let i = choose|i: int|
            0 <= i < bs.len() && (#[trigger] bs[i]).parent() == Some(top) && under(
                bs,
                x,
                bs[i].id(),
                (n - 1) as nat,
            );
        lemma_under_child(bs, j, x, bs[i].id(), (n - 1) as nat);
        assert(bs[i].parent() == Some(top));
    }
}

/// Changing lists of children changes no parent.
proof fn lemma_same_parents(a: Seq<BlockM>, b: Seq<BlockM>, rank: spec_fn(Seq<char>) -> nat)
    requires
        ranked(a, rank),
        a.len() == b.len(),
        forall|i: int|
            0 <= i < a.len() ==> (#[trigger] b[i]).id() == a[i].id() && b[i].parent()
                == a[i].parent(),
    ensures
        ranked(b, rank),
{
    assert forall|i: int| 0 <= i < b.len() && (#[trigger] b[i]).parent() is Some implies rank(
        b[i].id(),
    ) < rank(b[i].parent()->0) by {
        assert(a[i].parent() is Some);
    }
}

proof fn lemma_released(bs: Seq<BlockM>, id: Seq<char>)
    ensures
        released(bs, id).len() == bs.len(),
        forall|i: int|
            0 <= i < bs.len() ==> (#[trigger] released(bs, id)[i]).id() == bs[i].id() && released(
                bs,
                id,
            )[i].parent() == bs[i].parent(),
{
    if let Some(b) = block_of(bs, id) {
        if let Some(p) = b.parent() {
            crate::seqs::lemma_first_index(bs, crate::page::block::has_id(p));
        }
    }
}

proof fn lemma_adopted(
    bs: Seq<BlockM>,
    parent: Seq<char>,
    after: Option<Seq<char>>,
    id: Seq<char>,
)
    ensures
        adopted(bs, parent, after, id).len() == bs.len(),
        forall|i: int|
            0 <= i < bs.len() ==> (#[trigger] adopted(bs, parent, after, id)[i]).id()
                == bs[i].id() && adopted(bs, parent, after, id)[i].parent() == bs[i].parent(),
{
    crate::seqs::lemma_first_index(bs, crate::page::block::has_id(parent));
}

proof fn lemma_moved_acyclic(
    bs: Seq<BlockM>,
    id: Seq<char>,
    np: Seq<char>,
    after: Option<Seq<char>>,
)
    requires
        acyclic(bs),
        !hangs_under(bs, np, id),
    ensures
        acyclic(with_moved(bs, id, np, after)),
{
    let rank = choose|rank: spec_fn(Seq<char>) -> nat| ranked(bs, rank);
    law_acyclic_rooted(bs, id);
    let n = choose|n: nat| hangs_within(bs, id, n);
    assert(hangs_within(bs, id, n));
    let lift = rank(id) + 1;
    let rank2 = |x: Seq<char>|
        if under(bs, x, id, n) {
            rank(x)
        } else {
            rank(x) + lift
        };
    let free = released(bs, id);
    let hung = match block_at(free, id) {
        Some(i) => free.update(i, free[i].with_parent(Some(np))),
        None => free,
    };
    let out = with_moved(bs, id, np, after);
    crate::seqs::lemma_first_index(free, crate::page::block::has_id(id));
    lemma_released(bs, id);
    lemma_adopted(hung, np, after, id);
    assert(ranked(hung, rank2)) by {
        assert forall|j: int| 0 <= j < hung.len() && (#[trigger] hung[j]).parent() is Some implies rank2(
            hung[j].id(),
        ) < rank2(hung[j].parent()->0) by {
            assert(free[j].id() == bs[j].id() && free[j].parent() == bs[j].parent());
            assert(hung[j].id() == bs[j].id());
            let x = bs[j].id();
            assert(under(bs, id, id, n));
            if hung[j].parent() == bs[j].parent() {
                let q = bs[j].parent()->0;
                assert(rank(bs[j].id()) < rank(bs[j].parent()->0));
                if under(bs, q, id, n) {
                    lemma_under_child(bs, j, q, id, n);
                }
            } else {
                assert(x == id);
                assert(hung[j].parent() == Some(np));
            }
        }
    }
    lemma_same_parents(hung, out, rank2);
}

/// An accepted operation brings no cycle into the parents that blocks name;
/// an inserted block is new, so that no block names it as its parent yet.
pub proof fn law_apply_keeps_acyclic(d: DocumentM, op: OpM, now: Timestamp)
    requires
        acyclic(d.blocks),
        op matches OpM::InsertBlock { block, .. } ==> block.parent() != Some(block.id())
            && forall|i: int|
            0 <= i < d.blocks.len() ==> (#[trigger] d.blocks[i]).parent() != Some(block.id()),
        applied(d, op, now).1 is Ok,
    ensures
        acyclic(applied(d, op, now).0.blocks),
{
    let bs = d.blocks;
    let rank = choose|rank: spec_fn(Seq<char>) -> nat| ranked(bs, rank);
    let out = applied(d, op, now).0.blocks;
    match op {
        OpM::BlockUpdate { block_id, patch } => {
            crate::seqs::lemma_first_index(bs, crate::page::block::has_id(block_id));
            lemma_same_parents(bs, out, rank);
        },
        OpM::InsertBlock { after, block } => {
            let nb = block.id();
            if let Some(p) = block.parent() {
                lemma_adopted(bs, p, after, nb);
            }
            let rank2 = |x: Seq<char>|
                if x == nb {
                    0nat
                } else {
                    rank(x) + 1
                };
            assert(ranked(out, rank2)) by {
                assert forall|j: int| 0 <= j < out.len() && (#[trigger] out[j]).parent() is Some implies rank2(
                    out[j].id(),
                ) < rank2(out[j].parent()->0) by {
                    if j < bs.len() {
                        assert(out[j].id() == bs[j].id() && out[j].parent() == bs[j].parent());
                        assert(bs[j].parent() != Some(nb));
                        assert(rank(bs[j].id()) < rank(bs[j].parent()->0));
                    } else {
                        assert(out[j] == block);
                    }
                }
            }
        },
        OpM::DeleteBlock { block_id } => {
            let free = released(bs, block_id);
            let p = not_among(subtree(bs, block_id));
            lemma_released(bs, block_id);
            lemma_same_parents(bs, free, rank);
            crate::seqs::lemma_keep_contains(free, p);
            assert(ranked(out, rank)) by {
                assert forall|j: int| 0 <= j < out.len() && (#[trigger] out[j]).parent() is Some implies rank(
                    out[j].id(),
                ) < rank(out[j].parent()->0) by {
                    assert(out.contains(out[j]));
                    let i = choose|i: int| 0 <= i < free.len() && free[i] == out[j];
                    assert(free[i].parent() is Some);
                }
            }
        },
        OpM::MoveBlock { id, new_parent, after } => {
            lemma_moved_acyclic(bs, id, new_parent, after);
        },
        _ => {},
    }
}

/// An accepted operation counts one version; a refused one changes nothing.
pub proof fn law_apply_counts(d: DocumentM, op: OpM, now: Timestamp)
    requires
        d.version < u64::MAX,
    ensures
        applied(d, op, now).1 is Ok ==> applied(d, op, now).0.version == d.version + 1,
        applied(d, op, now).1 is Err ==> applied(d, op, now).0 == d,
{
}

} // verus!
