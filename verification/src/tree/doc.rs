//! The document tree and the operations that change it.

use vstd::prelude::*;

use crate::error::{outcome, WikiError, WikiErrorM};
use crate::ids::{drop_id, find_id, uuid_text, BlockId, DocId};
use crate::json::{member, merged, text_of, Json, JsonValue};
use crate::seqs::{first_index, index_in, keep, lemma_first_index, lemma_no_longer, without};
use crate::text::{cat, cat3};
use crate::time::{earlier, Timestamp};
use crate::tree::block::{bumped, Block, BlockM};

verus! {

broadcast use vstd::std_specs::vec::group_vec_axioms;

/// The space that a document belongs to.
#[derive(Debug, PartialEq, Eq, Hash)]
pub struct SpaceId(pub String);

impl DeepView for SpaceId {
    type V = Seq<char>;

    open spec fn deep_view(&self) -> Seq<char> {
        self.0@
    }
}

impl Clone for SpaceId {
    fn clone(&self) -> (r: Self)
        ensures
            r == *self,
    {
        SpaceId(self.0.clone())
    }
}

impl SpaceId {
    /// The space of documents that name none.
    pub fn default() -> (r: SpaceId)
        ensures
            r.deep_view() == "default"@,
    {
        SpaceId("default".to_owned())
    }
}

/// A document: blocks that form a tree under `root`.
#[derive(Debug, PartialEq)]
pub struct Document {
    pub id: DocId,
    pub title: String,
    pub root: BlockId,
    /// Counts the operations applied.
    pub version: u64,
    pub space_id: SpaceId,
    pub tags: Vec<String>,
    pub icon: Option<String>,
    pub cover: Option<String>,
    /// All blocks of the document, in no particular order.
    pub blocks: Vec<Block>,
}

/// What a `Document` holds.
#[verifier::ext_equal]
pub struct DocumentM {
    pub id: Seq<char>,
    pub title: Seq<char>,
    pub root: Seq<char>,
    pub version: u64,
    pub space_id: Seq<char>,
    pub tags: Seq<Seq<char>>,
    pub icon: Option<Seq<char>>,
    pub cover: Option<Seq<char>>,
    pub blocks: Seq<BlockM>,
}

impl DeepView for Document {
    type V = DocumentM;

    open spec fn deep_view(&self) -> DocumentM {
        DocumentM {
            id: self.id.deep_view(),
            title: self.title.deep_view(),
            root: self.root.deep_view(),
            version: self.version,
            space_id: self.space_id.deep_view(),
            tags: self.tags.deep_view(),
            icon: self.icon.deep_view(),
            cover: self.cover.deep_view(),
            blocks: self.blocks.deep_view(),
        }
    }
}

impl Clone for Document {
    fn clone(&self) -> (r: Self)
        ensures
            r.deep_view() == self.deep_view(),
    {
        Document {
            id: self.id.clone(),
            title: self.title.clone(),
            root: self.root.clone(),
            version: self.version,
            space_id: self.space_id.clone(),
            tags: self.tags.clone(),
            icon: self.icon.clone(),
            cover: self.cover.clone(),
            blocks: self.blocks.clone(),
        }
    }
}

/// A change of a document.
#[derive(Debug, PartialEq)]
pub enum Op {
    /// Hangs a new block under `parent`, behind its child `after`, or in front
    /// of all its children.
    InsertBlock { parent: BlockId, after: Option<BlockId>, block: Block },
    /// Merges a patch into the content of a block.
    UpdateBlock { id: BlockId, patch: JsonValue },
    /// Removes a block with all that hangs under it.
    DeleteBlock { id: BlockId },
    /// Hangs a block with all under it elsewhere.
    MoveBlock { id: BlockId, new_parent: BlockId, after: Option<BlockId> },
    /// Changes title, tags, icon or cover.
    UpdateDocMeta { doc_id: DocId, patch: JsonValue },
}

/// What a `Op` holds.
#[verifier::ext_equal]
pub enum OpM {
    InsertBlock { parent: Seq<char>, after: Option<Seq<char>>, block: BlockM },
    UpdateBlock { id: Seq<char>, patch: Json },
    DeleteBlock { id: Seq<char> },
    MoveBlock { id: Seq<char>, new_parent: Seq<char>, after: Option<Seq<char>> },
    UpdateDocMeta { doc_id: Seq<char>, patch: Json },
}

impl DeepView for Op {
    type V = OpM;

    open spec fn deep_view(&self) -> OpM {
        match self {
            Op::InsertBlock { parent, after, block } => OpM::InsertBlock {
                parent: parent.deep_view(),
                after: after.deep_view(),
                block: block.deep_view(),
            },
            Op::UpdateBlock { id, patch } => OpM::UpdateBlock {
                id: id.deep_view(),
                patch: patch.deep_view(),
            },
            Op::DeleteBlock { id } => OpM::DeleteBlock { id: id.deep_view() },
            Op::MoveBlock { id, new_parent, after } => OpM::MoveBlock {
                id: id.deep_view(),
                new_parent: new_parent.deep_view(),
                after: after.deep_view(),
            },
            Op::UpdateDocMeta { doc_id, patch } => OpM::UpdateDocMeta {
                doc_id: doc_id.deep_view(),
                patch: patch.deep_view(),
            },
        }
    }
}

impl Clone for Op {
    fn clone(&self) -> (r: Self)
        ensures
            r.deep_view() == self.deep_view(),
    {
        match self {
            Op::InsertBlock { parent, after, block } => Op::InsertBlock {
                parent: parent.clone(),
                after: after.clone(),
                block: block.clone(),
            },
            Op::UpdateBlock { id, patch } => Op::UpdateBlock {
                id: id.clone(),
                patch: patch.clone(),
            },
            Op::DeleteBlock { id } => Op::DeleteBlock { id: id.clone() },
            Op::MoveBlock { id, new_parent, after } => Op::MoveBlock {
                id: id.clone(),
                new_parent: new_parent.clone(),
                after: after.clone(),
            },
            Op::UpdateDocMeta { doc_id, patch } => Op::UpdateDocMeta {
                doc_id: doc_id.clone(),
                patch: patch.clone(),
            },
        }
    }
}

// ---- Lookup ----------------------------------------------------------------

/// Whether a block has the identity.
pub open spec fn has_id(id: Seq<char>) -> spec_fn(BlockM) -> bool {
    |b: BlockM| b.id == id
}

/// Where the block with the identity stands.
pub open spec fn block_at(bs: Seq<BlockM>, id: Seq<char>) -> Option<int> {
    first_index(bs, has_id(id))
}

/// The block with the identity.
pub open spec fn block_of(bs: Seq<BlockM>, id: Seq<char>) -> Option<BlockM> {
    match block_at(bs, id) {
        Some(i) => Some(bs[i]),
        None => None,
    }
}

/// The children of the block with the identity.
pub open spec fn kids(bs: Seq<BlockM>, id: Seq<char>) -> Seq<Seq<char>> {
    match block_of(bs, id) {
        Some(b) => b.children,
        None => seq![],
    }
}

/// The identities in `ids` that belong to a block, as their blocks.
pub open spec fn blocks_of(bs: Seq<BlockM>, ids: Seq<Seq<char>>) -> Seq<BlockM>
    decreases ids.len(),
{
    if ids.len() == 0 {
        seq![]
    } else {
        let front = blocks_of(bs, ids.drop_last());
        match block_of(bs, ids.last()) {
            Some(b) => front.push(b),
            None => front,
        }
    }
}

// ---- Walking ---------------------------------------------------------------

/// No path downwards from `id` is longer than `n` blocks.
pub open spec fn bounded(bs: Seq<BlockM>, id: Seq<char>, n: nat) -> bool
    decreases n,
{
    match block_of(bs, id) {
        None => true,
        Some(b) => n > 0 && forall|i: int|
            0 <= i < b.children.len() ==> bounded(bs, #[trigger] b.children[i], (n - 1) as nat),
    }
}

/// Walking downwards from `id` comes to an end.
pub open spec fn grounded(bs: Seq<BlockM>, id: Seq<char>) -> bool {
    exists|n: nat| bounded(bs, id, n)
}

/// The blocks under `id` with itself, each before its children and these in
/// order, down to `n` levels.
pub open spec fn preorder(bs: Seq<BlockM>, id: Seq<char>, n: nat) -> Seq<BlockM>
    decreases n, 0nat,
{
    if n == 0 {
        seq![]
    } else {
        match block_of(bs, id) {
            None => seq![],
            Some(b) => seq![b] + preorders(bs, b.children, (n - 1) as nat),
        }
    }
}

/// The walks from several identities, one after the other.
pub open spec fn preorders(bs: Seq<BlockM>, ids: Seq<Seq<char>>, n: nat) -> Seq<BlockM>
    decreases n, ids.len() + 1,
{
    if ids.len() == 0 {
        seq![]
    } else {
        preorders(bs, ids.drop_last(), n) + preorder(bs, ids.last(), n)
    }
}

/// A bound on the paths downwards from `id`.
pub open spec fn depth(bs: Seq<BlockM>, id: Seq<char>) -> nat {
    choose|n: nat| bounded(bs, id, n)
}

/// The blocks under `id` with itself, each before its children and these in
/// order.
pub open spec fn subtree(bs: Seq<BlockM>, id: Seq<char>) -> Seq<BlockM> {
    preorder(bs, id, depth(bs, id))
}

/// The identities of blocks.
pub open spec fn ids_of(bs: Seq<BlockM>) -> Seq<Seq<char>> {
    Seq::new(bs.len(), |i: int| bs[i].id)
}

/// `node` is `top`, or a child at most `n` levels below it.
pub open spec fn under(bs: Seq<BlockM>, node: Seq<char>, top: Seq<char>, n: nat) -> bool
    decreases n,
{
    node == top || n > 0 && exists|i: int|
        0 <= i < kids(bs, top).len() && under(
            bs,
            node,
            #[trigger] kids(bs, top)[i],
            (n - 1) as nat,
        )
}

/// `node` is `top` or hangs somewhere under it.
pub open spec fn hangs_under(bs: Seq<BlockM>, node: Seq<char>, top: Seq<char>) -> bool {
    under(bs, node, top, depth(bs, top))
}

pub proof fn lemma_bounded_mono(bs: Seq<BlockM>, id: Seq<char>, n: nat, m: nat)
    requires
        bounded(bs, id, n),
        n <= m,
    ensures
        bounded(bs, id, m),
    decreases n,
{
    match block_of(bs, id) {
        None => {},
        Some(b) => {
            assert forall|i: int| 0 <= i < b.children.len() implies bounded(
                bs,
                #[trigger] b.children[i],
                (m - 1) as nat,
            ) by {
                lemma_bounded_mono(bs, b.children[i], (n - 1) as nat, (m - 1) as nat);
            }
        },
    }
}

/// A longest path downwards from `id`, of blocks that all differ.
proof fn lemma_longest_path(bs: Seq<BlockM>, id: Seq<char>, n: nat) -> (path: Seq<Seq<char>>)
    requires
        n > 0,
        bounded(bs, id, n),
        !bounded(bs, id, (n - 1) as nat),
    ensures
        path.len() == n,
        path.no_duplicates(),
        forall|k: int| 0 <= k < n ==> ids_of(bs).contains(#[trigger] path[k]),
        forall|k: int| 0 <= k < n ==> bounded(bs, #[trigger] path[k], (n - k) as nat),
    decreases n,
{
    lemma_first_index(bs, has_id(id));
    let at = block_at(bs, id)->0;
    let b = bs[at];
    assert(ids_of(bs)[at] == id);
    if n == 1 {
        seq![id]
    } else {
        let m = (n - 1) as nat;
        let i = choose|i: int|
            0 <= i < b.children.len() && !bounded(bs, #[trigger] b.children[i], (m - 1) as nat);
        let rest = lemma_longest_path(bs, b.children[i], m);
        let path = seq![id] + rest;
        assert forall|k: int| 0 <= k < n implies ids_of(bs).contains(#[trigger] path[k]) && bounded(
            bs,
            path[k],
            (n - k) as nat,
        ) by {
            if k > 0 {
                assert(path[k] == rest[k - 1]);
            }
        }
        assert forall|j: int, k: int| 0 <= j < n && 0 <= k < n && j != k implies path[j]
            != path[k] by {
            if j > 0 && k > 0 {
                assert(path[j] == rest[j - 1] && path[k] == rest[k - 1]);
            } else {
                let far = if j > 0 {
                    j
                } else {
                    k
                };
                assert(path[far] == rest[far - 1]);
                if path[far] == id {
                    lemma_bounded_mono(bs, id, (n - far) as nat, m);
                }
            }
        }
        path
    }
}

/// A walk that comes to an end is nowhere deeper than the number of blocks.
pub proof fn lemma_depth_bound(bs: Seq<BlockM>, id: Seq<char>, n: nat)
    requires
        bounded(bs, id, n),
    ensures
        bounded(bs, id, bs.len()),
    decreases n,
{
    if n <= bs.len() {
        lemma_bounded_mono(bs, id, n, bs.len());
    } else if bounded(bs, id, (n - 1) as nat) {
        lemma_depth_bound(bs, id, (n - 1) as nat);
    } else {
        let path = lemma_longest_path(bs, id, n);
        lemma_no_longer(path, ids_of(bs));
    }
}

/// Beyond the bound nothing more is found.
pub proof fn lemma_preorder_stable(bs: Seq<BlockM>, id: Seq<char>, n: nat, m: nat)
    requires
        bounded(bs, id, n),
        bounded(bs, id, m),
    ensures
        preorder(bs, id, n) == preorder(bs, id, m),
    decreases n, 0nat,
{
    match block_of(bs, id) {
        None => {},
        Some(b) => {
            lemma_preorders_stable(bs, b.children, (n - 1) as nat, (m - 1) as nat);
        },
    }
}

proof fn lemma_preorders_stable(bs: Seq<BlockM>, ids: Seq<Seq<char>>, n: nat, m: nat)
    requires
        forall|i: int| 0 <= i < ids.len() ==> bounded(bs, #[trigger] ids[i], n),
        forall|i: int| 0 <= i < ids.len() ==> bounded(bs, #[trigger] ids[i], m),
    ensures
        preorders(bs, ids, n) == preorders(bs, ids, m),
    decreases n, ids.len() + 1,
{
    if ids.len() > 0 {
        let d = ids.drop_last();
        assert forall|i: int| 0 <= i < d.len() implies bounded(bs, #[trigger] d[i], n) by {
            assert(d[i] == ids[i]);
        }
        assert forall|i: int| 0 <= i < d.len() implies bounded(bs, #[trigger] d[i], m) by {
            assert(d[i] == ids[i]);
        }
        lemma_preorders_stable(bs, d, n, m);
        assert(ids.last() == ids[ids.len() - 1]);
        lemma_preorder_stable(bs, ids.last(), n, m);
    }
}

pub proof fn lemma_under_stable(bs: Seq<BlockM>, node: Seq<char>, top: Seq<char>, n: nat, m: nat)
    requires
        bounded(bs, top, n),
        bounded(bs, top, m),
        under(bs, node, top, n),
    ensures
        under(bs, node, top, m),
    decreases n,
{
    if node != top {
        let i = choose|i: int|
            0 <= i < kids(bs, top).len() && under(
                bs,
                node,
                #[trigger] kids(bs, top)[i],
                (n - 1) as nat,
            );
        lemma_under_stable(bs, node, kids(bs, top)[i], (n - 1) as nat, (m - 1) as nat);
    }
}

impl Document {
    /// A document whose only block is `root`.
    pub fn new(title: &str, root: Block, space_id: SpaceId) -> (r: Document)
        ensures
            uuid_text(r.id.deep_view(), '7'),
            r.deep_view() == new_document(
                r.id.deep_view(),
                title@,
                root.deep_view(),
                space_id.deep_view(),
            ),
    {
        let root_id = root.id.clone();
        let mut blocks: Vec<Block> = Vec::new();
        blocks.push(root);
        let r = Document {
            id: DocId::new(),
            title: title.to_owned(),
            root: root_id,
            version: 0,
            space_id,
            tags: Vec::new(),
            icon: None,
            cover: None,
            blocks,
        };
        assert(r.deep_view().blocks =~= seq![root.deep_view()]);
        assert(r.deep_view().tags =~= seq![]);
        r
    }

    /// Where the block with the identity stands.
    fn position(&self, id: &BlockId) -> (r: Option<usize>)
        ensures
            match r {
                Some(i) => i < self.blocks@.len() && block_at(
                    self.deep_view().blocks,
                    id.deep_view(),
                ) == Some(i as int),
                None => block_at(self.deep_view().blocks, id.deep_view()) is None,
            },
    {
        let ghost bs = self.deep_view().blocks;
        let ghost p = has_id(id.deep_view());
        let mut i: usize = 0;
        while i < self.blocks.len()
            invariant
                i <= self.blocks.len(),
                bs == self.deep_view().blocks,
                p == has_id(id.deep_view()),
                forall|j: int| 0 <= j < i ==> !p(#[trigger] bs[j]),
            decreases self.blocks.len() - i,
        {
            assert(bs[i as int] == self.blocks@[i as int].deep_view());
            if self.blocks[i].id.same(id) {
                proof {
                    crate::seqs::lemma_first_index_is(bs, p, i as int);
                }
                return Some(i);
            }
            i = i + 1;
        }
        proof {
            crate::seqs::lemma_first_index(bs, p);
        }
        None
    }

    /// The block with the identity.
    pub fn block(&self, id: &BlockId) -> (r: Option<&Block>)
        ensures
            match r {
                Some(b) => block_of(self.deep_view().blocks, id.deep_view()) == Some(
                    b.deep_view(),
                ),
                None => block_of(self.deep_view().blocks, id.deep_view()) is None,
            },
    {
        match self.position(id) {
            Some(i) => Some(&self.blocks[i]),
            None => None,
        }
    }

    /// The block with the identity, to be changed in its place.
    pub fn block_mut(&mut self, id: &BlockId) -> (r: Option<&mut Block>)
        ensures
            match r {
                Some(b) => {
                    let at = block_at(old(self).deep_view().blocks, id.deep_view());
                    &&& at is Some
                    &&& 0 <= at->0 < old(self).blocks@.len()
                    &&& *b == old(self).blocks@[at->0]
                    &&& final(self).blocks@ == old(self).blocks@.update(at->0, *final(b))
                    &&& final(self).deep_view() == (DocumentM {
                        blocks: final(self).deep_view().blocks,
                        ..old(self).deep_view()
                    })
                },
                None => block_at(old(self).deep_view().blocks, id.deep_view()) is None
                    && *final(self) == *old(self),
            },
    {
        match self.position(id) {
            Some(i) => Some(&mut self.blocks[i]),
            None => None,
        }
    }

    /// The direct children of a block that are blocks of the document, in
    /// order.
    pub fn children(&self, parent: &BlockId) -> (r: Vec<&Block>)
        ensures
            r@.len() == blocks_of(
                self.deep_view().blocks,
                kids(self.deep_view().blocks, parent.deep_view()),
            ).len(),
            forall|i: int|
                0 <= i < r@.len() ==> (#[trigger] r@[i]).deep_view() == blocks_of(
                    self.deep_view().blocks,
                    kids(self.deep_view().blocks, parent.deep_view()),
                )[i],
    {
        let mut r: Vec<&Block> = Vec::new();
        if let Some(p) = self.block(parent) {
            let ghost bs = self.deep_view().blocks;
            let ghost ids = p.children.deep_view();
            let mut i: usize = 0;
            while i < p.children.len()
                invariant
                    i <= p.children.len(),
                    bs == self.deep_view().blocks,
                    ids == p.children.deep_view(),
                    r@.len() == blocks_of(bs, ids.take(i as int)).len(),
                    forall|k: int|
                        0 <= k < r@.len() ==> (#[trigger] r@[k]).deep_view() == blocks_of(
                            bs,
                            ids.take(i as int),
                        )[k],
                decreases p.children.len() - i,
            {
                assert(ids.take(i + 1).drop_last() =~= ids.take(i as int));
                assert(ids.take(i + 1).last() == p.children@[i as int].deep_view());
                if let Some(b) = self.block(&p.children[i]) {
                    r.push(b);
                }
                i = i + 1;
            }
            assert(ids.take(i as int) =~= ids);
        }
        r
    }

    /// The identities of the blocks under `root` with itself, each before its
    /// children and these in order.
    pub fn descendants(&self, root: &BlockId) -> (r: Vec<BlockId>)
        requires
            grounded(self.deep_view().blocks, root.deep_view()),
        ensures
            r.deep_view() == ids_of(subtree(self.deep_view().blocks, root.deep_view())),
    {
        let blocks = self.walk(root);
        let ghost found = subtree(self.deep_view().blocks, root.deep_view());
        let mut r: Vec<BlockId> = Vec::new();
        let mut i: usize = 0;
        while i < blocks.len()
            invariant
                i <= blocks.len(),
                blocks@.len() == found.len(),
                forall|k: int| 0 <= k < blocks@.len() ==> (#[trigger] blocks@[k]).deep_view()
                    == found[k],
                r@.len() == i,
                forall|k: int| 0 <= k < i ==> (#[trigger] r@[k]).deep_view() == found[k].id,
            decreases blocks.len() - i,
        {
            assert(blocks@[i as int].deep_view() == found[i as int]);
            r.push(blocks[i].id.clone());
            i = i + 1;
        }
        assert(r.deep_view() =~= ids_of(found));
        r
    }

    /// The blocks under `root` with itself, each before its children and these
    /// in order.
    pub fn walk(&self, root: &BlockId) -> (r: Vec<&Block>)
        requires
            grounded(self.deep_view().blocks, root.deep_view()),
        ensures
            r@.len() == subtree(self.deep_view().blocks, root.deep_view()).len(),
            forall|i: int|
                0 <= i < r@.len() ==> (#[trigger] r@[i]).deep_view() == subtree(
                    self.deep_view().blocks,
                    root.deep_view(),
                )[i],
    {
        let mut r: Vec<&Block> = Vec::new();
        self.walk_into(root, &mut r, Ghost(depth(self.deep_view().blocks, root.deep_view())));
        r
    }

    fn walk_into<'a>(&'a self, root: &BlockId, out: &mut Vec<&'a Block>, Ghost(n): Ghost<nat>)
        requires
            bounded(self.deep_view().blocks, root.deep_view(), n),
        ensures
            final(out)@.len() == old(out)@.len() + preorder(
                self.deep_view().blocks,
                root.deep_view(),
                n,
            ).len(),
            forall|k: int| 0 <= k < old(out)@.len() ==> final(out)@[k] == old(out)@[k],
            forall|k: int| #![trigger final(out)@[k]]
                old(out)@.len() <= k < final(out)@.len() ==> final(out)@[k].deep_view()
                    == preorder(self.deep_view().blocks, root.deep_view(), n)[k
                    - old(out)@.len()],
        decreases n,
    {
        let ghost bs = self.deep_view().blocks;
        let ghost start = out@;
        match self.block(root) {
            Some(b) => {
                out.push(b);
                let ghost ids = b.children.deep_view();
                assert(block_of(bs, root.deep_view())->0.children == ids);
                let ghost m = (n - 1) as nat;
                let mut i: usize = 0;
                while i < b.children.len()
                    invariant
                        i <= b.children.len(),
                        bs == self.deep_view().blocks,
                        n > 0,
                        m == n - 1,
                        ids == b.children.deep_view(),
                        forall|k: int| 0 <= k < ids.len() ==> bounded(bs, #[trigger] ids[k], m),
                        out@.len() == start.len() + 1 + preorders(bs, ids.take(i as int), m).len(),
                        forall|k: int| 0 <= k < start.len() ==> out@[k] == start[k],
                        out@[start.len() as int].deep_view() == b.deep_view(),
                        forall|k: int| #![trigger out@[k]]
                            start.len() + 1 <= k < out@.len() ==> out@[k].deep_view() == preorders(
                                bs,
                                ids.take(i as int),
                                m,
                            )[k - start.len() - 1],
                    decreases b.children.len() - i,
                {
                    assert(ids.take(i + 1).drop_last() =~= ids.take(i as int));
                    assert(ids.take(i + 1).last() == ids[i as int]);
                    assert(ids[i as int] == b.children@[i as int].deep_view());
                    self.walk_into(&b.children[i], out, Ghost(m));
                    i = i + 1;
                }
                assert(ids.take(i as int) =~= ids);
            },
            None => {},
        }
    }

    /// The identity of the last child of a block.
    pub fn last_child(&self, parent: &BlockId) -> (r: Option<BlockId>)
        ensures
            ({
                let ids = kids(self.deep_view().blocks, parent.deep_view());
                r.deep_view() == if ids.len() > 0 {
                    Some(ids.last())
                } else {
                    None
                }
            }),
    {
        match self.block(parent) {
            Some(p) => {
                if p.children.len() > 0 {
                    Some(p.children[p.children.len() - 1].clone())
                } else {
                    None
                }
            },
            None => None,
        }
    }

    /// When the document last changed: the latest time of a block, or now if
    /// there is no block.
    pub fn updated_at(&self) -> (r: Timestamp)
        ensures
            self.blocks@.len() > 0 ==> latest(self.deep_view().blocks, r),
    {
        match self.latest_change() {
            Some(t) => t,
            None => Timestamp::now(),
        }
    }

    /// The latest time at which a block changed, if there is a block.
    pub fn latest_change(&self) -> (r: Option<Timestamp>)
        ensures
            match r {
                Some(t) => latest(self.deep_view().blocks, t),
                None => self.blocks@.len() == 0,
            },
    {
        let ghost bs = self.deep_view().blocks;
        if self.blocks.len() == 0 {
            return None;
        }
        let mut best = self.blocks[0].meta.updated_at;
        let mut i: usize = 1;
        assert(bs.take(1)[0] == self.blocks@[0].deep_view());
        while i < self.blocks.len()
            invariant
                1 <= i <= self.blocks.len(),
                bs == self.deep_view().blocks,
                latest(bs.take(i as int), best),
            decreases self.blocks.len() - i,
        {
            let t = self.blocks[i].meta.updated_at;
            assert(bs[i as int] == self.blocks@[i as int].deep_view());
            let ghost w = choose|w: int|
                0 <= w < i && (#[trigger] bs.take(i as int)[w]).meta.updated_at == best;
            assert(bs.take(i as int)[w].meta.updated_at == best);
            assert forall|k: int| 0 <= k < i implies #[trigger] bs.take(i + 1)[k] == bs.take(
                i as int,
            )[k] by {}
            assert(bs.take(i + 1)[i as int] == bs[i as int]);
            assert(bs.take(i + 1)[w].meta.updated_at == best);
            assert forall|k: int| 0 <= k < i implies !earlier(
                best,
                (#[trigger] bs.take(i + 1)[k]).meta.updated_at,
            ) by {
                assert(bs.take(i as int)[k] == bs[k]);
            }
            if best.before(t) {
                best = t;
            }
            i = i + 1;
        }
        assert(bs.take(i as int) =~= bs);
        Some(best)
    }

    /// Whether `node` is `top` or hangs under it.
    fn is_descendant_of(&self, node: &BlockId, top: &BlockId, Ghost(n): Ghost<nat>) -> (r: bool)
        requires
            bounded(self.deep_view().blocks, top.deep_view(), n),
        ensures
            r == under(self.deep_view().blocks, node.deep_view(), top.deep_view(), n),
        decreases n,
    {
        let ghost bs = self.deep_view().blocks;
        if node.same(top) {
            return true;
        }
        match self.block(top) {
            Some(a) => {
                let ghost ids = kids(bs, top.deep_view());
                let mut i: usize = 0;
                while i < a.children.len()
                    invariant
                        i <= a.children.len(),
                        n > 0,
                        bs == self.deep_view().blocks,
                        ids == kids(bs, top.deep_view()),
                        ids == a.children.deep_view(),
                        node.deep_view() != top.deep_view(),
                        forall|k: int|
                            0 <= k < ids.len() ==> bounded(bs, #[trigger] ids[k], (n - 1) as nat),
                        forall|k: int|
                            0 <= k < i ==> !under(
                                bs,
                                node.deep_view(),
                                #[trigger] ids[k],
                                (n - 1) as nat,
                            ),
                    decreases a.children.len() - i,
                {
                    assert(ids[i as int] == a.children@[i as int].deep_view());
                    if self.is_descendant_of(node, &a.children[i], Ghost((n - 1) as nat)) {
                        return true;
                    }
                    i = i + 1;
                }
                false
            },
            None => false,
        }
    }
}

/// A document whose only block is `root`.
pub open spec fn new_document(
    id: Seq<char>,
    title: Seq<char>,
    root: BlockM,
    space_id: Seq<char>,
) -> DocumentM {
    DocumentM {
        id,
        title,
        root: root.id,
        version: 0,
        space_id,
        tags: seq![],
        icon: None,
        cover: None,
        blocks: seq![root],
    }
}

/// `t` is the latest time at which one of the blocks changed.
pub open spec fn latest(bs: Seq<BlockM>, t: Timestamp) -> bool {
    &&& exists|i: int| 0 <= i < bs.len() && (#[trigger] bs[i]).meta.updated_at == t
    &&& forall|i: int| 0 <= i < bs.len() ==> !earlier(t, (#[trigger] bs[i]).meta.updated_at)
}


// ---- Operations ------------------------------------------------------------

/// The blocks with the children of one of them replaced.
pub open spec fn with_children(bs: Seq<BlockM>, i: int, ids: Seq<Seq<char>>) -> Seq<BlockM> {
    bs.update(i, BlockM { children: ids, ..bs[i] })
}

/// `child` hung under `parent`, behind `after` or in front of all.
pub open spec fn placed(
    bs: Seq<BlockM>,
    parent: Seq<char>,
    child: Seq<char>,
    after: Option<Seq<char>>,
) -> (Seq<BlockM>, Result<(), WikiErrorM>) {
    match block_at(bs, parent) {
        None => (bs, Err(WikiErrorM::NotFound("parent block "@ + parent))),
        Some(i) => {
            let rest = without(bs[i].children, child);
            match after {
                None => (with_children(bs, i, rest.insert(0, child)), Ok(())),
                Some(a) => match index_in(rest, a) {
                    Some(k) => (with_children(bs, i, rest.insert(k + 1, child)), Ok(())),
                    None => (
                        with_children(bs, i, rest),
                        Err(WikiErrorM::Invalid("after block "@ + a + " not under parent"@)),
                    ),
                },
            }
        },
    }
}

/// The blocks with `id` taken out of the children of its parent.
pub open spec fn detached(bs: Seq<BlockM>, id: Seq<char>) -> Seq<BlockM> {
    match block_of(bs, id) {
        Some(b) => match b.parent {
            Some(p) => match block_at(bs, p) {
                Some(i) => with_children(bs, i, without(bs[i].children, id)),
                None => bs,
            },
            None => bs,
        },
        None => bs,
    }
}

/// Whether the identity of a block is none of the given ones.
pub open spec fn not_among(ids: Seq<Seq<char>>) -> spec_fn(BlockM) -> bool {
    |b: BlockM| !ids.contains(b.id)
}

pub open spec fn inserted(
    d: DocumentM,
    parent: Seq<char>,
    after: Option<Seq<char>>,
    block: BlockM,
) -> (DocumentM, Result<(), WikiErrorM>) {
    if block_at(d.blocks, parent) is None {
        (d, Err(WikiErrorM::NotFound("parent block "@ + parent)))
    } else if block_at(d.blocks, block.id) is Some {
        (d, Err(WikiErrorM::Invalid("block "@ + block.id + " already exists"@)))
    } else {
        let (bs, r) = placed(
            d.blocks.push(BlockM { parent: Some(parent), ..block }),
            parent,
            block.id,
            after,
        );
        (DocumentM { blocks: bs, ..d }, r)
    }
}

pub open spec fn updated(d: DocumentM, id: Seq<char>, patch: Json, now: Timestamp) -> (
    DocumentM,
    Result<(), WikiErrorM>,
) {
    match block_at(d.blocks, id) {
        None => (d, Err(WikiErrorM::NotFound("block "@ + id))),
        Some(i) => {
            let b = BlockM { content: merged(d.blocks[i].content, patch), ..d.blocks[i] };
            (DocumentM { blocks: d.blocks.update(i, bumped(b, now)), ..d }, Ok(()))
        },
    }
}

pub open spec fn deleted(d: DocumentM, id: Seq<char>) -> (DocumentM, Result<(), WikiErrorM>) {
    if id == d.root {
        (d, Err(WikiErrorM::Invalid("cannot delete root block"@)))
    } else if block_at(d.blocks, id) is None {
        (d, Err(WikiErrorM::NotFound("block "@ + id)))
    } else {
        let gone = ids_of(subtree(d.blocks, id));
        (DocumentM { blocks: keep(detached(d.blocks, id), not_among(gone)), ..d }, Ok(()))
    }
}

pub open spec fn moved(
    d: DocumentM,
    id: Seq<char>,
    new_parent: Seq<char>,
    after: Option<Seq<char>>,
) -> (DocumentM, Result<(), WikiErrorM>) {
    if id == d.root {
        (d, Err(WikiErrorM::Invalid("cannot move root block"@)))
    } else if block_at(d.blocks, id) is None {
        (d, Err(WikiErrorM::NotFound("block "@ + id)))
    } else if block_at(d.blocks, new_parent) is None {
        (d, Err(WikiErrorM::NotFound("new parent "@ + new_parent)))
    } else if hangs_under(d.blocks, new_parent, id) {
        (d, Err(WikiErrorM::Invalid("cannot move a block into its own subtree"@)))
    } else {
        let (bs, r) = placed(reparented(d.blocks, id, new_parent), new_parent, id, after);
        (DocumentM { blocks: bs, ..d }, r)
    }
}

/// The blocks with `id` taken from its parent and its parent set anew.
pub open spec fn reparented(bs: Seq<BlockM>, id: Seq<char>, new_parent: Seq<char>) -> Seq<BlockM> {
    let free = detached(bs, id);
    match block_at(free, id) {
        Some(i) => free.update(i, BlockM { parent: Some(new_parent), ..free[i] }),
        None => free,
    }
}

/// The document with title, icon, cover and tags taken from a patch, each as
/// far as the patch holds one.
pub open spec fn meta_patched(d: DocumentM, patch: Json) -> DocumentM {
    DocumentM {
        title: match text_of(member(patch, "title"@)) {
            Some(t) => t,
            None => d.title,
        },
        icon: match text_of(member(patch, "icon"@)) {
            Some(t) => Some(t),
            None => d.icon,
        },
        cover: match text_of(member(patch, "cover"@)) {
            Some(t) => Some(t),
            None => d.cover,
        },
        tags: match member(patch, "tags"@) {
            Some(Json::Array(a)) => crate::json::strings_of(a),
            _ => d.tags,
        },
        ..d
    }
}

/// The document after an operation, its version not yet counted, and whether
/// the operation was accepted.
pub open spec fn changed(d: DocumentM, op: OpM, now: Timestamp) -> (
    DocumentM,
    Result<(), WikiErrorM>,
) {
    match op {
        OpM::InsertBlock { parent, after, block } => inserted(d, parent, after, block),
        OpM::UpdateBlock { id, patch } => updated(d, id, patch, now),
        OpM::DeleteBlock { id } => deleted(d, id),
        OpM::MoveBlock { id, new_parent, after } => moved(d, id, new_parent, after),
        OpM::UpdateDocMeta { doc_id, patch } => if doc_id != d.id {
            (d, Err(WikiErrorM::Invalid("doc meta op targets "@ + doc_id + ", not "@ + d.id)))
        } else {
            (meta_patched(d, patch), Ok(()))
        },
    }
}

/// The document after an operation, and whether the operation was accepted.
pub open spec fn applied(d: DocumentM, op: OpM, now: Timestamp) -> (
    DocumentM,
    Result<(), WikiErrorM>,
) {
    let (e, r) = changed(d, op, now);
    match r {
        Ok(_) => (DocumentM { version: (e.version + 1) as u64, ..e }, r),
        Err(_) => (e, r),
    }
}

/// The versions can still count, and the part of the document that the
/// operation walks through is free of cycles.
pub open spec fn can_apply(d: DocumentM, op: OpM) -> bool {
    &&& d.version < u64::MAX
    &&& match op {
        OpM::UpdateBlock { id, .. } => block_of(d.blocks, id) matches Some(b) ==> b.version
            < u64::MAX,
        OpM::DeleteBlock { id } => grounded(d.blocks, id),
        OpM::MoveBlock { id, .. } => grounded(d.blocks, id),
        _ => true,
    }
}

impl Document {
    /// Replaces the children of the block at a place.
    fn set_children(&mut self, i: usize, ids: Vec<BlockId>)
        requires
            i < old(self).blocks@.len(),
        ensures
            final(self).deep_view() == (DocumentM {
                blocks: with_children(old(self).deep_view().blocks, i as int, ids.deep_view()),
                ..old(self).deep_view()
            }),
    {
        let ghost before = self.deep_view();
        self.blocks[i].children = ids;
        assert(self.deep_view().blocks =~= with_children(
            before.blocks,
            i as int,
            ids.deep_view(),
        ));
    }

    fn place_child(
        &mut self,
        parent: &BlockId,
        child: &BlockId,
        after: Option<&BlockId>,
    ) -> (r: Result<(), WikiError>)
        ensures
            ({
                let a: Option<Seq<char>> = match after {
                    Some(x) => Some(x.deep_view()),
                    None => None,
                };
                let (bs, o) = placed(
                    old(self).deep_view().blocks,
                    parent.deep_view(),
                    child.deep_view(),
                    a,
                );
                &&& final(self).deep_view() == (DocumentM { blocks: bs, ..old(self).deep_view() })
                &&& outcome(r) == o
            }),
    {
        match self.position(parent) {
            None => Err(WikiError::NotFound(cat("parent block ", parent.as_str()))),
            Some(i) => {
                let mut rest = drop_id(&self.blocks[i].children, child);
                match after {
                    None => {
                        let ghost ids = rest.deep_view();
                        rest.insert(0, child.clone());
                        assert(rest.deep_view() =~= ids.insert(0, child.deep_view()));
                        self.set_children(i, rest);
                        Ok(())
                    },
                    Some(a) => match find_id(&rest, a) {
                        Some(k) => {
                            let ghost ids = rest.deep_view();
                            proof {
                                crate::seqs::lemma_index_in(ids, a.deep_view());
                            }
                            assert(k < rest.len());
                            rest.insert(k + 1, child.clone());
                            assert(rest.deep_view() =~= ids.insert(k + 1, child.deep_view()));
                            self.set_children(i, rest);
                            Ok(())
                        },
                        None => {
                            self.set_children(i, rest);
                            Err(
                                WikiError::Invalid(
                                    cat3("after block ", a.as_str(), " not under parent"),
                                ),
                            )
                        },
                    },
                }
            },
        }
    }

    /// Takes a block out of the children of its parent.
    fn detach(&mut self, id: &BlockId)
        ensures
            final(self).deep_view() == (DocumentM {
                blocks: detached(old(self).deep_view().blocks, id.deep_view()),
                ..old(self).deep_view()
            }),
    {
        let parent = match self.block(id) {
            Some(b) => b.parent.clone(),
            None => None,
        };
        if let Some(p) = parent {
            if let Some(i) = self.position(&p) {
                let rest = drop_id(&self.blocks[i].children, id);
                self.set_children(i, rest);
            }
        }
    }

    /// Removes the blocks with the given identities.
    fn remove_all(&mut self, gone: &Vec<BlockId>)
        ensures
            final(self).deep_view() == (DocumentM {
                blocks: keep(old(self).deep_view().blocks, not_among(gone.deep_view())),
                ..old(self).deep_view()
            }),
    {
        let ghost bs = self.deep_view().blocks;
        let ghost p = not_among(gone.deep_view());
        let mut left: Vec<Block> = Vec::new();
        let mut i: usize = 0;
        assert(left.deep_view() =~= keep(bs.take(0), p));
        while i < self.blocks.len()
            invariant
                i <= self.blocks.len(),
                bs == self.deep_view().blocks,
                p == not_among(gone.deep_view()),
                left.deep_view() == keep(bs.take(i as int), p),
            decreases self.blocks.len() - i,
        {
            proof {
                crate::seqs::lemma_keep_step(bs, p, i as int);
                crate::seqs::lemma_index_in(gone.deep_view(), bs[i as int].id);
            }
            let ghost done = left.deep_view();
            if find_id(gone, &self.blocks[i].id).is_none() {
                left.push(self.blocks[i].clone());
                assert(left.deep_view() =~= done.push(bs[i as int]));
            }
            i = i + 1;
        }
        assert(bs.take(i as int) =~= bs);
        self.blocks = left;
    }

    fn apply_doc_meta(&mut self, patch: &JsonValue)
        ensures
            final(self).deep_view() == meta_patched(old(self).deep_view(), patch.deep_view()),
    {
        if let Some(t) = patch.get_str("title") {
            self.title = t.to_owned();
        }
        if let Some(t) = patch.get_str("icon") {
            self.icon = Some(t.to_owned());
        }
        if let Some(t) = patch.get_str("cover") {
            self.cover = Some(t.to_owned());
        }
        if let Some(v) = patch.get("tags") {
            if let Some(a) = v.as_array() {
                self.tags = crate::json::string_items(a);
            }
        }
    }

    /// Applies an operation at the given time. A refused operation leaves the
    /// version as it was; where only the place among the siblings was wrong,
    /// the block has already been taken from its old place.
    pub fn apply_at(&mut self, op: Op, now: Timestamp) -> (r: Result<(), WikiError>)
        requires
            can_apply(old(self).deep_view(), op.deep_view()),
        ensures
            (final(self).deep_view(), outcome(r)) == applied(
                old(self).deep_view(),
                op.deep_view(),
                now,
            ),
    {
        let ghost d = self.deep_view();
        match op {
            Op::InsertBlock { parent, after, block } => {
                if self.position(&parent).is_none() {
                    return Err(WikiError::NotFound(cat("parent block ", parent.as_str())));
                }
                if self.position(&block.id).is_some() {
                    return Err(
                        WikiError::Invalid(cat3("block ", block.id.as_str(), " already exists")),
                    );
                }
                let child_id = block.id.clone();
                let mut block = block;
                block.parent = Some(parent.clone());
                self.blocks.push(block);
                assert(self.deep_view().blocks =~= d.blocks.push(block.deep_view()));
                match &after {
                    Some(a) => {
                        let placed = self.place_child(&parent, &child_id, Some(a));
                        if placed.is_err() {
                            return placed;
                        }
                    },
                    None => {
                        let placed = self.place_child(&parent, &child_id, None);
                        if placed.is_err() {
                            return placed;
                        }
                    },
                }
            },
            Op::UpdateBlock { id, patch } => {
                match self.position(&id) {
                    None => {
                        return Err(WikiError::NotFound(cat("block ", id.as_str())));
                    },
                    Some(i) => {
                        let mut block = self.blocks[i].clone();
                        block.content.0.merge(&patch);
                        block.bump_version_at(now);
                        self.blocks.set(i, block);
                        assert(self.deep_view().blocks =~= d.blocks.update(
                            i as int,
                            block.deep_view(),
                        ));
                    },
                }
            },
            Op::DeleteBlock { id } => {
                if id.same(&self.root) {
                    return Err(WikiError::Invalid("cannot delete root block".to_owned()));
                }
                if self.position(&id).is_none() {
                    return Err(WikiError::NotFound(cat("block ", id.as_str())));
                }
                let gone = self.descendants(&id);
                self.detach(&id);
                self.remove_all(&gone);
            },
            Op::MoveBlock { id, new_parent, after } => {
                if id.same(&self.root) {
                    return Err(WikiError::Invalid("cannot move root block".to_owned()));
                }
                if self.position(&id).is_none() {
                    return Err(WikiError::NotFound(cat("block ", id.as_str())));
                }
                if self.position(&new_parent).is_none() {
                    return Err(WikiError::NotFound(cat("new parent ", new_parent.as_str())));
                }
                if self.is_descendant_of(
                    &new_parent,
                    &id,
                    Ghost(depth(d.blocks, id.deep_view())),
                ) {
                    return Err(
                        WikiError::Invalid("cannot move a block into its own subtree".to_owned()),
                    );
                }
                self.detach(&id);
                let ghost free = self.deep_view().blocks;
                if let Some(i) = self.position(&id) {
                    self.blocks[i].parent = Some(new_parent.clone());
                    assert(self.deep_view().blocks =~= free.update(
                        i as int,
                        BlockM { parent: Some(new_parent.deep_view()), ..free[i as int] },
                    ));
                }
                match &after {
                    Some(a) => {
                        let placed = self.place_child(&new_parent, &id, Some(a));
                        if placed.is_err() {
                            return placed;
                        }
                    },
                    None => {
                        let placed = self.place_child(&new_parent, &id, None);
                        if placed.is_err() {
                            return placed;
                        }
                    },
                }
            },
            Op::UpdateDocMeta { doc_id, patch } => {
                if !doc_id.same(&self.id) {
                    let head = cat3("doc meta op targets ", doc_id.as_str(), ", not ");
                    return Err(WikiError::Invalid(cat(head.as_str(), self.id.as_str())));
                }
                self.apply_doc_meta(&patch);
            },
        }
        self.version = self.version + 1;
        Ok(())
    }

    /// Applies an operation now.
    pub fn apply(&mut self, op: Op) -> (r: Result<(), WikiError>)
        requires
            can_apply(old(self).deep_view(), op.deep_view()),
        ensures
            exists|now: Timestamp|
                (final(self).deep_view(), outcome(r)) == #[trigger] applied(
                    old(self).deep_view(),
                    op.deep_view(),
                    now,
                ),
    {
        let now = Timestamp::now();
        let ghost o = op.deep_view();
        let r = self.apply_at(op, now);
        assert((self.deep_view(), outcome(r)) == applied(old(self).deep_view(), o, now));
        r
    }
}

} // verus!
