//! The blocks of a page: pieces of Markdown, and structured blocks that form
//! trees.

use vstd::prelude::*;

use crate::float::F32;
use crate::ids::{uuid_text, BlockId};
use crate::json::{all_text, compact, Json, JsonValue};
use crate::page::markdown::{ast_to_string, tree_text};
use crate::seqs::{first_index, keep, without};
use crate::text::{cat3, same};
use crate::time::Timestamp;
use crate::tree::block::{BlockMeta, BlockMetaM};

verus! {

broadcast use vstd::std_specs::vec::group_vec_axioms;

/// The kinds of structured block.
#[derive(Debug, PartialEq)]
pub enum CustomBlockType {
    SmartTable,
    Workflow,
    Mindmap,
    AudioPlayer,
    VideoPlayer,
    Artwork,
    Playlist,
    Mermaid,
    Custom(String),
}

/// What a `CustomBlockType` holds.
#[verifier::ext_equal]
pub enum CustomBlockTypeM {
    SmartTable,
    Workflow,
    Mindmap,
    AudioPlayer,
    VideoPlayer,
    Artwork,
    Playlist,
    Mermaid,
    Custom(Seq<char>),
}

impl DeepView for CustomBlockType {
    type V = CustomBlockTypeM;

    open spec fn deep_view(&self) -> CustomBlockTypeM {
        match self {
            CustomBlockType::SmartTable => CustomBlockTypeM::SmartTable,
            CustomBlockType::Workflow => CustomBlockTypeM::Workflow,
            CustomBlockType::Mindmap => CustomBlockTypeM::Mindmap,
            CustomBlockType::AudioPlayer => CustomBlockTypeM::AudioPlayer,
            CustomBlockType::VideoPlayer => CustomBlockTypeM::VideoPlayer,
            CustomBlockType::Artwork => CustomBlockTypeM::Artwork,
            CustomBlockType::Playlist => CustomBlockTypeM::Playlist,
            CustomBlockType::Mermaid => CustomBlockTypeM::Mermaid,
            CustomBlockType::Custom(x) => CustomBlockTypeM::Custom(x.deep_view()),
        }
    }
}

impl Clone for CustomBlockType {
    fn clone(&self) -> (r: Self)
        ensures
            r.deep_view() == self.deep_view(),
    {
        match self {
            CustomBlockType::SmartTable => CustomBlockType::SmartTable,
            CustomBlockType::Workflow => CustomBlockType::Workflow,
            CustomBlockType::Mindmap => CustomBlockType::Mindmap,
            CustomBlockType::AudioPlayer => CustomBlockType::AudioPlayer,
            CustomBlockType::VideoPlayer => CustomBlockType::VideoPlayer,
            CustomBlockType::Artwork => CustomBlockType::Artwork,
            CustomBlockType::Playlist => CustomBlockType::Playlist,
            CustomBlockType::Mermaid => CustomBlockType::Mermaid,
            CustomBlockType::Custom(x) => CustomBlockType::Custom(x.clone()),
        }
    }
}

/// The name of a kind.
pub open spec fn kind_name(t: CustomBlockTypeM) -> Seq<char> {
    match t {
        CustomBlockTypeM::SmartTable => "SmartTable"@,
        CustomBlockTypeM::Workflow => "Workflow"@,
        CustomBlockTypeM::Mindmap => "Mindmap"@,
        CustomBlockTypeM::AudioPlayer => "AudioPlayer"@,
        CustomBlockTypeM::VideoPlayer => "VideoPlayer"@,
        CustomBlockTypeM::Artwork => "Artwork"@,
        CustomBlockTypeM::Playlist => "Playlist"@,
        CustomBlockTypeM::Mermaid => "Mermaid"@,
        CustomBlockTypeM::Custom(s) => s,
    }
}

/// The kind with a name.
pub open spec fn named_type(s: Seq<char>) -> CustomBlockTypeM {
    if s == "SmartTable"@ {
        CustomBlockTypeM::SmartTable
    } else if s == "Workflow"@ {
        CustomBlockTypeM::Workflow
    } else if s == "Mindmap"@ {
        CustomBlockTypeM::Mindmap
    } else if s == "AudioPlayer"@ {
        CustomBlockTypeM::AudioPlayer
    } else if s == "VideoPlayer"@ {
        CustomBlockTypeM::VideoPlayer
    } else if s == "Artwork"@ {
        CustomBlockTypeM::Artwork
    } else if s == "Playlist"@ {
        CustomBlockTypeM::Playlist
    } else if s == "Mermaid"@ {
        CustomBlockTypeM::Mermaid
    } else {
        CustomBlockTypeM::Custom(s)
    }
}

/// A name is the name of the kind it gives.
pub proof fn law_kind_name_round_trip(s: Seq<char>)
    ensures
        kind_name(named_type(s)) == s,
{
}

impl CustomBlockType {
    pub fn as_str(&self) -> (r: &str)
        ensures
            r@ == kind_name(self.deep_view()),
    {
        match self {
            CustomBlockType::SmartTable => "SmartTable",
            CustomBlockType::Workflow => "Workflow",
            CustomBlockType::Mindmap => "Mindmap",
            CustomBlockType::AudioPlayer => "AudioPlayer",
            CustomBlockType::VideoPlayer => "VideoPlayer",
            CustomBlockType::Artwork => "Artwork",
            CustomBlockType::Playlist => "Playlist",
            CustomBlockType::Mermaid => "Mermaid",
            CustomBlockType::Custom(s) => s.as_str(),
        }
    }

    pub fn from_str(s: &str) -> (r: CustomBlockType)
        ensures
            r.deep_view() == named_type(s@),
    {
        if same(s, "SmartTable") {
            CustomBlockType::SmartTable
        } else if same(s, "Workflow") {
            CustomBlockType::Workflow
        } else if same(s, "Mindmap") {
            CustomBlockType::Mindmap
        } else if same(s, "AudioPlayer") {
            CustomBlockType::AudioPlayer
        } else if same(s, "VideoPlayer") {
            CustomBlockType::VideoPlayer
        } else if same(s, "Artwork") {
            CustomBlockType::Artwork
        } else if same(s, "Playlist") {
            CustomBlockType::Playlist
        } else if same(s, "Mermaid") {
            CustomBlockType::Mermaid
        } else {
            CustomBlockType::Custom(s.to_owned())
        }
    }
}

/// A piece of Markdown with its syntax tree.
#[derive(Debug, PartialEq)]
pub struct MarkdownBlock {
    pub id: BlockId,
    pub ast: JsonValue,
    pub node_type: String,
    pub raw: String,
    pub version: u64,
    pub embedding: Option<Vec<F32>>,
    pub embedding_version: u64,
    pub meta: BlockMeta,
}

/// What a `MarkdownBlock` holds.
#[verifier::ext_equal]
pub struct MarkdownBlockM {
    pub id: Seq<char>,
    pub ast: Json,
    pub node_type: Seq<char>,
    pub raw: Seq<char>,
    pub version: u64,
    pub embedding: Option<Seq<F32>>,
    pub embedding_version: u64,
    pub meta: BlockMetaM,
}

impl DeepView for MarkdownBlock {
    type V = MarkdownBlockM;

    open spec fn deep_view(&self) -> MarkdownBlockM {
        MarkdownBlockM {
            id: self.id.deep_view(),
            ast: self.ast.deep_view(),
            node_type: self.node_type.deep_view(),
            raw: self.raw.deep_view(),
            version: self.version,
            embedding: self.embedding.deep_view(),
            embedding_version: self.embedding_version,
            meta: self.meta.deep_view(),
        }
    }
}

impl Clone for MarkdownBlock {
    fn clone(&self) -> (r: Self)
        ensures
            r.deep_view() == self.deep_view(),
    {
        MarkdownBlock {
            id: self.id.clone(),
            ast: self.ast.clone(),
            node_type: self.node_type.clone(),
            raw: self.raw.clone(),
            version: self.version,
            embedding: self.embedding.clone(),
            embedding_version: self.embedding_version,
            meta: self.meta.clone(),
        }
    }
}

/// A structured block.
#[derive(Debug, PartialEq)]
pub struct CustomBlock {
    pub id: BlockId,
    pub ty: CustomBlockType,
    pub data: JsonValue,
    pub raw: String,
    /// The children, in order.
    pub children: Vec<BlockId>,
    /// The parent, if the block is not at the top.
    pub parent: Option<BlockId>,
    pub version: u64,
    pub embedding: Option<Vec<F32>>,
    pub embedding_version: u64,
    pub meta: BlockMeta,
}

/// What a `CustomBlock` holds.
#[verifier::ext_equal]
pub struct CustomBlockM {
    pub id: Seq<char>,
    pub ty: CustomBlockTypeM,
    pub data: Json,
    pub raw: Seq<char>,
    pub children: Seq<Seq<char>>,
    pub parent: Option<Seq<char>>,
    pub version: u64,
    pub embedding: Option<Seq<F32>>,
    pub embedding_version: u64,
    pub meta: BlockMetaM,
}

impl DeepView for CustomBlock {
    type V = CustomBlockM;

    open spec fn deep_view(&self) -> CustomBlockM {
        CustomBlockM {
            id: self.id.deep_view(),
            ty: self.ty.deep_view(),
            data: self.data.deep_view(),
            raw: self.raw.deep_view(),
            children: self.children.deep_view(),
            parent: self.parent.deep_view(),
            version: self.version,
            embedding: self.embedding.deep_view(),
            embedding_version: self.embedding_version,
            meta: self.meta.deep_view(),
        }
    }
}

impl Clone for CustomBlock {
    fn clone(&self) -> (r: Self)
        ensures
            r.deep_view() == self.deep_view(),
    {
        CustomBlock {
            id: self.id.clone(),
            ty: self.ty.clone(),
            data: self.data.clone(),
            raw: self.raw.clone(),
            children: self.children.clone(),
            parent: self.parent.clone(),
            version: self.version,
            embedding: self.embedding.clone(),
            embedding_version: self.embedding_version,
            meta: self.meta.clone(),
        }
    }
}

/// A block of a page.
#[derive(Debug, PartialEq)]
pub enum Block {
    Markdown(MarkdownBlock),
    Custom(CustomBlock),
}

/// What a `Block` holds.
#[verifier::ext_equal]
pub enum BlockM {
    Markdown(MarkdownBlockM),
    Custom(CustomBlockM),
}

impl DeepView for Block {
    type V = BlockM;

    open spec fn deep_view(&self) -> BlockM {
        match self {
            Block::Markdown(x) => BlockM::Markdown(x.deep_view()),
            Block::Custom(x) => BlockM::Custom(x.deep_view()),
        }
    }
}

impl Clone for Block {
    fn clone(&self) -> (r: Self)
        ensures
            r.deep_view() == self.deep_view(),
    {
        match self {
            Block::Markdown(x) => Block::Markdown(x.clone()),
            Block::Custom(x) => Block::Custom(x.clone()),
        }
    }
}

// ---- Parts of a block ------------------------------------------------------

impl BlockM {
    pub open spec fn id(self) -> Seq<char> {
        match self {
            BlockM::Markdown(b) => b.id,
            BlockM::Custom(b) => b.id,
        }
    }

    pub open spec fn version(self) -> u64 {
        match self {
            BlockM::Markdown(b) => b.version,
            BlockM::Custom(b) => b.version,
        }
    }

    pub open spec fn children(self) -> Seq<Seq<char>> {
        match self {
            BlockM::Markdown(_) => seq![],
            BlockM::Custom(b) => b.children,
        }
    }

    pub open spec fn parent(self) -> Option<Seq<char>> {
        match self {
            BlockM::Markdown(_) => None,
            BlockM::Custom(b) => b.parent,
        }
    }

    pub open spec fn embedding(self) -> Option<Seq<F32>> {
        match self {
            BlockM::Markdown(b) => b.embedding,
            BlockM::Custom(b) => b.embedding,
        }
    }

    pub open spec fn embedding_version(self) -> u64 {
        match self {
            BlockM::Markdown(b) => b.embedding_version,
            BlockM::Custom(b) => b.embedding_version,
        }
    }

    pub open spec fn stale(self) -> bool {
        self.embedding() is Some && self.embedding_version() < self.version()
    }

    /// The block one version later.
    pub open spec fn bumped(self, now: Timestamp) -> BlockM {
        match self {
            BlockM::Markdown(b) => BlockM::Markdown(
                MarkdownBlockM {
                    version: (b.version + 1) as u64,
                    meta: BlockMetaM { updated_at: now, ..b.meta },
                    ..b
                },
            ),
            BlockM::Custom(b) => BlockM::Custom(
                CustomBlockM {
                    version: (b.version + 1) as u64,
                    meta: BlockMetaM { updated_at: now, ..b.meta },
                    ..b
                },
            ),
        }
    }

    /// The block with other children; Markdown has none.
    pub open spec fn with_children(self, ids: Seq<Seq<char>>) -> BlockM {
        match self {
            BlockM::Markdown(_) => self,
            BlockM::Custom(b) => BlockM::Custom(CustomBlockM { children: ids, ..b }),
        }
    }

    /// The block with another parent; Markdown has none.
    pub open spec fn with_parent(self, parent: Option<Seq<char>>) -> BlockM {
        match self {
            BlockM::Markdown(_) => self,
            BlockM::Custom(b) => BlockM::Custom(CustomBlockM { parent, ..b }),
        }
    }

    /// The text of the block.
    pub open spec fn plain_text(self) -> Seq<char> {
        match self {
            BlockM::Markdown(b) => match tree_text(b.raw) {
                Some(t) => t,
                None => b.raw,
            },
            BlockM::Custom(b) => all_text(b.data),
        }
    }

    /// The block as it is written into a page.
    pub open spec fn diffable_text(self) -> Seq<char> {
        match self {
            BlockM::Markdown(b) => b.raw,
            BlockM::Custom(b) => "<"@ + kind_name(b.ty) + " data="@ + compact(b.data) + " />\n"@,
        }
    }
}

impl Block {
    pub fn markdown(ast: JsonValue, node_type: &str, raw: &str, author: &str) -> (r: Block)
        ensures
            r matches Block::Markdown(b) && {
                &&& uuid_text(b.id.deep_view(), '7')
                &&& b.ast.deep_view() == ast.deep_view()
                &&& b.node_type@ == node_type@
                &&& b.raw@ == raw@
                &&& b.version == 0
                &&& b.embedding is None
                &&& b.embedding_version == 0
                &&& b.meta.created_by@ == author@
                &&& b.meta.updated_at == b.meta.created_at
            },
    {
        Block::Markdown(
            MarkdownBlock {
                id: BlockId::new(),
                ast,
                node_type: node_type.to_owned(),
                raw: raw.to_owned(),
                version: 0,
                embedding: None,
                embedding_version: 0,
                meta: BlockMeta::new(author),
            },
        )
    }

    fn structured(
        ty: CustomBlockType,
        data: JsonValue,
        raw: &str,
        author: &str,
        parent: Option<BlockId>,
    ) -> (r: Block)
        ensures
            fresh_custom(
                r,
                ty.deep_view(),
                data.deep_view(),
                raw@,
                author@,
                parent.deep_view(),
            ),
    {
        Block::Custom(
            CustomBlock {
                id: BlockId::new(),
                ty,
                data,
                raw: raw.to_owned(),
                children: Vec::new(),
                parent,
                version: 0,
                embedding: None,
                embedding_version: 0,
                meta: BlockMeta::new(author),
            },
        )
    }

    pub fn custom(ty: CustomBlockType, data: JsonValue, raw: &str, author: &str) -> (r: Block)
        ensures
            fresh_custom(r, ty.deep_view(), data.deep_view(), raw@, author@, None),
    {
        Block::structured(ty, data, raw, author, None)
    }

    pub fn custom_with_parent(
        ty: CustomBlockType,
        data: JsonValue,
        raw: &str,
        author: &str,
        parent: BlockId,
    ) -> (r: Block)
        ensures
            fresh_custom(
                r,
                ty.deep_view(),
                data.deep_view(),
                raw@,
                author@,
                Some(parent.deep_view()),
            ),
    {
        Block::structured(ty, data, raw, author, Some(parent))
    }

    pub fn id(&self) -> (r: &BlockId)
        ensures
            r.deep_view() == self.deep_view().id(),
    {
        match self {
            Block::Markdown(b) => &b.id,
            Block::Custom(b) => &b.id,
        }
    }

    pub fn version(&self) -> (r: u64)
        ensures
            r == self.deep_view().version(),
    {
        match self {
            Block::Markdown(b) => b.version,
            Block::Custom(b) => b.version,
        }
    }

    pub fn children(&self) -> (r: Vec<BlockId>)
        ensures
            r.deep_view() == self.deep_view().children(),
    {
        match self {
            Block::Markdown(_) => {
                let r: Vec<BlockId> = Vec::new();
                assert(r.deep_view() =~= seq![]);
                r
            },
            Block::Custom(b) => b.children.clone(),
        }
    }

    pub fn parent(&self) -> (r: Option<&BlockId>)
        ensures
            match r {
                Some(p) => self.deep_view().parent() == Some(p.deep_view()),
                None => self.deep_view().parent() is None,
            },
    {
        match self {
            Block::Markdown(_) => None,
            Block::Custom(b) => match &b.parent {
                Some(p) => Some(p),
                None => None,
            },
        }
    }

    pub fn embedding(&self) -> (r: Option<&Vec<F32>>)
        ensures
            match r {
                Some(e) => self.deep_view().embedding() == Some(e.deep_view()),
                None => self.deep_view().embedding() is None,
            },
    {
        match self {
            Block::Markdown(b) => match &b.embedding {
                Some(e) => Some(e),
                None => None,
            },
            Block::Custom(b) => match &b.embedding {
                Some(e) => Some(e),
                None => None,
            },
        }
    }

    /// Whether the embedding no longer belongs to the content.
    pub fn is_embedding_stale(&self) -> (r: bool)
        ensures
            r == self.deep_view().stale(),
    {
        match self {
            Block::Markdown(b) => b.embedding.is_some() && b.embedding_version < b.version,
            Block::Custom(b) => b.embedding.is_some() && b.embedding_version < b.version,
        }
    }

    /// Counts a change made at the given time.
    pub fn bump_version_at(&mut self, now: Timestamp)
        requires
            old(self).deep_view().version() < u64::MAX,
        ensures
            final(self).deep_view() == old(self).deep_view().bumped(now),
    {
        match self {
            Block::Markdown(b) => {
                b.version = b.version + 1;
                b.meta.updated_at = now;
            },
            Block::Custom(b) => {
                b.version = b.version + 1;
                b.meta.updated_at = now;
            },
        }
    }

    /// Counts a change made now.
    pub fn bump_version(&mut self)
        requires
            old(self).deep_view().version() < u64::MAX,
        ensures
            exists|now: Timestamp|
                final(self).deep_view() == #[trigger] old(self).deep_view().bumped(now),
    {
        let now = Timestamp::now();
        self.bump_version_at(now);
        assert(self.deep_view() == old(self).deep_view().bumped(now));
    }

    /// Adds a child behind the others; Markdown takes none.
    pub fn add_child(&mut self, child_id: BlockId)
        ensures
            final(self).deep_view() == old(self).deep_view().with_children(
                old(self).deep_view().children().push(child_id.deep_view()),
            ),
    {
        if let Block::Custom(b) = self {
            let ghost ids = b.children.deep_view();
            b.children.push(child_id);
            assert(b.children.deep_view() =~= ids.push(child_id.deep_view()));
        }
    }

    /// Removes a child.
    pub fn remove_child(&mut self, child_id: &BlockId)
        ensures
            final(self).deep_view() == old(self).deep_view().with_children(
                without(old(self).deep_view().children(), child_id.deep_view()),
            ),
    {
        if let Block::Custom(b) = self {
            b.children = crate::ids::drop_id(&b.children, child_id);
        }
    }

    /// Sets the parent; Markdown has none.
    pub fn set_parent(&mut self, parent_id: Option<BlockId>)
        ensures
            final(self).deep_view() == old(self).deep_view().with_parent(parent_id.deep_view()),
    {
        if let Block::Custom(b) = self {
            b.parent = parent_id;
        }
    }

    /// The text of the block.
    pub fn as_plain_text(&self) -> (r: String)
        ensures
            r@ == self.deep_view().plain_text(),
    {
        match self {
            Block::Markdown(b) => match ast_to_string(b.raw.as_str()) {
                Some(t) => t,
                None => b.raw.clone(),
            },
            Block::Custom(b) => b.data.extract_text(),
        }
    }

    /// The block as it is written into a page.
    pub fn to_diffable_text(&self) -> (r: String)
        ensures
            r@ == self.deep_view().diffable_text(),
    {
        match self {
            Block::Markdown(b) => b.raw.clone(),
            Block::Custom(b) => {
                let head = cat3("<", b.ty.as_str(), " data=");
                let data = b.data.to_text();
                cat3(head.as_str(), data.as_str(), " />\n")
            },
        }
    }
}

/// A structured block as it is made.
pub open spec fn fresh_custom(
    r: Block,
    ty: CustomBlockTypeM,
    data: Json,
    raw: Seq<char>,
    author: Seq<char>,
    parent: Option<Seq<char>>,
) -> bool {
    r matches Block::Custom(b) && {
        &&& uuid_text(b.id.deep_view(), '7')
        &&& b.ty.deep_view() == ty
        &&& b.data.deep_view() == data
        &&& b.raw@ == raw
        &&& b.children@.len() == 0
        &&& b.parent.deep_view() == parent
        &&& b.version == 0
        &&& b.embedding is None
        &&& b.embedding_version == 0
        &&& b.meta.created_by@ == author
        &&& b.meta.updated_at == b.meta.created_at
    }
}


// ---- Lists of blocks -------------------------------------------------------

/// Whether a block has the identity.
pub open spec fn has_id(id: Seq<char>) -> spec_fn(BlockM) -> bool {
    |b: BlockM| b.id() == id
}

/// Where the first block with the identity stands.
pub open spec fn block_at(bs: Seq<BlockM>, id: Seq<char>) -> Option<int> {
    first_index(bs, has_id(id))
}

/// The first block with the identity.
pub open spec fn block_of(bs: Seq<BlockM>, id: Seq<char>) -> Option<BlockM> {
    match block_at(bs, id) {
        Some(i) => Some(bs[i]),
        None => None,
    }
}

/// The children that the block with the identity lists.
pub open spec fn kids(bs: Seq<BlockM>, id: Seq<char>) -> Seq<Seq<char>> {
    match block_of(bs, id) {
        Some(b) => b.children(),
        None => seq![],
    }
}

/// Whether a block names the identity as its parent.
pub open spec fn hangs_on(id: Seq<char>) -> spec_fn(BlockM) -> bool {
    |b: BlockM| b.parent() == Some(id)
}

/// No path downwards from `id`, along the lists of children, is longer than
/// `n`.
pub open spec fn bounded(bs: Seq<BlockM>, id: Seq<char>, n: nat) -> bool
    decreases n,
{
    n > 0 && forall|i: int|
        0 <= i < kids(bs, id).len() ==> bounded(bs, #[trigger] kids(bs, id)[i], (n - 1) as nat)
}

/// Walking downwards from `id` comes to an end.
pub open spec fn grounded(bs: Seq<BlockM>, id: Seq<char>) -> bool {
    exists|n: nat| bounded(bs, id, n)
}

/// `id` and what its children list, each identity before its children and
/// these in order, down to `n` levels.
pub open spec fn preorder(bs: Seq<BlockM>, id: Seq<char>, n: nat) -> Seq<Seq<char>>
    decreases n, 0nat,
{
    if n == 0 {
        seq![]
    } else {
        seq![id] + preorders(bs, kids(bs, id), (n - 1) as nat)
    }
}

pub open spec fn preorders(bs: Seq<BlockM>, ids: Seq<Seq<char>>, n: nat) -> Seq<Seq<char>>
    decreases n, ids.len() + 1,
{
    if ids.len() == 0 {
        seq![]
    } else {
        preorders(bs, ids.drop_last(), n) + preorder(bs, ids.last(), n)
    }
}

pub open spec fn depth(bs: Seq<BlockM>, id: Seq<char>) -> nat {
    choose|n: nat| bounded(bs, id, n)
}

/// `id` and what its children list, each identity before its children and
/// these in order.
pub open spec fn subtree(bs: Seq<BlockM>, id: Seq<char>) -> Seq<Seq<char>> {
    preorder(bs, id, depth(bs, id))
}

/// No path downwards from `id`, along the parents that blocks name, is longer
/// than `n`.
pub open spec fn hangs_within(bs: Seq<BlockM>, id: Seq<char>, n: nat) -> bool
    decreases n,
{
    n > 0 && forall|i: int|
        0 <= i < bs.len() && (#[trigger] bs[i]).parent() == Some(id) ==> hangs_within(
            bs,
            bs[i].id(),
            (n - 1) as nat,
        )
}

/// The parents that blocks name lead back to `id` on finite paths only.
pub open spec fn rooted(bs: Seq<BlockM>, id: Seq<char>) -> bool {
    exists|n: nat| hangs_within(bs, id, n)
}

/// `node` is `top`, or names it as its parent, or as that of its parent, and
/// so on up to `n` steps.
pub open spec fn under(bs: Seq<BlockM>, node: Seq<char>, top: Seq<char>, n: nat) -> bool
    decreases n,
{
    node == top || n > 0 && exists|i: int|
        0 <= i < bs.len() && (#[trigger] bs[i]).parent() == Some(top) && under(
            bs,
            node,
            bs[i].id(),
            (n - 1) as nat,
        )
}

/// `node` is `top` or hangs somewhere under it.
pub open spec fn hangs_under(bs: Seq<BlockM>, node: Seq<char>, top: Seq<char>) -> bool {
    under(bs, node, top, choose|n: nat| hangs_within(bs, top, n))
}

/// Where the first block with the identity stands.
pub(crate) fn position(blocks: &Vec<Block>, id: &BlockId) -> (r: Option<usize>)
    ensures
        match r {
            Some(i) => i < blocks@.len() && block_at(blocks.deep_view(), id.deep_view()) == Some(
                i as int,
            ),
            None => block_at(blocks.deep_view(), id.deep_view()) is None,
        },
{
    let ghost bs = blocks.deep_view();
    let ghost p = has_id(id.deep_view());
    let mut i: usize = 0;
    while i < blocks.len()
        invariant
            i <= blocks.len(),
            bs == blocks.deep_view(),
            p == has_id(id.deep_view()),
            forall|j: int| 0 <= j < i ==> !p(#[trigger] bs[j]),
        decreases blocks.len() - i,
    {
        assert(bs[i as int] == blocks@[i as int].deep_view());
        if blocks[i].id().same(id) {
            proof {
                crate::seqs::lemma_first_index_is(bs, p, i as int);
            }
            return Some(i);
        }
        i = i + 1;
    }
    proof {
        crate::seqs::lemma_first_index(bs, p);
    }
    None
}

/// The first block with the identity.
pub fn find_block<'a>(blocks: &'a Vec<Block>, id: &BlockId) -> (r: Option<&'a Block>)
    ensures
        match r {
            Some(b) => block_of(blocks.deep_view(), id.deep_view()) == Some(b.deep_view()),
            None => block_of(blocks.deep_view(), id.deep_view()) is None,
        },
{
    match position(blocks, id) {
        Some(i) => Some(&blocks[i]),
        None => None,
    }
}

/// The first block with the identity, to be changed in its place.
pub fn find_block_mut<'a>(blocks: &'a mut Vec<Block>, id: &BlockId) -> (r: Option<&'a mut Block>)
    ensures
        match r {
            Some(b) => {
                &&& block_at(old(blocks).deep_view(), id.deep_view()) is Some
                &&& 0 <= block_at(old(blocks).deep_view(), id.deep_view())->0 < old(blocks)@.len()
                &&& *b == old(blocks)@[block_at(old(blocks).deep_view(), id.deep_view())->0]
                &&& final(blocks)@ == old(blocks)@.update(
                    block_at(old(blocks).deep_view(), id.deep_view())->0,
                    *final(b),
                )
            },
            None => block_at(old(blocks).deep_view(), id.deep_view()) is None && *final(blocks)
                == *old(blocks),
        },
{
    match position(blocks, id) {
        Some(i) => Some(&mut blocks[i]),
        None => None,
    }
}

/// The blocks that name the identity as their parent, in order.
pub fn children_of<'a>(blocks: &'a Vec<Block>, parent_id: &BlockId) -> (r: Vec<&'a Block>)
    ensures
        r@.len() == keep(blocks.deep_view(), hangs_on(parent_id.deep_view())).len(),
        forall|i: int|
            0 <= i < r@.len() ==> (#[trigger] r@[i]).deep_view() == keep(
                blocks.deep_view(),
                hangs_on(parent_id.deep_view()),
            )[i],
{
    let ghost bs = blocks.deep_view();
    let ghost p = hangs_on(parent_id.deep_view());
    let mut r: Vec<&'a Block> = Vec::new();
    let mut i: usize = 0;
    while i < blocks.len()
        invariant
            i <= blocks.len(),
            bs == blocks.deep_view(),
            p == hangs_on(parent_id.deep_view()),
            r@.len() == keep(bs.take(i as int), p).len(),
            forall|k: int|
                0 <= k < r@.len() ==> (#[trigger] r@[k]).deep_view() == keep(
                    bs.take(i as int),
                    p,
                )[k],
        decreases blocks.len() - i,
    {
        proof {
            crate::seqs::lemma_keep_step(bs, p, i as int);
        }
        assert(bs[i as int] == blocks@[i as int].deep_view());
        if let Some(q) = blocks[i].parent() {
            if q.same(parent_id) {
                r.push(&blocks[i]);
            }
        }
        i = i + 1;
    }
    assert(bs.take(i as int) =~= bs);
    r
}

/// `root` and what its children list, each identity before its children and
/// these in order.
pub fn descendants(blocks: &Vec<Block>, root: &BlockId) -> (r: Vec<BlockId>)
    requires
        grounded(blocks.deep_view(), root.deep_view()),
    ensures
        r.deep_view() == subtree(blocks.deep_view(), root.deep_view()),
{
    let mut r: Vec<BlockId> = Vec::new();
    assert(r.deep_view() =~= seq![]);
    descend(blocks, root, &mut r, Ghost(depth(blocks.deep_view(), root.deep_view())));
    assert(r.deep_view() =~= subtree(blocks.deep_view(), root.deep_view()));
    r
}

fn descend(blocks: &Vec<Block>, root: &BlockId, out: &mut Vec<BlockId>, Ghost(n): Ghost<nat>)
    requires
        bounded(blocks.deep_view(), root.deep_view(), n),
    ensures
        final(out).deep_view() == old(out).deep_view() + preorder(
            blocks.deep_view(),
            root.deep_view(),
            n,
        ),
    decreases n,
{
    let ghost bs = blocks.deep_view();
    let ghost start = out.deep_view();
    out.push(root.clone());
    assert(out.deep_view() =~= start.push(root.deep_view()));
    let ghost m = (n - 1) as nat;
    let ghost ids = kids(bs, root.deep_view());
    if let Some(b) = find_block(blocks, root) {
        let children = b.children();
        let mut i: usize = 0;
        assert(out.deep_view() =~= start + (seq![root.deep_view()] + preorders(
            bs,
            ids.take(0),
            m,
        )));
        while i < children.len()
            invariant
                i <= children.len(),
                bs == blocks.deep_view(),
                n > 0,
                m == n - 1,
                ids == children.deep_view(),
                forall|k: int| 0 <= k < ids.len() ==> bounded(bs, #[trigger] ids[k], m),
                out.deep_view() == start + (seq![root.deep_view()] + preorders(
                    bs,
                    ids.take(i as int),
                    m,
                )),
            decreases children.len() - i,
        {
            assert(ids.take(i + 1).drop_last() =~= ids.take(i as int));
            assert(ids.take(i + 1).last() == ids[i as int]);
            assert(ids[i as int] == children@[i as int].deep_view());
            descend(blocks, &children[i], out, Ghost(m));
            assert(out.deep_view() =~= start + (seq![root.deep_view()] + preorders(
                bs,
                ids.take(i + 1),
                m,
            )));
            i = i + 1;
        }
        assert(ids.take(i as int) =~= ids);
    } else {
        assert(ids =~= seq![]);
        assert(out.deep_view() =~= start + (seq![root.deep_view()] + preorders(bs, ids, m)));
    }
}

/// Whether `node` is `ancestor` or hangs under it.
pub fn is_descendant_of(blocks: &Vec<Block>, node: &BlockId, ancestor: &BlockId) -> (r: bool)
    requires
        rooted(blocks.deep_view(), ancestor.deep_view()),
    ensures
        r == hangs_under(blocks.deep_view(), node.deep_view(), ancestor.deep_view()),
{
    search_under(
        blocks,
        node,
        ancestor,
        Ghost(choose|n: nat| hangs_within(blocks.deep_view(), ancestor.deep_view(), n)),
    )
}

fn search_under(
    blocks: &Vec<Block>,
    node: &BlockId,
    ancestor: &BlockId,
    Ghost(n): Ghost<nat>,
) -> (r: bool)
    requires
        hangs_within(blocks.deep_view(), ancestor.deep_view(), n),
    ensures
        r == under(blocks.deep_view(), node.deep_view(), ancestor.deep_view(), n),
    decreases n,
{
    let ghost bs = blocks.deep_view();
    if node.same(ancestor) {
        return true;
    }
    let mut i: usize = 0;
    while i < blocks.len()
        invariant
            i <= blocks.len(),
            bs == blocks.deep_view(),
            node.deep_view() != ancestor.deep_view(),
            hangs_within(bs, ancestor.deep_view(), n),
            forall|k: int|
                0 <= k < i && (#[trigger] bs[k]).parent() == Some(ancestor.deep_view()) ==> !under(
                    bs,
                    node.deep_view(),
                    bs[k].id(),
                    (n - 1) as nat,
                ),
        decreases blocks.len() - i,
    {
        assert(bs[i as int] == blocks@[i as int].deep_view());
        if let Some(q) = blocks[i].parent() {
            if q.same(ancestor) {
                if search_under(blocks, node, blocks[i].id(), Ghost((n - 1) as nat)) {
                    return true;
                }
            }
        }
        i = i + 1;
    }
    false
}

} // verus!
