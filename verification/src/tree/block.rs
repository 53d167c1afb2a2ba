//! A block: the smallest unit of a document.

use vstd::prelude::*;

use crate::float::F32;
use crate::ids::{uuid_text, BlockId};
use crate::json::{all_text, Json, JsonValue};
use crate::time::Timestamp;

verus! {

/// The kinds of block.
#[derive(Clone, Copy, Debug, PartialEq, Eq, Structural)]
pub enum BlockType {
    Paragraph,
    Heading,
    BulletedList,
    NumberedList,
    Toggle,
    Quote,
    Callout,
    Code,
    Divider,
    Image,
    Embed,
    TableRef,
    GraphRef,
    DatabaseView,
}

impl DeepView for BlockType {
    type V = BlockType;

    open spec fn deep_view(&self) -> BlockType {
        *self
    }
}

/// The content of a block.
#[derive(Debug, PartialEq)]
pub struct BlockContent(pub JsonValue);

impl DeepView for BlockContent {
    type V = Json;

    open spec fn deep_view(&self) -> Json {
        self.0.deep_view()
    }
}

impl Clone for BlockContent {
    fn clone(&self) -> (r: Self)
        ensures
            r.deep_view() == self.deep_view(),
    {
        BlockContent(self.0.clone())
    }
}

/// The content that holds nothing but a text.
pub open spec fn text_content(s: Seq<char>) -> Json {
    Json::Object(seq![("text"@, Json::Str(s))])
}

impl BlockContent {
    /// A content that holds a text.
    pub fn text(s: &str) -> (r: BlockContent)
        ensures
            r.deep_view() == text_content(s@),
    {
        let mut entries: Vec<(String, JsonValue)> = Vec::new();
        entries.push(("text".to_owned(), JsonValue::text(s)));
        let r = JsonValue::Object(entries);
        proof {
            crate::json::lemma_object_model(entries);
            assert(entries.deep_view() =~= seq![("text"@, Json::Str(s@))]);
        }
        BlockContent(r)
    }

    /// The texts in the content.
    pub fn as_plain_text(&self) -> (r: String)
        ensures
            r@ == all_text(self.deep_view()),
    {
        self.0.extract_text()
    }
}

/// Who made a block, when, and when it last changed.
#[derive(Debug, PartialEq)]
pub struct BlockMeta {
    pub created_at: Timestamp,
    pub updated_at: Timestamp,
    pub created_by: String,
}

/// What a `BlockMeta` holds.
#[verifier::ext_equal]
pub struct BlockMetaM {
    pub created_at: Timestamp,
    pub updated_at: Timestamp,
    pub created_by: Seq<char>,
}

impl DeepView for BlockMeta {
    type V = BlockMetaM;

    open spec fn deep_view(&self) -> BlockMetaM {
        BlockMetaM {
            created_at: self.created_at,
            updated_at: self.updated_at,
            created_by: self.created_by.deep_view(),
        }
    }
}

impl Clone for BlockMeta {
    fn clone(&self) -> (r: Self)
        ensures
            r.deep_view() == self.deep_view(),
    {
        BlockMeta {
            created_at: self.created_at,
            updated_at: self.updated_at,
            created_by: self.created_by.clone(),
        }
    }
}

impl BlockMeta {
    /// The record of a block made now.
    pub fn new(author: &str) -> (r: BlockMeta)
        ensures
            r.created_by@ == author@,
            r.updated_at == r.created_at,
    {
        let now = Timestamp::now();
        BlockMeta { created_at: now, updated_at: now, created_by: author.to_owned() }
    }
}

/// A node of a document tree.
#[derive(Debug, PartialEq)]
pub struct Block {
    pub id: BlockId,
    pub ty: BlockType,
    pub content: BlockContent,
    /// The children, in order.
    pub children: Vec<BlockId>,
    pub parent: Option<BlockId>,
    /// Counts the changes of the content.
    pub version: u64,
    /// The embedding of the content, once it was computed.
    pub embedding: Option<Vec<F32>>,
    /// The version that the embedding was computed from.
    pub embedding_version: u64,
    pub meta: BlockMeta,
}

/// What a `Block` holds.
#[verifier::ext_equal]
pub struct BlockM {
    pub id: Seq<char>,
    pub ty: BlockType,
    pub content: Json,
    pub children: Seq<Seq<char>>,
    pub parent: Option<Seq<char>>,
    pub version: u64,
    pub embedding: Option<Seq<F32>>,
    pub embedding_version: u64,
    pub meta: BlockMetaM,
}

impl DeepView for Block {
    type V = BlockM;

    open spec fn deep_view(&self) -> BlockM {
        BlockM {
            id: self.id.deep_view(),
            ty: self.ty,
            content: self.content.deep_view(),
            children: self.children.deep_view(),
            parent: self.parent.deep_view(),
            version: self.version,
            embedding: self.embedding.deep_view(),
            embedding_version: self.embedding_version,
            meta: self.meta.deep_view(),
        }
    }
}

impl Clone for Block {
    fn clone(&self) -> (r: Self)
        ensures
            r.deep_view() == self.deep_view(),
    {
        Block {
            id: self.id.clone(),
            ty: self.ty,
            content: self.content.clone(),
            children: self.children.clone(),
            parent: self.parent.clone(),
            version: self.version,
            embedding: self.embedding.clone(),
            embedding_version: self.embedding_version,
            meta: self.meta.clone(),
        }
    }
}

/// An embedding was computed, and from an older version.
pub open spec fn embedding_stale(b: BlockM) -> bool {
    b.embedding is Some && b.embedding_version < b.version
}

/// The block one version later.
pub open spec fn bumped(b: BlockM, now: Timestamp) -> BlockM {
    BlockM {
        version: (b.version + 1) as u64,
        meta: BlockMetaM { updated_at: now, ..b.meta },
        ..b
    }
}

impl Block {
    /// A block without parent and children.
    pub fn new(ty: BlockType, content: BlockContent, author: &str) -> (r: Block)
        ensures
            uuid_text(r.id.deep_view(), '7'),
            r.ty == ty,
            r.content.deep_view() == content.deep_view(),
            r.children@.len() == 0,
            r.parent is None,
            r.version == 0,
            r.embedding is None,
            r.embedding_version == 0,
            r.meta.created_by@ == author@,
            r.meta.updated_at == r.meta.created_at,
    {
        Block {
            id: BlockId::new(),
            ty,
            content,
            children: Vec::new(),
            parent: None,
            version: 0,
            embedding: None,
            embedding_version: 0,
            meta: BlockMeta::new(author),
        }
    }

    /// Whether the embedding no longer belongs to the content.
    pub fn is_embedding_stale(&self) -> (r: bool)
        ensures
            r == embedding_stale(self.deep_view()),
    {
        self.embedding.is_some() && self.embedding_version < self.version
    }

    /// Counts a change made at the given time.
    pub fn bump_version_at(&mut self, now: Timestamp)
        requires
            old(self).version < u64::MAX,
        ensures
            final(self).deep_view() == bumped(old(self).deep_view(), now),
    {
        self.version = self.version + 1;
        self.meta.updated_at = now;
    }

    /// Counts a change made now.
    pub fn bump_version(&mut self)
        requires
            old(self).version < u64::MAX,
        ensures
            exists|now: Timestamp|
                final(self).deep_view() == #[trigger] bumped(old(self).deep_view(), now),
    {
        let now = Timestamp::now();
        self.bump_version_at(now);
        assert(self.deep_view() == bumped(old(self).deep_view(), now));
    }
}

/// A computed embedding is stale as soon as the content changes.
pub proof fn law_change_makes_embedding_stale(b: BlockM, now: Timestamp)
    requires
        b.embedding is Some,
        b.embedding_version <= b.version,
        b.version < u64::MAX,
    ensures
        embedding_stale(bumped(b, now)),
{
}

} // verus!
