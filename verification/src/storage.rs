//! The values that stores take and give.

use vstd::prelude::*;

use crate::float::F32;
use crate::ids::{BlockId, DocId};
use crate::json::{json_same, member, Json, JsonValue};
use crate::sort::{arranged, consistent, in_order, sorted_from, stable_sort, Ranking};
use crate::text::cat3;
use crate::time::Timestamp;

verus! {

broadcast use vstd::std_specs::vec::group_vec_axioms;

/// A vector that a search found.
#[derive(Debug, PartialEq)]
pub struct VectorSearchResult {
    pub id: String,
    pub score: F32,
    pub metadata: JsonValue,
}

/// What a `VectorSearchResult` holds.
#[verifier::ext_equal]
pub struct VectorSearchResultM {
    pub id: Seq<char>,
    pub score: F32,
    pub metadata: Json,
}

impl DeepView for VectorSearchResult {
    type V = VectorSearchResultM;

    open spec fn deep_view(&self) -> VectorSearchResultM {
        VectorSearchResultM {
            id: self.id.deep_view(),
            score: self.score,
            metadata: self.metadata.deep_view(),
        }
    }
}

impl Clone for VectorSearchResult {
    fn clone(&self) -> (r: Self)
        ensures
            r.deep_view() == self.deep_view(),
    {
        VectorSearchResult {
            id: self.id.clone(),
            score: self.score,
            metadata: self.metadata.clone(),
        }
    }
}

/// How the terms of a text query match.
#[derive(Clone, Copy, Debug, PartialEq, Eq, Structural)]
pub enum MatchMode {
    Exact,
    Prefix,
    Fuzzy,
    Phrase,
    Boolean,
}

impl DeepView for MatchMode {
    type V = MatchMode;

    open spec fn deep_view(&self) -> MatchMode {
        *self
    }
}

/// How the terms of a Boolean query combine.
#[derive(Clone, Copy, Debug, PartialEq, Eq, Structural)]
pub enum BoolOp {
    And,
    Or,
    Not,
}

impl DeepView for BoolOp {
    type V = BoolOp;

    open spec fn deep_view(&self) -> BoolOp {
        *self
    }
}

/// A query to a text index.
#[derive(Debug, PartialEq)]
pub struct TextQuery {
    pub terms: Vec<String>,
    pub phrase: Option<String>,
    pub filter: Option<JsonValue>,
    pub mode: MatchMode,
    pub bool_op: Option<BoolOp>,
}

/// What a `TextQuery` holds.
#[verifier::ext_equal]
pub struct TextQueryM {
    pub terms: Seq<Seq<char>>,
    pub phrase: Option<Seq<char>>,
    pub filter: Option<Json>,
    pub mode: MatchMode,
    pub bool_op: Option<BoolOp>,
}

impl DeepView for TextQuery {
    type V = TextQueryM;

    open spec fn deep_view(&self) -> TextQueryM {
        TextQueryM {
            terms: self.terms.deep_view(),
            phrase: self.phrase.deep_view(),
            filter: self.filter.deep_view(),
            mode: self.mode,
            bool_op: self.bool_op.deep_view(),
        }
    }
}

impl Clone for TextQuery {
    fn clone(&self) -> (r: Self)
        ensures
            r.deep_view() == self.deep_view(),
    {
        TextQuery {
            terms: self.terms.clone(),
            phrase: self.phrase.clone(),
            filter: self.filter.clone(),
            mode: self.mode,
            bool_op: self.bool_op.clone(),
        }
    }
}

/// A block that a text query found.
#[derive(Debug, PartialEq)]
pub struct TextHit {
    pub block_id: String,
    pub snippet: String,
    pub score: F32,
}

/// What a `TextHit` holds.
#[verifier::ext_equal]
pub struct TextHitM {
    pub block_id: Seq<char>,
    pub snippet: Seq<char>,
    pub score: F32,
}

impl DeepView for TextHit {
    type V = TextHitM;

    open spec fn deep_view(&self) -> TextHitM {
        TextHitM {
            block_id: self.block_id.deep_view(),
            snippet: self.snippet.deep_view(),
            score: self.score,
        }
    }
}

impl Clone for TextHit {
    fn clone(&self) -> (r: Self)
        ensures
            r.deep_view() == self.deep_view(),
    {
        TextHit {
            block_id: self.block_id.clone(),
            snippet: self.snippet.clone(),
            score: self.score,
        }
    }
}

/// The identity of an attachment.
#[derive(Debug, PartialEq, Eq, Hash)]
pub struct BlobId(pub String);

impl DeepView for BlobId {
    type V = Seq<char>;

    open spec fn deep_view(&self) -> Seq<char> {
        self.0@
    }
}

impl Clone for BlobId {
    fn clone(&self) -> (r: Self)
        ensures
            r == *self,
    {
        BlobId(self.0.clone())
    }
}

/// The identity of a version.
#[derive(Debug, PartialEq, Eq, Hash)]
pub struct VersionId(pub String);

impl DeepView for VersionId {
    type V = Seq<char>;

    open spec fn deep_view(&self) -> Seq<char> {
        self.0@
    }
}

impl Clone for VersionId {
    fn clone(&self) -> (r: Self)
        ensures
            r == *self,
    {
        VersionId(self.0.clone())
    }
}

/// A version of a document.
#[derive(Debug, PartialEq)]
pub struct VersionEntry {
    pub id: VersionId,
    pub label: Option<String>,
    pub author: String,
    pub ts: Timestamp,
}

/// What a `VersionEntry` holds.
#[verifier::ext_equal]
pub struct VersionEntryM {
    pub id: Seq<char>,
    pub label: Option<Seq<char>>,
    pub author: Seq<char>,
    pub ts: Timestamp,
}

impl DeepView for VersionEntry {
    type V = VersionEntryM;

    open spec fn deep_view(&self) -> VersionEntryM {
        VersionEntryM {
            id: self.id.deep_view(),
            label: self.label.deep_view(),
            author: self.author.deep_view(),
            ts: self.ts,
        }
    }
}

impl Clone for VersionEntry {
    fn clone(&self) -> (r: Self)
        ensures
            r.deep_view() == self.deep_view(),
    {
        VersionEntry {
            id: self.id.clone(),
            label: self.label.clone(),
            author: self.author.clone(),
            ts: self.ts,
        }
    }
}

/// How a block differs between two versions.
#[derive(Clone, Copy, Debug, PartialEq, Eq, Structural)]
pub enum ChangeKind {
    Added,
    Removed,
    Modified,
}

impl DeepView for ChangeKind {
    type V = ChangeKind;

    open spec fn deep_view(&self) -> ChangeKind {
        *self
    }
}

/// A block that differs between two versions.
#[derive(Debug, PartialEq)]
pub struct BlockChange {
    pub block_id: String,
    pub kind: ChangeKind,
}

/// What a `BlockChange` holds.
#[verifier::ext_equal]
pub struct BlockChangeM {
    pub block_id: Seq<char>,
    pub kind: ChangeKind,
}

impl DeepView for BlockChange {
    type V = BlockChangeM;

    open spec fn deep_view(&self) -> BlockChangeM {
        BlockChangeM {
            block_id: self.block_id.deep_view(),
            kind: self.kind,
        }
    }
}

impl Clone for BlockChange {
    fn clone(&self) -> (r: Self)
        ensures
            r.deep_view() == self.deep_view(),
    {
        BlockChange {
            block_id: self.block_id.clone(),
            kind: self.kind,
        }
    }
}

/// What differs between two versions.
#[derive(Debug, PartialEq)]
pub struct DocDiff {
    pub changes: Vec<BlockChange>,
}

/// What a `DocDiff` holds.
#[verifier::ext_equal]
pub struct DocDiffM {
    pub changes: Seq<BlockChangeM>,
}

impl DeepView for DocDiff {
    type V = DocDiffM;

    open spec fn deep_view(&self) -> DocDiffM {
        DocDiffM {
            changes: self.changes.deep_view(),
        }
    }
}

impl Clone for DocDiff {
    fn clone(&self) -> (r: Self)
        ensures
            r.deep_view() == self.deep_view(),
    {
        DocDiff {
            changes: self.changes.clone(),
        }
    }
}

/// Where a link leads.
#[derive(Debug, PartialEq)]
pub enum LinkTarget {
    Doc(DocId),
    Block(DocId, BlockId),
    /// To a title that no document has.
    Broken(String),
}

/// What a `LinkTarget` holds.
#[verifier::ext_equal]
pub enum LinkTargetM {
    Doc(Seq<char>),
    Block(Seq<char>, Seq<char>),
    Broken(Seq<char>),
}

impl DeepView for LinkTarget {
    type V = LinkTargetM;

    open spec fn deep_view(&self) -> LinkTargetM {
        match self {
            LinkTarget::Doc(x) => LinkTargetM::Doc(x.deep_view()),
            LinkTarget::Block(x0, x1) => LinkTargetM::Block(x0.deep_view(), x1.deep_view()),
            LinkTarget::Broken(x) => LinkTargetM::Broken(x.deep_view()),
        }
    }
}

impl Clone for LinkTarget {
    fn clone(&self) -> (r: Self)
        ensures
            r.deep_view() == self.deep_view(),
    {
        match self {
            LinkTarget::Doc(x) => LinkTarget::Doc(x.clone()),
            LinkTarget::Block(x0, x1) => LinkTarget::Block(x0.clone(), x1.clone()),
            LinkTarget::Broken(x) => LinkTarget::Broken(x.clone()),
        }
    }
}

/// The key that links to a target are found under.
pub open spec fn target_key(t: LinkTargetM) -> Seq<char> {
    match t {
        LinkTargetM::Doc(d) => d,
        LinkTargetM::Block(d, b) => d + "#"@ + b,
        LinkTargetM::Broken(s) => s,
    }
}

impl LinkTarget {
    /// The key that links to the target are found under.
    pub fn key(&self) -> (r: String)
        ensures
            r@ == target_key(self.deep_view()),
    {
        match self {
            LinkTarget::Doc(d) => d.0.clone(),
            LinkTarget::Block(d, b) => cat3(d.as_str(), "#", b.as_str()),
            LinkTarget::Broken(s) => s.clone(),
        }
    }
}

/// A link out of a block.
#[derive(Debug, PartialEq)]
pub struct WikiLink {
    pub from: BlockId,
    pub to: LinkTarget,
    pub anchor_text: String,
}

/// What a `WikiLink` holds.
#[verifier::ext_equal]
pub struct WikiLinkM {
    pub from: Seq<char>,
    pub to: LinkTargetM,
    pub anchor_text: Seq<char>,
}

impl DeepView for WikiLink {
    type V = WikiLinkM;

    open spec fn deep_view(&self) -> WikiLinkM {
        WikiLinkM {
            from: self.from.deep_view(),
            to: self.to.deep_view(),
            anchor_text: self.anchor_text.deep_view(),
        }
    }
}

impl Clone for WikiLink {
    fn clone(&self) -> (r: Self)
        ensures
            r.deep_view() == self.deep_view(),
    {
        WikiLink {
            from: self.from.clone(),
            to: self.to.clone(),
            anchor_text: self.anchor_text.clone(),
        }
    }
}

// ---- Metadata --------------------------------------------------------------

/// Whether metadata pass a filter: an object filter asks that each of its
/// members is there with the same value, any other that the metadata are equal
/// to it.
pub open spec fn meta_passes(filter: Json, meta: Json) -> bool {
    if filter is Object && meta is Object {
        forall|i: int|
            0 <= i < filter->Object_0.len() ==> member_same(meta, #[trigger] filter->Object_0[i])
    } else {
        json_same(filter, meta)
    }
}

/// Whether an object has a member with the same value.
pub open spec fn member_same(meta: Json, e: (Seq<char>, Json)) -> bool {
    match member(meta, e.0) {
        Some(v) => json_same(v, e.1),
        None => false,
    }
}

/// Whether metadata pass a filter.
pub fn filter_matches(filter: &JsonValue, meta: &JsonValue) -> (r: bool)
    ensures
        r == meta_passes(filter.deep_view(), meta.deep_view()),
{
    match (filter, meta) {
        (JsonValue::Object(f), JsonValue::Object(_)) => {
            proof {
                crate::json::lemma_object_model(*f);
            }
            let ghost es = f.deep_view();
            let mut i: usize = 0;
            while i < f.len()
                invariant
                    i <= f.len(),
                    es == f.deep_view(),
                    filter.deep_view() == Json::Object(es),
                    meta.deep_view() is Object,
                    forall|k: int|
                        0 <= k < i ==> member_same(meta.deep_view(), #[trigger] es[k]),
                decreases f.len() - i,
            {
                assert(es[i as int] == (f@[i as int].0@, f@[i as int].1.deep_view()));
                let same = match meta.get(f[i].0.as_str()) {
                    Some(v) => v.same(&f[i].1),
                    None => false,
                };
                assert(same == member_same(meta.deep_view(), es[i as int]));
                if !same {
                    proof {
                        let whole = Json::Object(es);
                        let m = meta.deep_view();
                        assert(!member_same(m, whole->Object_0[i as int]));
                        assert(!meta_passes(whole, m));
                    }
                    return false;
                }
                i = i + 1;
            }
            true
        },
        _ => filter.same(meta),
    }
}

// ---- Scores ----------------------------------------------------------------

/// What has a score.
pub trait Scored: Sized {
    spec fn spec_score(&self) -> F32;

    fn get_score(&self) -> (r: F32)
        ensures
            r == self.spec_score(),
    ;
}

impl Scored for TextHit {
    open spec fn spec_score(&self) -> F32 {
        self.score
    }

    fn get_score(&self) -> (r: F32) {
        self.score
    }
}

impl Scored for VectorSearchResult {
    open spec fn spec_score(&self) -> F32 {
        self.score
    }

    fn get_score(&self) -> (r: F32) {
        self.score
    }
}

/// Ranks by score, the highest first.
pub struct ByScore {}

impl<T: Scored> Ranking<T> for ByScore {
    open spec fn before(&self, a: T, b: T) -> bool {
        b.spec_score().below(a.spec_score())
    }

    fn goes_before(&self, a: &T, b: &T) -> (r: bool) {
        b.get_score().less(a.get_score())
    }
}

/// No score is undefined.
pub open spec fn scores_defined<T: Scored>(s: Seq<T>) -> bool {
    forall|i: int| 0 <= i < s.len() ==> !(#[trigger] s[i]).spec_score().nan()
}

/// Defined scores rank consistently.
pub proof fn law_scores_consistent<T: Scored>(s: Seq<T>)
    requires
        scores_defined(s),
    ensures
        consistent(ByScore {  }, s),
{
}

/// The best `top_k` of the items, the highest score first.
pub open spec fn best_of<T: Scored>(src: Seq<T>, top_k: usize, r: Seq<T>) -> bool {
    exists|all: Seq<T>| #[trigger]
        sorted_from(ByScore {  }, src, all) && r == all.take(
            if top_k < all.len() {
                top_k as int
            } else {
                all.len() as int
            },
        )
}

/// The best `top_k` of the items, the highest score first; items with the same
/// score keep their order.
pub fn take_best<T: Scored>(items: Vec<T>, top_k: usize) -> (r: Vec<T>)
    ensures
        best_of(items@, top_k, r@),
{
    let rank = ByScore {  };
    let mut all = stable_sort(&rank, items);
    let ghost whole = all@;
    if top_k < all.len() {
        all.truncate(top_k);
        assert(all@ =~= whole.take(top_k as int));
    } else {
        assert(all@ =~= whole.take(whole.len() as int));
    }
    all
}

/// Of the best items none has a lower score than a later one.
pub proof fn law_best_descend<T: Scored>(src: Seq<T>, top_k: usize, r: Seq<T>, i: int, j: int)
    requires
        best_of(src, top_k, r),
        scores_defined(src),
        0 <= i < j < r.len(),
    ensures
        !r[i].spec_score().below(r[j].spec_score()),
{
    law_scores_consistent(src);
    let all = choose|all: Seq<T>| #[trigger]
        sorted_from(ByScore {  }, src, all) && r == all.take(
            if top_k < all.len() {
                top_k as int
            } else {
                all.len() as int
            },
        );
    let perm = choose|perm: Seq<int>| #[trigger]
        arranged(src, all, perm) && (consistent(ByScore {  }, src) ==> in_order(
            ByScore {  },
            all,
            perm,
        ));
    assert(in_order(ByScore {  }, all, perm));
    assert(r[i] == all[i] && r[j] == all[j]);
}

} // verus!
