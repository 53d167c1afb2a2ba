//! Stores that keep everything in memory.

use vstd::prelude::*;

use crate::assoc::{
    bind, find_slot, get, law_bind_lookup, law_unbind_lookup, lemma_slot, lookup, put, remove,
    slot, unbind,
};
use crate::error::{outcome, WikiError, WikiErrorM};
use crate::float::F32;
use crate::ids::{fresh_v4, uuid_text, BlockId, DocId};
use crate::json::{Json, JsonValue};
use crate::seqs::{
    first_index, keep, lemma_first_index, lemma_first_index_is, lemma_keep_contains,
    lemma_keep_step,
};
use crate::storage::{
    best_of, filter_matches, meta_passes, take_best, target_key, BlobId, BlockChange, BlockChangeM,
    BoolOp, ChangeKind, DocDiff, DocDiffM, LinkTarget, MatchMode, TextHit, TextHitM, TextQuery,
    TextQueryM, VectorSearchResult, VectorSearchResultM, VersionEntry, VersionEntryM, VersionId,
    WikiLink, WikiLinkM,
};
use crate::table::view::page;
use crate::text::{
    begins, cat, contains_str, count_str, first_chars, holds, occurrences, small, split_words,
    starts_str, take_chars, to_lower, words,
};
use crate::time::Timestamp;
use crate::tree::block::BlockM;
use crate::tree::doc::{Document, DocumentM};

verus! {

broadcast use vstd::std_specs::vec::group_vec_axioms;

// ---- Vectors ---------------------------------------------------------------

/// A stored vector.
#[derive(Debug, PartialEq)]
pub struct VectorRecord {
    pub vector: Vec<F32>,
    pub metadata: JsonValue,
}

/// What a `VectorRecord` holds.
#[verifier::ext_equal]
pub struct VectorRecordM {
    pub vector: Seq<F32>,
    pub metadata: Json,
}

impl DeepView for VectorRecord {
    type V = VectorRecordM;

    open spec fn deep_view(&self) -> VectorRecordM {
        VectorRecordM {
            vector: self.vector.deep_view(),
            metadata: self.metadata.deep_view(),
        }
    }
}

impl Clone for VectorRecord {
    fn clone(&self) -> (r: Self)
        ensures
            r.deep_view() == self.deep_view(),
    {
        VectorRecord {
            vector: self.vector.clone(),
            metadata: self.metadata.clone(),
        }
    }
}

/// Vectors by collection and identity.
#[derive(Debug, PartialEq)]
pub struct MemVectorStore {
    pub data: Vec<(String, Vec<(String, VectorRecord)>)>,
}

/// What a `MemVectorStore` holds.
#[verifier::ext_equal]
pub struct MemVectorStoreM {
    pub data: Seq<(Seq<char>, Seq<(Seq<char>, VectorRecordM)>)>,
}

impl DeepView for MemVectorStore {
    type V = MemVectorStoreM;

    open spec fn deep_view(&self) -> MemVectorStoreM {
        MemVectorStoreM {
            data: self.data.deep_view(),
        }
    }
}


/// The vectors of a collection.
pub open spec fn collection_of(s: MemVectorStoreM, collection: Seq<char>) -> Seq<
    (Seq<char>, VectorRecordM),
> {
    match lookup(s.data, collection) {
        Some(c) => c,
        None => seq![],
    }
}

/// The store with a vector set.
pub open spec fn upserted(
    s: MemVectorStoreM,
    collection: Seq<char>,
    id: Seq<char>,
    record: VectorRecordM,
) -> MemVectorStoreM {
    MemVectorStoreM {
        data: bind(s.data, collection, bind(collection_of(s, collection), id, record)),
    }
}

/// The store with a vector removed.
pub open spec fn vector_removed(
    s: MemVectorStoreM,
    collection: Seq<char>,
    id: Seq<char>,
) -> MemVectorStoreM {
    match lookup(s.data, collection) {
        Some(c) => MemVectorStoreM { data: bind(s.data, collection, unbind(c, id)) },
        None => s,
    }
}

/// A table with several entries set, one after the other.
pub open spec fn bind_all<T>(
    m: Seq<(Seq<char>, T)>,
    items: Seq<(Seq<char>, T)>,
) -> Seq<(Seq<char>, T)>
    decreases items.len(),
{
    if items.len() == 0 {
        m
    } else {
        bind(bind_all(m, items.drop_last()), items.last().0, items.last().1)
    }
}

/// Stored vectors with their scores.
pub open spec fn scored_vectors(
    found: Seq<(Seq<char>, VectorRecordM)>,
    scores: Seq<F32>,
) -> Seq<VectorSearchResultM> {
    Seq::new(
        found.len(),
        |i: int|
            VectorSearchResultM {
                id: found[i].0,
                score: scores[i],
                metadata: found[i].1.metadata,
            },
    )
}

/// What a list of vectors holds.
pub open spec fn vectors_view(s: Seq<VectorSearchResult>) -> Seq<VectorSearchResultM> {
    Seq::new(s.len(), |i: int| s[i].deep_view())
}

/// The best `top_k` of stored vectors by their scores.
pub open spec fn best_vectors(
    found: Seq<(Seq<char>, VectorRecordM)>,
    scores: Seq<F32>,
    top_k: usize,
    r: Seq<VectorSearchResult>,
) -> bool {
    exists|all: Seq<VectorSearchResult>| #[trigger]
        vectors_view(all) == scored_vectors(found, scores) && best_of(all, top_k, r)
}

/// Ranks stored vectors by their scores, the highest first, and keeps `top_k`.
pub fn rank_vectors(
    found: &Vec<(String, VectorRecord)>,
    scores: &Vec<F32>,
    top_k: usize,
) -> (r: Vec<VectorSearchResult>)
    requires
        found@.len() == scores@.len(),
    ensures
        best_vectors(found.deep_view(), scores@, top_k, r@),
{
    let ghost fs = found.deep_view();
    let ghost want = scored_vectors(fs, scores@);
    let mut all: Vec<VectorSearchResult> = Vec::new();
    let mut i: usize = 0;
    assert(vectors_view(all@) =~= want.take(0));
    while i < found.len()
        invariant
            i <= found.len(),
            found@.len() == scores@.len(),
            fs == found.deep_view(),
            want == scored_vectors(fs, scores@),
            vectors_view(all@) == want.take(i as int),
        decreases found.len() - i,
    {
        assert(fs[i as int] == (found@[i as int].0@, found@[i as int].1.deep_view()));
        let ghost done = vectors_view(all@);
        let hit = VectorSearchResult {
            id: found[i].0.clone(),
            score: scores[i],
            metadata: found[i].1.metadata.clone(),
        };
        all.push(hit);
        assert(hit.deep_view() == want[i as int]);
        assert(vectors_view(all@) =~= done.push(hit.deep_view()));
        assert(want.take(i + 1) =~= want.take(i as int).push(want[i as int]));
        i = i + 1;
    }
    assert(want.take(i as int) =~= want);
    take_best(all, top_k)
}

/// Whether the metadata of a stored vector pass a filter.
pub open spec fn record_passes(filter: Option<Json>) -> spec_fn((Seq<char>, VectorRecordM)) -> bool {
    |e: (Seq<char>, VectorRecordM)|
        match filter {
            Some(f) => meta_passes(f, e.1.metadata),
            None => true,
        }
}

fn copy_collection(c: &Vec<(String, VectorRecord)>) -> (r: Vec<(String, VectorRecord)>)
    ensures
        r.deep_view() == c.deep_view(),
{
    let mut r: Vec<(String, VectorRecord)> = Vec::new();
    let mut i: usize = 0;
    while i < c.len()
        invariant
            i <= c.len(),
            r@.len() == i,
            forall|k: int| 0 <= k < i ==> (#[trigger] r@[k]).deep_view() == c@[k].deep_view(),
        decreases c.len() - i,
    {
        r.push((c[i].0.clone(), c[i].1.clone()));
        i = i + 1;
    }
    assert(r.deep_view() =~= c.deep_view());
    r
}

impl MemVectorStore {
    pub fn new() -> (r: MemVectorStore)
        ensures
            r.deep_view() == (MemVectorStoreM { data: seq![] }),
    {
        let r = MemVectorStore { data: Vec::new() };
        assert(r.deep_view().data =~= seq![]);
        r
    }

    fn copy_of(&self, collection: &str) -> (r: Vec<(String, VectorRecord)>)
        ensures
            r.deep_view() == collection_of(self.deep_view(), collection@),
    {
        match get(&self.data, collection) {
            Some(c) => copy_collection(c),
            None => {
                let r: Vec<(String, VectorRecord)> = Vec::new();
                assert(r.deep_view() =~= seq![]);
                r
            },
        }
    }

    /// Sets a vector.
    pub fn upsert(&mut self, collection: &str, id: &str, vector: Vec<F32>, metadata: JsonValue)
        ensures
            final(self).deep_view() == upserted(
                old(self).deep_view(),
                collection@,
                id@,
                (VectorRecordM { vector: vector.deep_view(), metadata: metadata.deep_view() }),
            ),
    {
        let mut c = self.copy_of(collection);
        put(&mut c, id, VectorRecord { vector, metadata });
        put(&mut self.data, collection, c);
    }

    /// Sets several vectors of a collection.
    pub fn batch_upsert(&mut self, collection: &str, items: &Vec<(String, VectorRecord)>)
        ensures
            final(self).deep_view() == (MemVectorStoreM {
                data: bind(
                    old(self).deep_view().data,
                    collection@,
                    bind_all(
                        collection_of(old(self).deep_view(), collection@),
                        items.deep_view(),
                    ),
                ),
            }),
    {
        let mut c = self.copy_of(collection);
        let ghost start = c.deep_view();
        let ghost all = items.deep_view();
        let mut i: usize = 0;
        assert(all.take(0) =~= seq![]);
        while i < items.len()
            invariant
                i <= items.len(),
                all == items.deep_view(),
                c.deep_view() == bind_all(start, all.take(i as int)),
            decreases items.len() - i,
        {
            assert(all.take(i + 1).drop_last() =~= all.take(i as int));
            assert(all.take(i + 1).last() == (items@[i as int].0@, items@[i as int].1.deep_view()));
            put(&mut c, items[i].0.as_str(), items[i].1.clone());
            i = i + 1;
        }
        assert(all.take(i as int) =~= all);
        put(&mut self.data, collection, c);
    }

    /// The vectors of a collection whose metadata pass a filter.
    pub fn candidates(&self, collection: &str, filter: &Option<JsonValue>) -> (r: Vec<
        (String, VectorRecord),
    >)
        ensures
            r.deep_view() == keep(
                collection_of(self.deep_view(), collection@),
                record_passes(filter.deep_view()),
            ),
    {
        let c = self.copy_of(collection);
        let ghost all = c.deep_view();
        let ghost p = record_passes(filter.deep_view());
        let mut r: Vec<(String, VectorRecord)> = Vec::new();
        let mut i: usize = 0;
        assert(r.deep_view() =~= keep(all.take(0), p));
        while i < c.len()
            invariant
                i <= c.len(),
                all == c.deep_view(),
                p == record_passes(filter.deep_view()),
                r.deep_view() == keep(all.take(i as int), p),
            decreases c.len() - i,
        {
            proof {
                lemma_keep_step(all, p, i as int);
            }
            let ghost done = r.deep_view();
            assert(all[i as int] == (c@[i as int].0@, c@[i as int].1.deep_view()));
            let ok = match filter {
                Some(f) => filter_matches(f, &c[i].1.metadata),
                None => true,
            };
            if ok {
                r.push((c[i].0.clone(), c[i].1.clone()));
                assert(r.deep_view() =~= done.push(all[i as int]));
            }
            i = i + 1;
        }
        assert(all.take(i as int) =~= all);
        r
    }

    /// Removes a vector.
    pub fn delete(&mut self, collection: &str, id: &str)
        ensures
            final(self).deep_view() == vector_removed(old(self).deep_view(), collection@, id@),
    {
        if find_slot(&self.data, collection).is_some() {
            let mut c = self.copy_of(collection);
            remove(&mut c, id);
            put(&mut self.data, collection, c);
        }
    }
}

/// A vector that was set is found by exactly the filters that its metadata
/// pass, and other collections stay as they were.
pub proof fn law_upserted_vector_found(
    s: MemVectorStoreM,
    collection: Seq<char>,
    id: Seq<char>,
    record: VectorRecordM,
    filter: Option<Json>,
    other: Seq<char>,
)
    requires
        other != collection,
    ensures
        ({
            let t = upserted(s, collection, id, record);
            &&& keep(collection_of(t, collection), record_passes(filter)).contains((id, record))
                <==> record_passes(filter)((id, record))
            &&& collection_of(t, other) == collection_of(s, other)
        }),
{
    let c = bind(collection_of(s, collection), id, record);
    law_bind_lookup(s.data, collection, c, collection);
    law_bind_lookup(s.data, collection, c, other);
    law_bind_lookup(collection_of(s, collection), id, record, id);
    lemma_slot(c, id);
    assert(c[slot(c, id)->0] == (id, record));
    lemma_keep_contains(c, record_passes(filter));
}

/// A vector that was removed is gone, and the others of its collection stay as
/// they were.
pub proof fn law_removed_vector_gone(
    s: MemVectorStoreM,
    collection: Seq<char>,
    id: Seq<char>,
    other: Seq<char>,
)
    requires
        other != id,
    ensures
        ({
            let before = collection_of(s, collection);
            let after = collection_of(vector_removed(s, collection, id), collection);
            &&& lookup(after, id) is None
            &&& lookup(after, other) == lookup(before, other)
        }),
{
    match lookup(s.data, collection) {
        Some(c) => {
            law_bind_lookup(s.data, collection, unbind(c, id), collection);
            law_unbind_lookup(c, id, id);
            law_unbind_lookup(c, id, other);
        },
        None => {
            lemma_slot(Seq::<(Seq<char>, VectorRecordM)>::empty(), id);
        },
    }
}

// ---- Documents -------------------------------------------------------------

/// Documents by identity.
#[derive(Debug, PartialEq)]
pub struct MemDocStore {
    pub docs: Vec<(String, Document)>,
}

/// What a `MemDocStore` holds.
#[verifier::ext_equal]
pub struct MemDocStoreM {
    pub docs: Seq<(Seq<char>, DocumentM)>,
}

impl DeepView for MemDocStore {
    type V = MemDocStoreM;

    open spec fn deep_view(&self) -> MemDocStoreM {
        MemDocStoreM {
            docs: self.docs.deep_view(),
        }
    }
}


/// The keys of a table.
pub open spec fn keys_of<T>(m: Seq<(Seq<char>, T)>) -> Seq<Seq<char>> {
    Seq::new(m.len(), |i: int| m[i].0)
}

impl MemDocStore {
    pub fn new() -> (r: MemDocStore)
        ensures
            r.deep_view() == (MemDocStoreM { docs: seq![] }),
    {
        let r = MemDocStore { docs: Vec::new() };
        assert(r.deep_view().docs =~= seq![]);
        r
    }

    pub fn get(&self, id: &DocId) -> (r: Option<Document>)
        ensures
            r.deep_view() == lookup(self.deep_view().docs, id.deep_view()),
    {
        match get(&self.docs, id.as_str()) {
            Some(d) => Some(d.clone()),
            None => None,
        }
    }

    pub fn save(&mut self, doc: &Document)
        ensures
            final(self).deep_view().docs == bind(
                old(self).deep_view().docs,
                doc.deep_view().id,
                doc.deep_view(),
            ),
    {
        put(&mut self.docs, doc.id.as_str(), doc.clone());
    }

    pub fn delete(&mut self, id: &DocId)
        ensures
            final(self).deep_view().docs == unbind(old(self).deep_view().docs, id.deep_view()),
    {
        remove(&mut self.docs, id.as_str());
    }

    /// At most `limit` identities from place `offset` on.
    pub fn list(&self, offset: usize, limit: usize) -> (r: Vec<DocId>)
        ensures
            r.deep_view() == page(keys_of(self.deep_view().docs), offset, limit),
    {
        let ghost all = keys_of(self.deep_view().docs);
        let mut r: Vec<DocId> = Vec::new();
        let mut i: usize = offset;
        while i < self.docs.len() && r.len() < limit
            invariant
                offset <= i,
                all == keys_of(self.deep_view().docs),
                all.len() == self.docs@.len(),
                r@.len() == i - offset,
                r@.len() <= limit,
                offset <= all.len() ==> i <= all.len() && r.deep_view() == all.subrange(
                    offset as int,
                    i as int,
                ),
                offset > all.len() ==> i == offset,
            decreases self.docs.len() - i,
        {
            let ghost done = r.deep_view();
            assert(all[i as int] == self.docs@[i as int].0@);
            r.push(DocId(self.docs[i].0.clone()));
            assert(r.deep_view() =~= done.push(all[i as int]));
            assert(all.subrange(offset as int, i + 1) =~= all.subrange(
                offset as int,
                i as int,
            ).push(all[i as int]));
            i = i + 1;
        }
        assert(r.deep_view() =~= page(all, offset, limit));
        r
    }
}

/// A document that was saved is read back, and no other document changes.
pub proof fn law_save_then_get(s: MemDocStoreM, d: DocumentM, other: Seq<char>)
    ensures
        lookup(bind(s.docs, d.id, d), d.id) == Some(d),
        other != d.id ==> lookup(bind(s.docs, d.id, d), other) == lookup(s.docs, other),
{
    law_bind_lookup(s.docs, d.id, d, other);
}

/// A deleted document is gone, and every other one stays as it was.
pub proof fn law_delete_then_get(s: MemDocStoreM, id: Seq<char>, other: Seq<char>)
    requires
        other != id,
    ensures
        lookup(unbind(s.docs, id), id) is None,
        lookup(unbind(s.docs, id), other) == lookup(s.docs, other),
{
    law_unbind_lookup(s.docs, id, other);
}

// ---- Operations ------------------------------------------------------------

/// The operations of documents, in the order in which they came.
#[derive(Debug, PartialEq)]
pub struct MemOpLog {
    pub logs: Vec<(String, Vec<JsonValue>)>,
}

/// What a `MemOpLog` holds.
#[verifier::ext_equal]
pub struct MemOpLogM {
    pub logs: Seq<(Seq<char>, Seq<Json>)>,
}

impl DeepView for MemOpLog {
    type V = MemOpLogM;

    open spec fn deep_view(&self) -> MemOpLogM {
        MemOpLogM {
            logs: self.logs.deep_view(),
        }
    }
}


/// The operations of a document.
pub open spec fn log_of(s: MemOpLogM, id: Seq<char>) -> Seq<Json> {
    match lookup(s.logs, id) {
        Some(l) => l,
        None => seq![],
    }
}

impl MemOpLog {
    pub fn new() -> (r: MemOpLog)
        ensures
            r.deep_view() == (MemOpLogM { logs: seq![] }),
    {
        let r = MemOpLog { logs: Vec::new() };
        assert(r.deep_view().logs =~= seq![]);
        r
    }

    fn copy_of(&self, id: &str) -> (r: Vec<JsonValue>)
        ensures
            r.deep_view() == log_of(self.deep_view(), id@),
    {
        match get(&self.logs, id) {
            Some(l) => l.clone(),
            None => {
                let r: Vec<JsonValue> = Vec::new();
                assert(r.deep_view() =~= seq![]);
                r
            },
        }
    }

    /// Appends operations; the number of operations that there are then.
    pub fn append(&mut self, doc_id: &DocId, ops: Vec<JsonValue>) -> (r: u64)
        ensures
            final(self).deep_view().logs == bind(
                old(self).deep_view().logs,
                doc_id.deep_view(),
                log_of(old(self).deep_view(), doc_id.deep_view()) + ops.deep_view(),
            ),
            r == log_of(old(self).deep_view(), doc_id.deep_view()).len() + ops@.len(),
    {
        let mut l = self.copy_of(doc_id.as_str());
        let ghost before = l.deep_view();
        let ghost add = ops.deep_view();
        let mut more = ops;
        l.append(&mut more);
        assert(l.deep_view() =~= before + add);
        let n: usize = l.len();
        put(&mut self.logs, doc_id.as_str(), l);
        n as u64
    }

    /// The operations of a document from a number on.
    pub fn replay(&self, doc_id: &DocId, from_seq: u64) -> (r: Vec<JsonValue>)
        ensures
            ({
                let l = log_of(self.deep_view(), doc_id.deep_view());
                r.deep_view() == if from_seq < l.len() {
                    l.skip(from_seq as int)
                } else {
                    seq![]
                }
            }),
    {
        let l = self.copy_of(doc_id.as_str());
        let ghost all = l.deep_view();
        let mut r: Vec<JsonValue> = Vec::new();
        if from_seq < l.len() as u64 {
            let mut i: usize = from_seq as usize;
            while i < l.len()
                invariant
                    from_seq <= i <= l.len(),
                    all == l.deep_view(),
                    r.deep_view() == all.subrange(from_seq as int, i as int),
                decreases l.len() - i,
            {
                let ghost done = r.deep_view();
                r.push(l[i].clone());
                assert(r.deep_view() =~= done.push(all[i as int]));
                assert(all.subrange(from_seq as int, i + 1) =~= done.push(all[i as int]));
                i = i + 1;
            }
            assert(r.deep_view() =~= all.skip(from_seq as int));
        } else {
            assert(r.deep_view() =~= seq![]);
        }
        r
    }
}

/// Replaying from where the log ended before an append gives what was
/// appended.
pub proof fn law_append_then_replay(s: MemOpLogM, id: Seq<char>, ops: Seq<Json>)
    ensures
        ({
            let t = MemOpLogM { logs: bind(s.logs, id, log_of(s, id) + ops) };
            log_of(t, id).skip(log_of(s, id).len() as int) == ops
        }),
{
    law_bind_lookup(s.logs, id, log_of(s, id) + ops, id);
    assert((log_of(s, id) + ops).skip(log_of(s, id).len() as int) =~= ops);
}

// ---- Text ------------------------------------------------------------------

/// An indexed text, in lower case.
#[derive(Debug, PartialEq)]
pub struct TextEntry {
    pub text: String,
    pub meta: JsonValue,
}

/// What a `TextEntry` holds.
#[verifier::ext_equal]
pub struct TextEntryM {
    pub text: Seq<char>,
    pub meta: Json,
}

impl DeepView for TextEntry {
    type V = TextEntryM;

    open spec fn deep_view(&self) -> TextEntryM {
        TextEntryM {
            text: self.text.deep_view(),
            meta: self.meta.deep_view(),
        }
    }
}

impl Clone for TextEntry {
    fn clone(&self) -> (r: Self)
        ensures
            r.deep_view() == self.deep_view(),
    {
        TextEntry {
            text: self.text.clone(),
            meta: self.meta.clone(),
        }
    }
}

/// Texts by block.
#[derive(Debug, PartialEq)]
pub struct MemTextIndex {
    pub idx: Vec<(String, TextEntry)>,
}

/// What a `MemTextIndex` holds.
#[verifier::ext_equal]
pub struct MemTextIndexM {
    pub idx: Seq<(Seq<char>, TextEntryM)>,
}

impl DeepView for MemTextIndex {
    type V = MemTextIndexM;

    open spec fn deep_view(&self) -> MemTextIndexM {
        MemTextIndexM {
            idx: self.idx.deep_view(),
        }
    }
}


/// A block that a query found, with what its score is computed from.
#[derive(Debug, PartialEq)]
pub struct TextCandidate {
    pub block_id: String,
    pub snippet: String,
    /// How many words the text has.
    pub words: usize,
    /// How often each term stands in the text.
    pub frequencies: Vec<usize>,
}

/// What a `TextCandidate` holds.
#[verifier::ext_equal]
pub struct TextCandidateM {
    pub block_id: Seq<char>,
    pub snippet: Seq<char>,
    pub words: usize,
    pub frequencies: Seq<usize>,
}

impl DeepView for TextCandidate {
    type V = TextCandidateM;

    open spec fn deep_view(&self) -> TextCandidateM {
        TextCandidateM {
            block_id: self.block_id.deep_view(),
            snippet: self.snippet.deep_view(),
            words: self.words,
            frequencies: self.frequencies.deep_view(),
        }
    }
}

impl Clone for TextCandidate {
    fn clone(&self) -> (r: Self)
        ensures
            r.deep_view() == self.deep_view(),
    {
        TextCandidate {
            block_id: self.block_id.clone(),
            snippet: self.snippet.clone(),
            words: self.words,
            frequencies: self.frequencies.clone(),
        }
    }
}

/// What a search found, with what the scores are computed from.
#[derive(Debug, PartialEq)]
pub struct TextScan {
    /// How many texts there are.
    pub total: usize,
    /// In how many texts each term stands.
    pub doc_frequencies: Vec<usize>,
    pub candidates: Vec<TextCandidate>,
}

/// What a `TextScan` holds.
#[verifier::ext_equal]
pub struct TextScanM {
    pub total: usize,
    pub doc_frequencies: Seq<usize>,
    pub candidates: Seq<TextCandidateM>,
}

impl DeepView for TextScan {
    type V = TextScanM;

    open spec fn deep_view(&self) -> TextScanM {
        TextScanM {
            total: self.total,
            doc_frequencies: self.doc_frequencies.deep_view(),
            candidates: self.candidates.deep_view(),
        }
    }
}

impl Clone for TextScan {
    fn clone(&self) -> (r: Self)
        ensures
            r.deep_view() == self.deep_view(),
    {
        TextScan {
            total: self.total,
            doc_frequencies: self.doc_frequencies.clone(),
            candidates: self.candidates.clone(),
        }
    }
}

/// Every term stands in the text.
pub open spec fn all_terms(text: Seq<char>, terms: Seq<Seq<char>>) -> bool {
    forall|i: int| 0 <= i < terms.len() ==> holds(text, #[trigger] terms[i])
}

/// Some term stands in the text.
pub open spec fn any_term(text: Seq<char>, terms: Seq<Seq<char>>) -> bool {
    exists|i: int| 0 <= i < terms.len() && holds(text, #[trigger] terms[i])
}

/// Some word begins with a prefix.
pub open spec fn any_word(ws: Seq<Seq<char>>, prefix: Seq<char>) -> bool {
    exists|i: int| 0 <= i < ws.len() && begins(#[trigger] ws[i], prefix)
}

/// Some word of the text begins with a term.
pub open spec fn any_prefix(text: Seq<char>, terms: Seq<Seq<char>>) -> bool {
    exists|i: int|
        0 <= i < terms.len() && any_word(words(text), #[trigger] terms[i])
}

/// Whether a text passes a query, phrase and filter included.
pub open spec fn text_matches(e: TextEntryM, q: TextQueryM) -> bool {
    let phrase = match q.phrase {
        Some(p) => Some(holds(e.text, p)),
        None => None,
    };
    &&& match q.mode {
        MatchMode::Exact => all_terms(e.text, q.terms),
        MatchMode::Prefix => any_prefix(e.text, q.terms),
        MatchMode::Fuzzy => any_term(e.text, q.terms),
        MatchMode::Phrase => phrase == Some(true),
        MatchMode::Boolean => match q.bool_op {
            Some(BoolOp::Or) => any_term(e.text, q.terms),
            Some(BoolOp::Not) => !any_term(e.text, q.terms),
            _ => all_terms(e.text, q.terms),
        },
    }
    &&& phrase != Some(false)
    &&& match q.filter {
        Some(f) => meta_passes(f, e.meta),
        None => true,
    }
}

/// Whether an entry of the index passes a query.
pub open spec fn entry_matches(q: TextQueryM) -> spec_fn((Seq<char>, TextEntryM)) -> bool {
    |e: (Seq<char>, TextEntryM)| text_matches(e.1, q)
}

/// Whether the text of an entry holds a term.
pub open spec fn entry_has(term: Seq<char>) -> spec_fn((Seq<char>, TextEntryM)) -> bool {
    |e: (Seq<char>, TextEntryM)| holds(e.1.text, term)
}

/// How often a term stands in a text, as far as it can be counted.
pub open spec fn frequency(text: Seq<char>, term: Seq<char>) -> usize {
    let n = occurrences(text, term, 0);
    if n <= usize::MAX {
        n as usize
    } else {
        usize::MAX
    }
}

/// What is found of an entry.
pub open spec fn candidate_of(e: (Seq<char>, TextEntryM), q: TextQueryM) -> TextCandidateM {
    TextCandidateM {
        block_id: e.0,
        snippet: first_chars(e.1.text, 80),
        words: words(e.1.text).len() as usize,
        frequencies: Seq::new(q.terms.len(), |i: int| frequency(e.1.text, q.terms[i])),
    }
}

/// A query in lower case.
pub open spec fn lowered(q: TextQueryM) -> TextQueryM {
    TextQueryM {
        terms: Seq::new(q.terms.len(), |i: int| small(q.terms[i])),
        phrase: match q.phrase {
            Some(p) => Some(small(p)),
            None => None,
        },
        ..q
    }
}

/// A query in lower case.
pub fn lower_query(query: &TextQuery) -> (r: TextQuery)
    ensures
        r.deep_view() == lowered(query.deep_view()),
{
    let ghost q = query.deep_view();
    let mut r = query.clone();
    r.phrase = match &query.phrase {
        Some(p) => Some(to_lower(p.as_str())),
        None => None,
    };
    let mut terms: Vec<String> = Vec::new();
    let mut i: usize = 0;
    while i < query.terms.len()
        invariant
            i <= query.terms.len(),
            q == query.deep_view(),
            terms@.len() == i,
            forall|k: int| 0 <= k < i ==> (#[trigger] terms@[k])@ == small(q.terms[k]),
        decreases query.terms.len() - i,
    {
        assert(q.terms[i as int] == query.terms@[i as int]@);
        terms.push(to_lower(query.terms[i].as_str()));
        i = i + 1;
    }
    assert(terms.deep_view() =~= lowered(q).terms);
    r.terms = terms;
    r
}

/// What a search in lower case finds.
pub open spec fn scan_of(s: MemTextIndexM, q: TextQueryM) -> TextScanM {
    let found = keep(s.idx, entry_matches(q));
    TextScanM {
        total: s.idx.len() as usize,
        doc_frequencies: Seq::new(
            q.terms.len(),
            |i: int| keep(s.idx, entry_has(q.terms[i])).len() as usize,
        ),
        candidates: Seq::new(found.len(), |i: int| candidate_of(found[i], q)),
    }
}

fn every_term(text: &str, terms: &Vec<String>) -> (r: bool)
    ensures
        r == all_terms(text@, terms.deep_view()),
{
    let ghost all = terms.deep_view();
    let mut i: usize = 0;
    while i < terms.len()
        invariant
            i <= terms.len(),
            all == terms.deep_view(),
            forall|k: int| 0 <= k < i ==> holds(text@, #[trigger] all[k]),
        decreases terms.len() - i,
    {
        assert(all[i as int] == terms@[i as int]@);
        if !contains_str(text, terms[i].as_str()) {
            return false;
        }
        i = i + 1;
    }
    true
}

fn some_term(text: &str, terms: &Vec<String>) -> (r: bool)
    ensures
        r == any_term(text@, terms.deep_view()),
{
    let ghost all = terms.deep_view();
    let mut i: usize = 0;
    while i < terms.len()
        invariant
            i <= terms.len(),
            all == terms.deep_view(),
            forall|k: int| 0 <= k < i ==> !holds(text@, #[trigger] all[k]),
        decreases terms.len() - i,
    {
        assert(all[i as int] == terms@[i as int]@);
        if contains_str(text, terms[i].as_str()) {
            return true;
        }
        i = i + 1;
    }
    false
}

fn some_prefix(text: &str, terms: &Vec<String>) -> (r: bool)
    ensures
        r == any_prefix(text@, terms.deep_view()),
{
    let ghost all = terms.deep_view();
    let ws = split_words(text);
    let ghost wall = ws.deep_view();
    let mut i: usize = 0;
    while i < terms.len()
        invariant
            i <= terms.len(),
            all == terms.deep_view(),
            wall == ws.deep_view(),
            wall == words(text@),
            forall|k: int| 0 <= k < i ==> !any_word(wall, #[trigger] all[k]),
        decreases terms.len() - i,
    {
        assert(all[i as int] == terms@[i as int]@);
        let t = terms[i].as_str();
        let mut j: usize = 0;
        while j < ws.len()
            invariant
                j <= ws.len(),
                i < terms.len(),
                all == terms.deep_view(),
                wall == ws.deep_view(),
                wall == words(text@),
                t@ == all[i as int],
                forall|k: int| 0 <= k < j ==> !begins(#[trigger] wall[k], t@),
            decreases ws.len() - j,
        {
            assert(wall[j as int] == ws@[j as int]@);
            if starts_str(ws[j].as_str(), t) {
                assert(any_word(wall, all[i as int]));
                return true;
            }
            j = j + 1;
        }
        i = i + 1;
    }
    false
}

fn passes_query(e: &TextEntry, q: &TextQuery) -> (r: bool)
    ensures
        r == text_matches(e.deep_view(), q.deep_view()),
{
    let text = e.text.as_str();
    let phrase = match &q.phrase {
        Some(p) => Some(contains_str(text, p.as_str())),
        None => None,
    };
    let matched = match q.mode {
        MatchMode::Exact => every_term(text, &q.terms),
        MatchMode::Prefix => some_prefix(text, &q.terms),
        MatchMode::Fuzzy => some_term(text, &q.terms),
        MatchMode::Phrase => match phrase {
            Some(b) => b,
            None => false,
        },
        MatchMode::Boolean => match &q.bool_op {
            Some(BoolOp::Or) => some_term(text, &q.terms),
            Some(BoolOp::Not) => !some_term(text, &q.terms),
            _ => every_term(text, &q.terms),
        },
    };
    let phrase_ok = match phrase {
        Some(b) => b,
        None => true,
    };
    let filter_ok = match &q.filter {
        Some(f) => filter_matches(f, &e.meta),
        None => true,
    };
    matched && phrase_ok && filter_ok
}

fn make_candidate(id: &str, e: &TextEntry, q: &TextQuery) -> (r: TextCandidate)
    ensures
        r.deep_view() == candidate_of((id@, e.deep_view()), q.deep_view()),
{
    let ghost terms = q.deep_view().terms;
    let mut frequencies: Vec<usize> = Vec::new();
    let mut i: usize = 0;
    while i < q.terms.len()
        invariant
            i <= q.terms.len(),
            terms == q.terms.deep_view(),
            frequencies@.len() == i,
            forall|k: int|
                0 <= k < i ==> #[trigger] frequencies@[k] == frequency(e.text@, terms[k]),
        decreases q.terms.len() - i,
    {
        assert(terms[i as int] == q.terms@[i as int]@);
        let n: usize = match count_str(e.text.as_str(), q.terms[i].as_str()) {
            Some(n) => n,
            None => usize::MAX,
        };
        frequencies.push(n);
        i = i + 1;
    }
    let ws = split_words(e.text.as_str());
    assert(ws.deep_view().len() == ws@.len());
    let r = TextCandidate {
        block_id: id.to_owned(),
        snippet: take_chars(e.text.as_str(), 80),
        words: ws.len(),
        frequencies,
    };
    assert(r.deep_view().frequencies =~= candidate_of(
        (id@, e.deep_view()),
        q.deep_view(),
    ).frequencies);
    r
}

impl MemTextIndex {
    pub fn new() -> (r: MemTextIndex)
        ensures
            r.deep_view() == (MemTextIndexM { idx: seq![] }),
    {
        let r = MemTextIndex { idx: Vec::new() };
        assert(r.deep_view().idx =~= seq![]);
        r
    }

    /// Indexes the text of a block.
    pub fn index_block(&mut self, block_id: &str, text: &str, meta: JsonValue)
        ensures
            final(self).deep_view().idx == bind(
                old(self).deep_view().idx,
                block_id@,
                (TextEntryM { text: small(text@), meta: meta.deep_view() }),
            ),
    {
        self.index_lowered(block_id, to_lower(text), meta);
    }

    /// Indexes the text of a block that is in lower case.
    pub fn index_lowered(&mut self, block_id: &str, text: String, meta: JsonValue)
        ensures
            final(self).deep_view().idx == bind(
                old(self).deep_view().idx,
                block_id@,
                (TextEntryM { text: text@, meta: meta.deep_view() }),
            ),
    {
        put(&mut self.idx, block_id, TextEntry { text, meta });
    }

    pub fn remove(&mut self, block_id: &str)
        ensures
            final(self).deep_view().idx == unbind(old(self).deep_view().idx, block_id@),
    {
        remove(&mut self.idx, block_id);
    }

    /// In how many texts a term stands.
    fn doc_frequency(&self, term: &str) -> (r: usize)
        ensures
            r == keep(self.deep_view().idx, entry_has(term@)).len(),
    {
        let ghost all = self.deep_view().idx;
        let ghost p = entry_has(term@);
        let mut n: usize = 0;
        let mut i: usize = 0;
        while i < self.idx.len()
            invariant
                i <= self.idx.len(),
                all == self.deep_view().idx,
                p == entry_has(term@),
                n <= i,
                n == keep(all.take(i as int), p).len(),
            decreases self.idx.len() - i,
        {
            proof {
                lemma_keep_step(all, p, i as int);
            }
            assert(all[i as int] == (self.idx@[i as int].0@, self.idx@[i as int].1.deep_view()));
            if contains_str(self.idx[i].1.text.as_str(), term) {
                n = n + 1;
            }
            i = i + 1;
        }
        assert(all.take(i as int) =~= all);
        n
    }

    /// What a query finds, whatever its case, with what the scores are computed
    /// from.
    pub fn scan(&self, query: &TextQuery) -> (r: TextScan)
        ensures
            r.deep_view() == scan_of(self.deep_view(), lowered(query.deep_view())),
    {
        self.scan_lowered(&lower_query(query))
    }

    /// What a query in lower case finds, with what the scores are computed
    /// from.
    pub fn scan_lowered(&self, query: &TextQuery) -> (r: TextScan)
        ensures
            r.deep_view() == scan_of(self.deep_view(), query.deep_view()),
    {
        let ghost s = self.deep_view();
        let ghost q = query.deep_view();
        let mut doc_frequencies: Vec<usize> = Vec::new();
        let mut i: usize = 0;
        while i < query.terms.len()
            invariant
                i <= query.terms.len(),
                s == self.deep_view(),
                q == query.deep_view(),
                doc_frequencies@.len() == i,
                forall|k: int|
                    0 <= k < i ==> #[trigger] doc_frequencies@[k] == keep(
                        s.idx,
                        entry_has(q.terms[k]),
                    ).len(),
            decreases query.terms.len() - i,
        {
            assert(q.terms[i as int] == query.terms@[i as int]@);
            doc_frequencies.push(self.doc_frequency(query.terms[i].as_str()));
            i = i + 1;
        }
        let ghost p = entry_matches(q);
        let mut candidates: Vec<TextCandidate> = Vec::new();
        let mut k: usize = 0;
        while k < self.idx.len()
            invariant
                k <= self.idx.len(),
                s == self.deep_view(),
                q == query.deep_view(),
                p == entry_matches(q),
                candidates@.len() == keep(s.idx.take(k as int), p).len(),
                forall|j: int|
                    0 <= j < candidates@.len() ==> (#[trigger] candidates@[j]).deep_view()
                        == candidate_of(keep(s.idx.take(k as int), p)[j], q),
            decreases self.idx.len() - k,
        {
            proof {
                lemma_keep_step(s.idx, p, k as int);
            }
            let e = &self.idx[k];
            assert(s.idx[k as int] == (e.0@, e.1.deep_view()));
            if passes_query(&e.1, query) {
                candidates.push(make_candidate(e.0.as_str(), &e.1, query));
            }
            k = k + 1;
        }
        assert(s.idx.take(k as int) =~= s.idx);
        let r = TextScan { total: self.idx.len(), doc_frequencies, candidates };
        proof {
            let want = scan_of(s, q);
            assert(s.idx.len() == self.idx.len());
            assert(r.deep_view().doc_frequencies =~= want.doc_frequencies) by {
                assert forall|j: int| 0 <= j < q.terms.len() implies r.deep_view().doc_frequencies[j]
                    == want.doc_frequencies[j] by {
                    assert(doc_frequencies@[j] == keep(s.idx, entry_has(q.terms[j])).len());
                }
            }
            assert(r.deep_view().candidates =~= want.candidates);
        }
        r
    }
}

/// A text that was indexed is found by exactly the queries that it passes, the
/// case of both aside.
pub proof fn law_indexed_text_found(
    s: MemTextIndexM,
    id: Seq<char>,
    text: Seq<char>,
    meta: Json,
    query: TextQueryM,
)
    ensures
        ({
            let e = TextEntryM { text: small(text), meta };
            let q = lowered(query);
            keep(bind(s.idx, id, e), entry_matches(q)).contains((id, e)) <==> text_matches(e, q)
        }),
{
    let e = TextEntryM { text: small(text), meta };
    let q = lowered(query);
    let m = bind(s.idx, id, e);
    law_bind_lookup(s.idx, id, e, id);
    lemma_slot(m, id);
    let i = slot(m, id)->0;
    assert(m[i] == (id, e));
    lemma_keep_contains(m, entry_matches(q));
}

/// A text that was removed is found by no query.
pub proof fn law_removed_text_gone(s: MemTextIndexM, id: Seq<char>, query: TextQueryM, i: int)
    requires
        0 <= i < keep(unbind(s.idx, id), entry_matches(lowered(query))).len(),
    ensures
        keep(unbind(s.idx, id), entry_matches(lowered(query)))[i].0 != id,
{
    let m = unbind(s.idx, id);
    let found = keep(m, entry_matches(lowered(query)));
    lemma_keep_contains(m, entry_matches(lowered(query)));
    assert(found.contains(found[i]));
    law_unbind_lookup(s.idx, id, id);
    lemma_slot(m, id);
    let j = choose|j: int| 0 <= j < m.len() && m[j] == found[i];
    assert(m[j].0 != id);
}

/// Found texts with their scores.
pub open spec fn scored_texts(found: Seq<TextCandidateM>, scores: Seq<F32>) -> Seq<TextHitM> {
    Seq::new(
        found.len(),
        |i: int|
            TextHitM {
                block_id: found[i].block_id,
                snippet: found[i].snippet,
                score: scores[i],
            },
    )
}

/// What a list of text hits holds.
pub open spec fn texts_view(s: Seq<TextHit>) -> Seq<TextHitM> {
    Seq::new(s.len(), |i: int| s[i].deep_view())
}

/// The best `top_k` of found texts by their scores.
pub open spec fn best_texts(
    found: Seq<TextCandidateM>,
    scores: Seq<F32>,
    top_k: usize,
    r: Seq<TextHit>,
) -> bool {
    exists|all: Seq<TextHit>| #[trigger]
        texts_view(all) == scored_texts(found, scores) && best_of(all, top_k, r)
}

/// Ranks found texts by their scores, the highest first, and keeps `top_k`.
pub fn rank_texts(found: &Vec<TextCandidate>, scores: &Vec<F32>, top_k: usize) -> (r: Vec<TextHit>)
    requires
        found@.len() == scores@.len(),
    ensures
        best_texts(found.deep_view(), scores@, top_k, r@),
{
    let ghost fs = found.deep_view();
    let ghost want = scored_texts(fs, scores@);
    let mut all: Vec<TextHit> = Vec::new();
    let mut i: usize = 0;
    assert(texts_view(all@) =~= want.take(0));
    while i < found.len()
        invariant
            i <= found.len(),
            found@.len() == scores@.len(),
            fs == found.deep_view(),
            want == scored_texts(fs, scores@),
            texts_view(all@) == want.take(i as int),
        decreases found.len() - i,
    {
        assert(fs[i as int] == found@[i as int].deep_view());
        let ghost done = texts_view(all@);
        let hit = TextHit {
            block_id: found[i].block_id.clone(),
            snippet: found[i].snippet.clone(),
            score: scores[i],
        };
        all.push(hit);
        assert(hit.deep_view() == want[i as int]);
        assert(texts_view(all@) =~= done.push(hit.deep_view()));
        assert(want.take(i + 1) =~= want.take(i as int).push(want[i as int]));
        i = i + 1;
    }
    assert(want.take(i as int) =~= want);
    take_best(all, top_k)
}

// ---- Links -----------------------------------------------------------------

/// The links out of blocks.
#[derive(Debug, PartialEq)]
pub struct MemLinkStore {
    pub outbound: Vec<(String, Vec<WikiLink>)>,
}

/// What a `MemLinkStore` holds.
#[verifier::ext_equal]
pub struct MemLinkStoreM {
    pub outbound: Seq<(Seq<char>, Seq<WikiLinkM>)>,
}

impl DeepView for MemLinkStore {
    type V = MemLinkStoreM;

    open spec fn deep_view(&self) -> MemLinkStoreM {
        MemLinkStoreM {
            outbound: self.outbound.deep_view(),
        }
    }
}


/// All links, block by block.
pub open spec fn links_in(m: Seq<(Seq<char>, Seq<WikiLinkM>)>) -> Seq<WikiLinkM>
    decreases m.len(),
{
    if m.len() == 0 {
        seq![]
    } else {
        links_in(m.drop_last()) + m.last().1
    }
}

/// Whether a link leads to the target with a key.
pub open spec fn leads_to(key: Seq<char>) -> spec_fn(WikiLinkM) -> bool {
    |l: WikiLinkM| target_key(l.to) == key
}

/// Whether a link leads nowhere.
pub open spec fn is_broken() -> spec_fn(WikiLinkM) -> bool {
    |l: WikiLinkM| l.to is Broken
}

impl MemLinkStore {
    pub fn new() -> (r: MemLinkStore)
        ensures
            r.deep_view() == (MemLinkStoreM { outbound: seq![] }),
    {
        let r = MemLinkStore { outbound: Vec::new() };
        assert(r.deep_view().outbound =~= seq![]);
        r
    }

    /// Sets the links out of a block.
    pub fn upsert_links(&mut self, from: &BlockId, links: &Vec<WikiLink>)
        ensures
            final(self).deep_view().outbound == bind(
                old(self).deep_view().outbound,
                from.deep_view(),
                links.deep_view(),
            ),
    {
        put(&mut self.outbound, from.as_str(), links.clone());
    }

    fn all_links(&self) -> (r: Vec<WikiLink>)
        ensures
            r.deep_view() == links_in(self.deep_view().outbound),
    {
        let ghost all = self.deep_view().outbound;
        let mut r: Vec<WikiLink> = Vec::new();
        let mut i: usize = 0;
        assert(r.deep_view() =~= links_in(all.take(0)));
        while i < self.outbound.len()
            invariant
                i <= self.outbound.len(),
                all == self.deep_view().outbound,
                r.deep_view() == links_in(all.take(i as int)),
            decreases self.outbound.len() - i,
        {
            assert(all.take(i + 1).drop_last() =~= all.take(i as int));
            assert(all.take(i + 1).last().1 == self.outbound@[i as int].1.deep_view());
            let ghost done = r.deep_view();
            let mut more = self.outbound[i].1.clone();
            let ghost add = more.deep_view();
            r.append(&mut more);
            assert(r.deep_view() =~= done + add);
            i = i + 1;
        }
        assert(all.take(i as int) =~= all);
        r
    }

    /// The links that lead to the target with a key.
    pub fn backlinks(&self, target_key: &str) -> (r: Vec<WikiLink>)
        ensures
            r.deep_view() == keep(links_in(self.deep_view().outbound), leads_to(target_key@)),
    {
        let links = self.all_links();
        let ghost all = links.deep_view();
        let ghost p = leads_to(target_key@);
        let mut r: Vec<WikiLink> = Vec::new();
        let mut i: usize = 0;
        assert(r.deep_view() =~= keep(all.take(0), p));
        while i < links.len()
            invariant
                i <= links.len(),
                all == links.deep_view(),
                p == leads_to(target_key@),
                r.deep_view() == keep(all.take(i as int), p),
            decreases links.len() - i,
        {
            proof {
                lemma_keep_step(all, p, i as int);
            }
            let ghost done = r.deep_view();
            assert(all[i as int] == links@[i as int].deep_view());
            let key = links[i].to.key();
            if crate::text::same(key.as_str(), target_key) {
                r.push(links[i].clone());
                assert(r.deep_view() =~= done.push(all[i as int]));
            }
            i = i + 1;
        }
        assert(all.take(i as int) =~= all);
        r
    }

    /// The links that lead nowhere.
    pub fn broken_links(&self) -> (r: Vec<WikiLink>)
        ensures
            r.deep_view() == keep(links_in(self.deep_view().outbound), is_broken()),
    {
        let links = self.all_links();
        let ghost all = links.deep_view();
        let ghost p = is_broken();
        let mut r: Vec<WikiLink> = Vec::new();
        let mut i: usize = 0;
        assert(r.deep_view() =~= keep(all.take(0), p));
        while i < links.len()
            invariant
                i <= links.len(),
                all == links.deep_view(),
                p == is_broken(),
                r.deep_view() == keep(all.take(i as int), p),
            decreases links.len() - i,
        {
            proof {
                lemma_keep_step(all, p, i as int);
            }
            let ghost done = r.deep_view();
            assert(all[i as int] == links@[i as int].deep_view());
            let broken = match &links[i].to {
                LinkTarget::Broken(_) => true,
                _ => false,
            };
            if broken {
                r.push(links[i].clone());
                assert(r.deep_view() =~= done.push(all[i as int]));
            }
            i = i + 1;
        }
        assert(all.take(i as int) =~= all);
        r
    }
}

proof fn lemma_links_in(m: Seq<(Seq<char>, Seq<WikiLinkM>)>, i: int, l: WikiLinkM)
    requires
        0 <= i < m.len(),
        m[i].1.contains(l),
    ensures
        links_in(m).contains(l),
    decreases m.len(),
{
    let front = m.drop_last();
    let rest = links_in(front);
    if i < front.len() {
        assert(front[i] == m[i]);
        lemma_links_in(front, i, l);
        let k = choose|k: int| 0 <= k < rest.len() && rest[k] == l;
        assert(links_in(m)[k] == l);
    } else {
        let k = choose|k: int| 0 <= k < m[i].1.len() && m[i].1[k] == l;
        assert(links_in(m)[rest.len() + k] == l);
    }
}

/// A link that was set out of a block is found from its target, and among the
/// broken ones if it leads nowhere.
pub proof fn law_link_found(
    s: MemLinkStoreM,
    from: Seq<char>,
    links: Seq<WikiLinkM>,
    l: WikiLinkM,
)
    requires
        links.contains(l),
    ensures
        ({
            let all = links_in(bind(s.outbound, from, links));
            &&& keep(all, leads_to(target_key(l.to))).contains(l)
            &&& l.to is Broken ==> keep(all, is_broken()).contains(l)
        }),
{
    let m = bind(s.outbound, from, links);
    let all = links_in(m);
    law_bind_lookup(s.outbound, from, links, from);
    lemma_slot(m, from);
    lemma_links_in(m, slot(m, from)->0, l);
    lemma_keep_contains(all, leads_to(target_key(l.to)));
    lemma_keep_contains(all, is_broken());
}

// ---- Attachments -----------------------------------------------------------

/// An attachment: its bytes, its type and how many blocks refer to it.
#[derive(Debug, PartialEq)]
pub struct BlobRecord {
    pub bytes: Vec<u8>,
    pub content_type: String,
    pub refs: i64,
}

/// What a `BlobRecord` holds.
#[verifier::ext_equal]
pub struct BlobRecordM {
    pub bytes: Seq<u8>,
    pub content_type: Seq<char>,
    pub refs: i64,
}

impl DeepView for BlobRecord {
    type V = BlobRecordM;

    open spec fn deep_view(&self) -> BlobRecordM {
        BlobRecordM {
            bytes: self.bytes.deep_view(),
            content_type: self.content_type.deep_view(),
            refs: self.refs,
        }
    }
}

impl Clone for BlobRecord {
    fn clone(&self) -> (r: Self)
        ensures
            r.deep_view() == self.deep_view(),
    {
        BlobRecord {
            bytes: self.bytes.clone(),
            content_type: self.content_type.clone(),
            refs: self.refs,
        }
    }
}

/// Attachments by identity.
#[derive(Debug, PartialEq)]
pub struct MemBlobStore {
    pub blobs: Vec<(String, BlobRecord)>,
}

/// What a `MemBlobStore` holds.
#[verifier::ext_equal]
pub struct MemBlobStoreM {
    pub blobs: Seq<(Seq<char>, BlobRecordM)>,
}

impl DeepView for MemBlobStore {
    type V = MemBlobStoreM;

    open spec fn deep_view(&self) -> MemBlobStoreM {
        MemBlobStoreM {
            blobs: self.blobs.deep_view(),
        }
    }
}


/// Whether an attachment is referred to.
pub open spec fn is_referred() -> spec_fn((Seq<char>, BlobRecordM)) -> bool {
    |e: (Seq<char>, BlobRecordM)| e.1.refs > 0
}

impl MemBlobStore {
    pub fn new() -> (r: MemBlobStore)
        ensures
            r.deep_view() == (MemBlobStoreM { blobs: seq![] }),
    {
        let r = MemBlobStore { blobs: Vec::new() };
        assert(r.deep_view().blobs =~= seq![]);
        r
    }

    /// Stores an attachment that nothing refers to yet.
    pub fn put(&mut self, bytes: Vec<u8>, content_type: &str) -> (r: BlobId)
        ensures
            uuid_text(r.deep_view(), '4'),
            final(self).deep_view().blobs == bind(
                old(self).deep_view().blobs,
                r.deep_view(),
                (BlobRecordM { bytes: bytes.deep_view(), content_type: content_type@, refs: 0 }),
            ),
    {
        let id = fresh_v4();
        put(
            &mut self.blobs,
            id.as_str(),
            BlobRecord { bytes, content_type: content_type.to_owned(), refs: 0 },
        );
        BlobId(id)
    }

    /// The bytes and the type of an attachment.
    pub fn get(&self, id: &BlobId) -> (r: Result<(Vec<u8>, String), WikiError>)
        ensures
            outcome(r) == (match lookup(self.deep_view().blobs, id.deep_view()) {
                Some(b) => Ok((b.bytes, b.content_type)),
                None => Err(WikiErrorM::NotFound("blob "@ + id.deep_view())),
            }),
    {
        match get(&self.blobs, id.0.as_str()) {
            Some(b) => Ok((b.bytes.clone(), b.content_type.clone())),
            None => Err(WikiError::NotFound(cat("blob ", id.0.as_str()))),
        }
    }

    /// Counts references to an attachment up or down; their number, at least
    /// zero.
    pub fn ref_delta(&mut self, id: &BlobId, delta: i32) -> (r: Result<u64, WikiError>)
        requires
            lookup(old(self).deep_view().blobs, id.deep_view()) matches Some(b) ==> i64::MIN
                <= b.refs + delta <= i64::MAX,
        ensures
            match lookup(old(self).deep_view().blobs, id.deep_view()) {
                None => *final(self) == *old(self) && outcome(r) == Err::<u64, WikiErrorM>(
                    WikiErrorM::NotFound("blob "@ + id.deep_view()),
                ),
                Some(b) => {
                    &&& final(self).deep_view().blobs == bind(
                        old(self).deep_view().blobs,
                        id.deep_view(),
                        (BlobRecordM { refs: (b.refs + delta) as i64, ..b }),
                    )
                    &&& outcome(r) == Ok::<u64, WikiErrorM>(
                        if b.refs + delta > 0 {
                            (b.refs + delta) as u64
                        } else {
                            0
                        },
                    )
                },
            },
    {
        let mut record = match get(&self.blobs, id.0.as_str()) {
            Some(b) => b.clone(),
            None => {
                return Err(WikiError::NotFound(cat("blob ", id.0.as_str())));
            },
        };
        record.refs = record.refs + delta as i64;
        let n: i64 = record.refs;
        put(&mut self.blobs, id.0.as_str(), record);
        if n > 0 {
            Ok(n as u64)
        } else {
            Ok(0)
        }
    }

    /// Removes the attachments that nothing refers to; how many these were.
    pub fn gc(&mut self) -> (r: usize)
        ensures
            final(self).deep_view().blobs == keep(old(self).deep_view().blobs, is_referred()),
            r == old(self).deep_view().blobs.len() - final(self).deep_view().blobs.len(),
    {
        let ghost all = self.deep_view().blobs;
        let ghost p = is_referred();
        let count: usize = self.blobs.len();
        let mut left: Vec<(String, BlobRecord)> = Vec::new();
        let mut i: usize = 0;
        assert(left.deep_view() =~= keep(all.take(0), p));
        while i < self.blobs.len()
            invariant
                i <= self.blobs.len(),
                all == self.deep_view().blobs,
                p == is_referred(),
                left@.len() <= i,
                left.deep_view() == keep(all.take(i as int), p),
            decreases self.blobs.len() - i,
        {
            proof {
                lemma_keep_step(all, p, i as int);
            }
            let ghost done = left.deep_view();
            assert(all[i as int] == (
                self.blobs@[i as int].0@,
                self.blobs@[i as int].1.deep_view(),
            ));
            if self.blobs[i].1.refs > 0 {
                left.push((self.blobs[i].0.clone(), self.blobs[i].1.clone()));
                assert(left.deep_view() =~= done.push(all[i as int]));
            }
            i = i + 1;
        }
        assert(all.take(i as int) =~= all);
        assert(left.deep_view().len() == left@.len());
        assert(all.len() == count);
        self.blobs = left;
        count - self.blobs.len()
    }
}

/// An attachment that was stored is read back, whatever else was stored.
pub proof fn law_put_then_get(
    m: Seq<(Seq<char>, BlobRecordM)>,
    id: Seq<char>,
    b: BlobRecordM,
    other: Seq<char>,
)
    ensures
        lookup(bind(m, id, b), id) == Some(b),
        other != id ==> lookup(bind(m, id, b), other) == lookup(m, other),
{
    law_bind_lookup(m, id, b, other);
}

/// Collecting garbage keeps every attachment that is referred to.
pub proof fn law_gc_keeps_referred(m: Seq<(Seq<char>, BlobRecordM)>, i: int)
    requires
        0 <= i < m.len(),
        m[i].1.refs > 0,
    ensures
        keep(m, is_referred()).contains(m[i]),
{
    lemma_keep_contains(m, is_referred());
    assert(m.contains(m[i]));
    assert(is_referred()(m[i]));
}

// ---- Versions --------------------------------------------------------------

/// A version with the document as it was.
#[derive(Debug, PartialEq)]
pub struct VersionRecord {
    pub entry: VersionEntry,
    pub doc: Document,
}

/// What a `VersionRecord` holds.
#[verifier::ext_equal]
pub struct VersionRecordM {
    pub entry: VersionEntryM,
    pub doc: DocumentM,
}

impl DeepView for VersionRecord {
    type V = VersionRecordM;

    open spec fn deep_view(&self) -> VersionRecordM {
        VersionRecordM {
            entry: self.entry.deep_view(),
            doc: self.doc.deep_view(),
        }
    }
}

impl Clone for VersionRecord {
    fn clone(&self) -> (r: Self)
        ensures
            r.deep_view() == self.deep_view(),
    {
        VersionRecord {
            entry: self.entry.clone(),
            doc: self.doc.clone(),
        }
    }
}

/// The versions of documents, in the order in which they came.
#[derive(Debug, PartialEq)]
pub struct MemVersionStore {
    pub versions: Vec<(String, Vec<VersionRecord>)>,
}

/// What a `MemVersionStore` holds.
#[verifier::ext_equal]
pub struct MemVersionStoreM {
    pub versions: Seq<(Seq<char>, Seq<VersionRecordM>)>,
}

impl DeepView for MemVersionStore {
    type V = MemVersionStoreM;

    open spec fn deep_view(&self) -> MemVersionStoreM {
        MemVersionStoreM {
            versions: self.versions.deep_view(),
        }
    }
}


/// The versions of a document.
pub open spec fn versions_of(s: MemVersionStoreM, id: Seq<char>) -> Seq<VersionRecordM> {
    match lookup(s.versions, id) {
        Some(l) => l,
        None => seq![],
    }
}

/// Whether a version has the identity.
pub open spec fn is_version(v: Seq<char>) -> spec_fn(VersionRecordM) -> bool {
    |r: VersionRecordM| r.entry.id == v
}

/// A version of a document.
pub open spec fn version_of(s: MemVersionStoreM, id: Seq<char>, v: Seq<char>) -> Result<
    DocumentM,
    WikiErrorM,
> {
    let l = versions_of(s, id);
    match first_index(l, is_version(v)) {
        Some(i) => Ok(l[i].doc),
        None => Err(WikiErrorM::NotFound("version "@ + v)),
    }
}

/// The store with one more version of a document.
pub open spec fn with_version(s: MemVersionStoreM, id: Seq<char>, r: VersionRecordM) -> MemVersionStoreM {
    MemVersionStoreM { versions: bind(s.versions, id, versions_of(s, id).push(r)) }
}

/// Whether a block is in no list of blocks.
pub open spec fn absent_from(bs: Seq<BlockM>) -> spec_fn(BlockM) -> bool {
    |b: BlockM| crate::tree::doc::block_at(bs, b.id) is None
}

/// Blocks as changes of one kind.
pub open spec fn changes_of(bs: Seq<BlockM>, kind: ChangeKind) -> Seq<BlockChangeM> {
    Seq::new(bs.len(), |i: int| BlockChangeM { block_id: bs[i].id, kind })
}

/// What differs between two documents: first the blocks that came, then those
/// that went.
pub open spec fn diff_of(a: DocumentM, b: DocumentM) -> DocDiffM {
    DocDiffM {
        changes: changes_of(keep(b.blocks, absent_from(a.blocks)), ChangeKind::Added)
            + changes_of(keep(a.blocks, absent_from(b.blocks)), ChangeKind::Removed),
    }
}

fn list_changes(from: &Document, against: &Document, kind: ChangeKind) -> (r: Vec<BlockChange>)
    ensures
        r.deep_view() == changes_of(
            keep(from.deep_view().blocks, absent_from(against.deep_view().blocks)),
            kind,
        ),
{
    let ghost all = from.deep_view().blocks;
    let ghost p = absent_from(against.deep_view().blocks);
    let mut r: Vec<BlockChange> = Vec::new();
    let mut i: usize = 0;
    assert(r.deep_view() =~= changes_of(keep(all.take(0), p), kind));
    while i < from.blocks.len()
        invariant
            i <= from.blocks.len(),
            all == from.deep_view().blocks,
            p == absent_from(against.deep_view().blocks),
            r.deep_view() == changes_of(keep(all.take(i as int), p), kind),
        decreases from.blocks.len() - i,
    {
        proof {
            lemma_keep_step(all, p, i as int);
        }
        let ghost done = r.deep_view();
        assert(all[i as int] == from.blocks@[i as int].deep_view());
        if against.block(&from.blocks[i].id).is_none() {
            let change = BlockChange { block_id: from.blocks[i].id.0.clone(), kind };
            r.push(change);
            assert(change.deep_view() == (BlockChangeM { block_id: all[i as int].id, kind }));
            assert(r.deep_view() =~= done.push(change.deep_view()));
            assert(r.deep_view() =~= changes_of(
                keep(all.take(i as int), p).push(all[i as int]),
                kind,
            ));
        }
        i = i + 1;
    }
    assert(all.take(i as int) =~= all);
    r
}

/// What differs between two documents.
pub fn diff_documents(a: &Document, b: &Document) -> (r: DocDiff)
    ensures
        r.deep_view() == diff_of(a.deep_view(), b.deep_view()),
{
    let mut changes = list_changes(b, a, ChangeKind::Added);
    let ghost added = changes.deep_view();
    let mut gone = list_changes(a, b, ChangeKind::Removed);
    let ghost removed = gone.deep_view();
    changes.append(&mut gone);
    assert(changes.deep_view() =~= added + removed);
    DocDiff { changes }
}

impl MemVersionStore {
    pub fn new() -> (r: MemVersionStore)
        ensures
            r.deep_view() == (MemVersionStoreM { versions: seq![] }),
    {
        let r = MemVersionStore { versions: Vec::new() };
        assert(r.deep_view().versions =~= seq![]);
        r
    }

    fn copy_of(&self, id: &str) -> (r: Vec<VersionRecord>)
        ensures
            r.deep_view() == versions_of(self.deep_view(), id@),
    {
        match get(&self.versions, id) {
            Some(l) => l.clone(),
            None => {
                let r: Vec<VersionRecord> = Vec::new();
                assert(r.deep_view() =~= seq![]);
                r
            },
        }
    }

    /// Keeps a document as a version.
    pub fn snapshot(&mut self, doc_id: &DocId, doc: &Document, label: Option<String>) -> (r:
        VersionId)
        ensures
            uuid_text(r.deep_view(), '4'),
            exists|ts: Timestamp|
                final(self).deep_view() == #[trigger] with_version(
                    old(self).deep_view(),
                    doc_id.deep_view(),
                    snapshot_record(r.deep_view(), label.deep_view(), doc.deep_view(), ts),
                ),
    {
        let vid = VersionId(fresh_v4());
        let ts = Timestamp::now();
        let entry = VersionEntry { id: vid.clone(), label, author: "system".to_owned(), ts };
        let mut l = self.copy_of(doc_id.as_str());
        let ghost before = l.deep_view();
        let record = VersionRecord { entry, doc: doc.clone() };
        l.push(record);
        assert(l.deep_view() =~= before.push(record.deep_view()));
        assert(record.deep_view() == snapshot_record(
            vid.deep_view(),
            label.deep_view(),
            doc.deep_view(),
            ts,
        ));
        put(&mut self.versions, doc_id.as_str(), l);
        assert(self.deep_view() == with_version(
            old(self).deep_view(),
            doc_id.deep_view(),
            snapshot_record(vid.deep_view(), label.deep_view(), doc.deep_view(), ts),
        ));
        vid
    }

    pub fn list_versions(&self, doc_id: &DocId) -> (r: Vec<VersionEntry>)
        ensures
            r@.len() == versions_of(self.deep_view(), doc_id.deep_view()).len(),
            forall|i: int|
                0 <= i < r@.len() ==> (#[trigger] r@[i]).deep_view() == versions_of(
                    self.deep_view(),
                    doc_id.deep_view(),
                )[i].entry,
    {
        let l = self.copy_of(doc_id.as_str());
        let ghost all = l.deep_view();
        let mut r: Vec<VersionEntry> = Vec::new();
        let mut i: usize = 0;
        while i < l.len()
            invariant
                i <= l.len(),
                all == l.deep_view(),
                r@.len() == i,
                forall|k: int| 0 <= k < i ==> (#[trigger] r@[k]).deep_view() == all[k].entry,
            decreases l.len() - i,
        {
            assert(all[i as int] == l@[i as int].deep_view());
            r.push(l[i].entry.clone());
            i = i + 1;
        }
        r
    }

    pub fn get_version(&self, doc_id: &DocId, v: &VersionId) -> (r: Result<Document, WikiError>)
        ensures
            outcome(r) == version_of(self.deep_view(), doc_id.deep_view(), v.deep_view()),
    {
        let l = self.copy_of(doc_id.as_str());
        let ghost all = l.deep_view();
        let ghost p = is_version(v.deep_view());
        let mut i: usize = 0;
        while i < l.len()
            invariant
                i <= l.len(),
                all == l.deep_view(),
                all == versions_of(self.deep_view(), doc_id.deep_view()),
                p == is_version(v.deep_view()),
                forall|k: int| 0 <= k < i ==> !p(#[trigger] all[k]),
            decreases l.len() - i,
        {
            assert(all[i as int] == l@[i as int].deep_view());
            if l[i].entry.id.0 == v.0 {
                proof {
                    lemma_first_index_is(all, p, i as int);
                }
                return Ok(l[i].doc.clone());
            }
            i = i + 1;
        }
        proof {
            lemma_first_index(all, p);
        }
        Err(WikiError::NotFound(cat("version ", v.0.as_str())))
    }

    /// What differs between two versions.
    pub fn diff(&self, doc_id: &DocId, a: &VersionId, b: &VersionId) -> (r: Result<
        DocDiff,
        WikiError,
    >)
        ensures
            outcome(r) == (match version_of(
                self.deep_view(),
                doc_id.deep_view(),
                a.deep_view(),
            ) {
                Err(e) => Err(e),
                Ok(va) => match version_of(self.deep_view(), doc_id.deep_view(), b.deep_view()) {
                    Err(e) => Err(e),
                    Ok(vb) => Ok(diff_of(va, vb)),
                },
            }),
    {
        match self.get_version(doc_id, a) {
            Err(e) => Err(e),
            Ok(va) => match self.get_version(doc_id, b) {
                Err(e) => Err(e),
                Ok(vb) => Ok(diff_documents(&va, &vb)),
            },
        }
    }

    /// Keeps an old version once more, as the newest. No version is removed.
    pub fn restore(&mut self, doc_id: &DocId, v: &VersionId) -> (r: Result<(), WikiError>)
        ensures
            match version_of(old(self).deep_view(), doc_id.deep_view(), v.deep_view()) {
                Err(e) => *final(self) == *old(self) && outcome(r) == Err::<(), WikiErrorM>(e),
                Ok(d) => r is Ok && exists|vid: Seq<char>, ts: Timestamp|
                    uuid_text(vid, '4') && final(self).deep_view() == with_version(
                        old(self).deep_view(),
                        doc_id.deep_view(),
                        #[trigger] snapshot_record(
                            vid,
                            Some("restore of "@ + v.deep_view()),
                            d,
                            ts,
                        ),
                    ),
            },
    {
        match self.get_version(doc_id, v) {
            Err(e) => Err(e),
            Ok(doc) => {
                let label = cat("restore of ", v.0.as_str());
                let vid = self.snapshot(doc_id, &doc, Some(label));
                proof {
                    let ts = choose|ts: Timestamp|
                        self.deep_view() == #[trigger] with_version(
                            old(self).deep_view(),
                            doc_id.deep_view(),
                            snapshot_record(
                                vid.deep_view(),
                                Some("restore of "@ + v.deep_view()),
                                doc.deep_view(),
                                ts,
                            ),
                        );
                    let rec = snapshot_record(
                        vid.deep_view(),
                        Some("restore of "@ + v.deep_view()),
                        doc.deep_view(),
                        ts,
                    );
                    assert(self.deep_view() == with_version(
                        old(self).deep_view(),
                        doc_id.deep_view(),
                        rec,
                    ));
                }
                Ok(())
            },
        }
    }
}

/// A version as it is kept.
pub open spec fn snapshot_record(
    vid: Seq<char>,
    label: Option<Seq<char>>,
    doc: DocumentM,
    ts: Timestamp,
) -> VersionRecordM {
    VersionRecordM { entry: VersionEntryM { id: vid, label, author: "system"@, ts }, doc }
}

/// A version that was kept under a new identity is read back, and every other
/// version stays what it was.
pub proof fn law_snapshot_then_get(
    s: MemVersionStoreM,
    id: Seq<char>,
    r: VersionRecordM,
    other: Seq<char>,
)
    requires
        version_of(s, id, r.entry.id) is Err,
    ensures
        version_of(with_version(s, id, r), id, r.entry.id) == Ok::<DocumentM, WikiErrorM>(r.doc),
        other != r.entry.id ==> version_of(with_version(s, id, r), id, other) == version_of(
            s,
            id,
            other,
        ),
{
    let l = versions_of(s, id);
    let m = l.push(r);
    law_bind_lookup(s.versions, id, m, id);
    assert(m.drop_last() =~= l);
    lemma_first_index(l, is_version(r.entry.id));
    lemma_first_index(l, is_version(other));
}

/// Keeping a version, as restoring one does, removes no version and changes
/// none.
pub proof fn law_versions_only_grow(
    s: MemVersionStoreM,
    id: Seq<char>,
    r: VersionRecordM,
    other: Seq<char>,
)
    ensures
        versions_of(with_version(s, id, r), id) == versions_of(s, id).push(r),
        other != id ==> versions_of(with_version(s, id, r), other) == versions_of(s, other),
{
    law_bind_lookup(s.versions, id, versions_of(s, id).push(r), other);
    law_bind_lookup(s.versions, id, versions_of(s, id).push(r), id);
}

/// Nothing differs between a document and itself.
pub proof fn law_diff_self(d: DocumentM)
    ensures
        diff_of(d, d).changes.len() == 0,
{
    let p = absent_from(d.blocks);
    lemma_keep_contains(d.blocks, p);
    let k = keep(d.blocks, p);
    if k.len() > 0 {
        assert(k.contains(k[0]));
        let i = choose|i: int| 0 <= i < d.blocks.len() && d.blocks[i] == k[0];
        crate::tree::law::lemma_of(d.blocks, k[0].id);
        assert(p(k[0]));
    }
}

} // verus!
