//! What the stores in memory find, keep and compare.

use vstd::prelude::*;

use crate::assoc::{bind, law_bind_lookup, law_unbind_lookup, lookup, unbind};
use crate::float::F32;
use crate::error::{WikiError, WikiErrorM};
use crate::ids::DocId;
use crate::json::{Json, JsonValue};
use crate::memory::{
    absent_from, all_terms, any_prefix, any_term, any_word, best_texts, best_vectors, bind_all, candidate_of, changes_of,
    collection_of, diff_of, entry_has, entry_matches, frequency, is_broken, is_referred, keys_of, leads_to,
    links_in, log_of, lowered, record_passes, scan_of, scored_texts, scored_vectors,
    snapshot_record, text_matches, texts_view, upserted, vectors_view, BlobRecordM, MemBlobStore, MemDocStore,
    MemOpLog, MemOpLogM, MemTextIndexM, MemVectorStoreM,
    TextCandidateM, TextEntryM, VectorRecordM,
};
use crate::seqs::{keep, law_keep_filters, lemma_keep_contains};
use crate::storage::{
    best_of, meta_passes, target_key, BlobId, BlockChangeM, BoolOp, ChangeKind, LinkTargetM, MatchMode, TextQueryM,
    TextHit, VectorSearchResult, WikiLinkM,
};
use crate::text::{begins, first_chars, holds, occurrences, small, words};
use crate::text_law::{law_ends, law_first_chars};
use crate::time::Timestamp;
use crate::tree::block::BlockM;
use crate::tree::doc::{block_at, Document, DocumentM};

verus! {

// ---- Vectors ---------------------------------------------------------------

/// A stored record is what its collection holds under its identity; every other
/// record stays.
pub proof fn law_upserted(
    s: MemVectorStoreM,
    collection: Seq<char>,
    id: Seq<char>,
    record: VectorRecordM,
    other: Seq<char>,
)
    ensures
        lookup(collection_of(upserted(s, collection, id, record), collection), id) == Some(record),
        other != id ==> lookup(
            collection_of(upserted(s, collection, id, record), collection),
            other,
        ) == lookup(collection_of(s, collection), other),
{
    let c = bind(collection_of(s, collection), id, record);
    law_bind_lookup(s.data, collection, c, collection);
    law_bind_lookup(collection_of(s, collection), id, record, other);
}

/// Storing several: of each identity the last stands, and what is not stored anew
/// stays; it is the same as storing the first ones and then the others.
pub proof fn law_bind_all<T>(
    m: Seq<(Seq<char>, T)>,
    a: Seq<(Seq<char>, T)>,
    b: Seq<(Seq<char>, T)>,
    e: (Seq<char>, T),
    other: Seq<char>,
)
    ensures
        bind_all(m, a + b) == bind_all(bind_all(m, a), b),
        lookup(bind_all(m, a.push(e)), e.0) == Some(e.1),
        other != e.0 ==> lookup(bind_all(m, a.push(e)), other) == lookup(bind_all(m, a), other),
        bind_all(m, seq![]) == m,
    decreases b.len(),
{
    assert(a.push(e).drop_last() =~= a);
    law_bind_lookup(bind_all(m, a), e.0, e.1, other);
    if b.len() > 0 {
        assert((a + b).drop_last() =~= a + b.drop_last());
        law_bind_all(m, a, b.drop_last(), e, other);
    } else {
        assert(a + b =~= a);
    }
}

/// What was found goes on with its identity, its description and its own score.
pub proof fn law_scored(
    found: Seq<(Seq<char>, VectorRecordM)>,
    texts: Seq<TextCandidateM>,
    scores: Seq<F32>,
    i: int,
)
    ensures
        scored_vectors(found, scores).len() == found.len(),
        0 <= i < found.len() ==> scored_vectors(found, scores)[i].id == found[i].0 && scored_vectors(
            found,
            scores,
        )[i].metadata == found[i].1.metadata && scored_vectors(found, scores)[i].score == scores[i],
        scored_texts(texts, scores).len() == texts.len(),
        0 <= i < texts.len() ==> scored_texts(texts, scores)[i].block_id == texts[i].block_id
            && scored_texts(texts, scores)[i].snippet == texts[i].snippet && scored_texts(
            texts,
            scores,
        )[i].score == scores[i],
{
}

/// Without a filter every record is a candidate, with one those whose description
/// passes it, in their order.
pub proof fn law_candidates(c: Seq<(Seq<char>, VectorRecordM)>, filter: Json)
    ensures
        keep(c, record_passes(None)) == c,
        keep(c, record_passes(Some(filter))) == c.filter(
            |e: (Seq<char>, VectorRecordM)| meta_passes(filter, e.1.metadata),
        ),
{
    crate::seqs::lemma_keep_all(c, record_passes(None));
    law_keep_filters(c, record_passes(Some(filter)));
    assert(record_passes(Some(filter)) =~= (|e: (Seq<char>, VectorRecordM)|
        meta_passes(filter, e.1.metadata)));
}

// ---- Logs ------------------------------------------------------------------

/// Appending to a log leaves what it held before the new operations, and every
/// other log.
pub proof fn law_log_grows(s: MemOpLogM, id: Seq<char>, ops: Seq<Json>, other: Seq<char>)
    ensures
        ({
            let t = MemOpLogM { logs: bind(s.logs, id, log_of(s, id) + ops) };
            &&& log_of(s, id).is_prefix_of(log_of(t, id))
            &&& ops.is_suffix_of(log_of(t, id))
            &&& log_of(t, id).len() == log_of(s, id).len() + ops.len()
            &&& other != id ==> log_of(t, other) == log_of(s, other)
        }),
{
    law_bind_lookup(s.logs, id, log_of(s, id) + ops, other);
    let l = log_of(s, id) + ops;
    assert(log_of(s, id).is_prefix_of(l));
    assert(ops.is_suffix_of(l));
}

// ---- Texts -----------------------------------------------------------------

/// Asking for all terms: one more term asks for more. Asking for any: one more
/// term asks for less. A word is looked for by how it begins.
pub proof fn law_terms(text: Seq<char>, terms: Seq<Seq<char>>, t: Seq<char>)
    ensures
        all_terms(text, terms.push(t)) <==> all_terms(text, terms) && holds(text, t),
        any_term(text, terms.push(t)) <==> any_term(text, terms) || holds(text, t),
        any_prefix(text, terms.push(t)) <==> any_prefix(text, terms) || exists|i: int|
            0 <= i < words(text).len() && t.is_prefix_of(#[trigger] words(text)[i]),
        all_terms(text, seq![]),
        !any_term(text, seq![]),
        !any_prefix(text, seq![]),
{
    let more = terms.push(t);
    if all_terms(text, more) {
        assert forall|i: int| 0 <= i < terms.len() implies holds(text, #[trigger] terms[i]) by {
            assert(holds(text, more[i]));
        }
        assert(holds(text, more[terms.len() as int]));
    }
    if all_terms(text, terms) && holds(text, t) {
        assert forall|i: int| 0 <= i < more.len() implies holds(text, #[trigger] more[i]) by {
            if i < terms.len() {
                assert(holds(text, terms[i]));
            }
        }
    }
    if any_term(text, terms) {
        let i = choose|i: int| 0 <= i < terms.len() && holds(text, #[trigger] terms[i]);
        assert(holds(text, more[i]));
    }
    assert(more[terms.len() as int] == t);
    if any_term(text, more) {
        let i = choose|i: int| 0 <= i < more.len() && holds(text, #[trigger] more[i]);
        if i < terms.len() {
            assert(holds(text, terms[i]));
        }
    }
    let ws = words(text);
    if any_word(ws, t) {
        let i = choose|i: int| 0 <= i < ws.len() && begins(#[trigger] ws[i], t);
        law_ends(ws[i], t);
        assert(t.is_prefix_of(words(text)[i]));
    }
    if exists|i: int| 0 <= i < words(text).len() && t.is_prefix_of(#[trigger] words(text)[i]) {
        let i = choose|i: int| 0 <= i < words(text).len() && t.is_prefix_of(
            #[trigger] words(text)[i],
        );
        law_ends(ws[i], t);
        assert(begins(ws[i], t));
    }
    if any_prefix(text, terms) {
        let i = choose|i: int| 0 <= i < terms.len() && any_word(words(text), #[trigger] terms[i]);
        assert(any_word(words(text), more[i]));
    }
    if any_prefix(text, more) {
        let i = choose|i: int| 0 <= i < more.len() && any_word(words(text), #[trigger] more[i]);
        if i < terms.len() {
            assert(any_word(words(text), terms[i]));
        }
    }
}

/// A text is found by its mode: all terms, any term, the beginning of a word, or
/// none of the terms; a phrase that is asked for must stand in it, and a filter must
/// let its description through, whatever the mode.
pub proof fn law_text_matches(e: TextEntryM, q: TextQueryM)
    ensures
        text_matches(e, q) ==> (q.phrase matches Some(p) ==> holds(e.text, p)) && (
        q.filter matches Some(f) ==> meta_passes(f, e.meta)),
        q.mode == MatchMode::Phrase && q.phrase is None ==> !text_matches(e, q),
        (q.phrase matches Some(p) ==> holds(e.text, p)) && (q.filter matches Some(f) ==> meta_passes(
            f,
            e.meta,
        )) ==> (text_matches(e, q) <==> match q.mode {
            MatchMode::Exact => all_terms(e.text, q.terms),
            MatchMode::Prefix => any_prefix(e.text, q.terms),
            MatchMode::Fuzzy => any_term(e.text, q.terms),
            MatchMode::Phrase => q.phrase is Some,
            MatchMode::Boolean => match q.bool_op {
                Some(BoolOp::Or) => any_term(e.text, q.terms),
                Some(BoolOp::Not) => !any_term(e.text, q.terms),
                Some(BoolOp::And) => all_terms(e.text, q.terms),
                None => all_terms(e.text, q.terms),
            },
        }),
{
}

/// A query is looked up in lower case, its terms and its phrase, and is else the
/// same.
pub proof fn law_lowered(q: TextQueryM)
    ensures
        lowered(q).terms == q.terms.map_values(|t: Seq<char>| small(t)),
        q.phrase matches Some(p) ==> lowered(q).phrase == Some(small(p)),
        q.phrase is None ==> lowered(q).phrase is None,
        lowered(q).mode == q.mode && lowered(q).bool_op == q.bool_op && lowered(q).filter
            == q.filter,
{
    assert(lowered(q).terms =~= q.terms.map_values(|t: Seq<char>| small(t)));
}

/// A scan: how many texts there are, in how many each term stands, and of each
/// text that is found its block, its beginning, how many words it has and how often
/// each term stands in it, in the order of the index.
pub proof fn law_scan(s: MemTextIndexM, q: TextQueryM, i: int, k: int)
    requires
        s.idx.len() <= usize::MAX,
    ensures
        scan_of(s, q).total == s.idx.len(),
        scan_of(s, q).doc_frequencies.len() == q.terms.len(),
        0 <= k < q.terms.len() ==> scan_of(s, q).doc_frequencies[k] == s.idx.filter(
            |e: (Seq<char>, TextEntryM)| holds(e.1.text, q.terms[k]),
        ).len(),
        ({
            let found = s.idx.filter(|e: (Seq<char>, TextEntryM)| text_matches(e.1, q));
            &&& scan_of(s, q).candidates.len() == found.len()
            &&& 0 <= i < found.len() ==> {
                let c = scan_of(s, q).candidates[i];
                &&& c.block_id == found[i].0
                &&& c.snippet.is_prefix_of(found[i].1.text)
                &&& c.snippet.len() <= 80
                &&& c.snippet.len() < 80 ==> c.snippet == found[i].1.text
                &&& words(found[i].1.text).len() <= usize::MAX ==> c.words == words(
                    found[i].1.text,
                ).len()
                &&& c.frequencies.len() == q.terms.len()
                &&& 0 <= k < q.terms.len() && occurrences(found[i].1.text, q.terms[k], 0)
                    <= usize::MAX ==> c.frequencies[k] == occurrences(
                    found[i].1.text,
                    q.terms[k],
                    0,
                )
            }
        }),
{
    let f = |e: (Seq<char>, TextEntryM)| text_matches(e.1, q);
    law_keep_filters(s.idx, entry_matches(q));
    assert(entry_matches(q) =~= f);
    let found = s.idx.filter(f);
    if 0 <= i < found.len() {
        law_first_chars(found[i].1.text, 80);
    }
    if 0 <= k < q.terms.len() {
        let g = |e: (Seq<char>, TextEntryM)| holds(e.1.text, q.terms[k]);
        law_keep_filters(s.idx, entry_has(q.terms[k]));
        assert(entry_has(q.terms[k]) =~= g);
        s.idx.lemma_filter_len(g);
    }
}

// ---- Links -----------------------------------------------------------------

/// All links are those of each block, one after the other; the links to a target
/// are those among them that lead to it, and the broken ones those that lead to no
/// page, in their order.
pub proof fn law_links(m: Seq<(Seq<char>, Seq<WikiLinkM>)>, key: Seq<char>)
    ensures
        links_in(m) == m.map_values(|e: (Seq<char>, Seq<WikiLinkM>)| e.1).flatten_alt(),
        keep(links_in(m), leads_to(key)) == links_in(m).filter(
            |l: WikiLinkM| target_key(l.to) == key,
        ),
        keep(links_in(m), is_broken()) == links_in(m).filter(|l: WikiLinkM| l.to is Broken),
    decreases m.len(),
{
    let f = |e: (Seq<char>, Seq<WikiLinkM>)| e.1;
    law_keep_filters(links_in(m), leads_to(key));
    assert(leads_to(key) =~= (|l: WikiLinkM| target_key(l.to) == key));
    law_keep_filters(links_in(m), is_broken());
    assert(is_broken() =~= (|l: WikiLinkM| l.to is Broken));
    if m.len() > 0 {
        law_links(m.drop_last(), key);
        assert(m.map_values(f).drop_last() =~= m.drop_last().map_values(f));
    }
}

// ---- Attachments -----------------------------------------------------------

/// Clearing up leaves exactly the attachments that something refers to, in their
/// order.
pub proof fn law_gc(m: Seq<(Seq<char>, BlobRecordM)>)
    ensures
        keep(m, is_referred()) == m.filter(|e: (Seq<char>, BlobRecordM)| e.1.refs > 0),
{
    law_keep_filters(m, is_referred());
    assert(is_referred() =~= (|e: (Seq<char>, BlobRecordM)| e.1.refs > 0));
}

// ---- Versions --------------------------------------------------------------

/// From one document to another a block is added if only the second has it and
/// removed if only the first has it; the added ones come first, each in the order
/// of its document, and nothing else is a difference.
pub proof fn law_diff(a: DocumentM, b: DocumentM)
    ensures
        diff_of(a, b).changes == b.blocks.filter(
            |x: BlockM| block_at(a.blocks, x.id) is None,
        ).map_values(|x: BlockM| BlockChangeM { block_id: x.id, kind: ChangeKind::Added })
            + a.blocks.filter(|x: BlockM| block_at(b.blocks, x.id) is None).map_values(
            |x: BlockM| BlockChangeM { block_id: x.id, kind: ChangeKind::Removed },
        ),
{
    let f = |x: BlockM| block_at(a.blocks, x.id) is None;
    let g = |x: BlockM| block_at(b.blocks, x.id) is None;
    law_keep_filters(b.blocks, absent_from(a.blocks));
    law_keep_filters(a.blocks, absent_from(b.blocks));
    assert(absent_from(a.blocks) =~= f);
    assert(absent_from(b.blocks) =~= g);
    assert(changes_of(b.blocks.filter(f), ChangeKind::Added) =~= b.blocks.filter(f).map_values(
        |x: BlockM| BlockChangeM { block_id: x.id, kind: ChangeKind::Added },
    ));
    assert(changes_of(a.blocks.filter(g), ChangeKind::Removed) =~= a.blocks.filter(g).map_values(
        |x: BlockM| BlockChangeM { block_id: x.id, kind: ChangeKind::Removed },
    ));
}

/// A snapshot carries the document, its label and its time.
pub proof fn law_snapshot(
    vid: Seq<char>,
    label: Option<Seq<char>>,
    doc: DocumentM,
    ts: Timestamp,
)
    ensures
        snapshot_record(vid, label, doc, ts).doc == doc,
        snapshot_record(vid, label, doc, ts).entry.id == vid,
        snapshot_record(vid, label, doc, ts).entry.label == label,
        snapshot_record(vid, label, doc, ts).entry.ts == ts,
        snapshot_record(vid, label, doc, ts).entry.author == "system"@,
{
}

/// The identities that are listed are the keys, in order.
pub proof fn law_keys<T>(m: Seq<(Seq<char>, T)>)
    ensures
        keys_of(m) == m.map_values(|e: (Seq<char>, T)| e.0),
{
    assert(keys_of(m) =~= m.map_values(|e: (Seq<char>, T)| e.0));
}

/// The vectors that come out are the best of those that were found, each with its
/// identity, its description and its score.
pub proof fn law_best_vectors(
    found: Seq<(Seq<char>, VectorRecordM)>,
    scores: Seq<F32>,
    top_k: usize,
    r: Seq<VectorSearchResult>,
) -> (places: Seq<int>)
    requires
        best_vectors(found, scores, top_k, r),
    ensures
        r.len() == if top_k < found.len() {
            top_k as nat
        } else {
            found.len()
        },
        places.len() == found.len(),
        places.no_duplicates(),
        forall|i: int|
            0 <= i < r.len() ==> 0 <= #[trigger] places[i] < found.len() && r[i].deep_view().id
                == found[places[i]].0 && r[i].deep_view().metadata == found[places[i]].1.metadata
                && r[i].deep_view().score == scores[places[i]],
{
    let all = choose|all: Seq<VectorSearchResult>| #[trigger]
        vectors_view(all) == scored_vectors(found, scores) && best_of(all, top_k, r);
    let places = crate::json_law::law_best_of(all, top_k, r);
    assert(all.len() == vectors_view(all).len());
    assert forall|i: int| 0 <= i < r.len() implies 0 <= #[trigger] places[i] < found.len()
        && r[i].deep_view().id == found[places[i]].0 && r[i].deep_view().metadata
        == found[places[i]].1.metadata && r[i].deep_view().score == scores[places[i]] by {
        assert(r[i] == all[places[i]]);
        assert(vectors_view(all)[places[i]] == all[places[i]].deep_view());
    }
    places
}

/// The texts that come out are the best of those that were found, each with its
/// block, its beginning and its score.
pub proof fn law_best_texts(
    found: Seq<TextCandidateM>,
    scores: Seq<F32>,
    top_k: usize,
    r: Seq<TextHit>,
) -> (places: Seq<int>)
    requires
        best_texts(found, scores, top_k, r),
    ensures
        r.len() == if top_k < found.len() {
            top_k as nat
        } else {
            found.len()
        },
        places.len() == found.len(),
        places.no_duplicates(),
        forall|i: int|
            0 <= i < r.len() ==> 0 <= #[trigger] places[i] < found.len() && r[i].deep_view().block_id
                == found[places[i]].block_id && r[i].deep_view().snippet == found[places[i]].snippet
                && r[i].deep_view().score == scores[places[i]],
{
    let all = choose|all: Seq<TextHit>| #[trigger]
        texts_view(all) == scored_texts(found, scores) && best_of(all, top_k, r);
    let places = crate::json_law::law_best_of(all, top_k, r);
    assert(all.len() == texts_view(all).len());
    assert forall|i: int| 0 <= i < r.len() implies 0 <= #[trigger] places[i] < found.len()
        && r[i].deep_view().block_id == found[places[i]].block_id && r[i].deep_view().snippet
        == found[places[i]].snippet && r[i].deep_view().score == scores[places[i]] by {
        assert(r[i] == all[places[i]]);
        assert(texts_view(all)[places[i]] == all[places[i]].deep_view());
    }
    places
}

// ---- Calls -----------------------------------------------------------------

/// An attachment that was stored is read back with its bytes and its type, and
/// nothing refers to it yet; the others stay.
pub proof fn law_blob_stored(
    s: &mut MemBlobStore,
    bytes: Vec<u8>,
    ty: &str,
    id: BlobId,
    other: Seq<char>,
)
    requires
        call_ensures(MemBlobStore::put, (s, bytes, ty), id),
    ensures
        lookup(final(s).deep_view().blobs, id.deep_view()) matches Some(b) && b.bytes
            == bytes.deep_view() && b.content_type == ty@ && b.refs == 0,
        other != id.deep_view() ==> lookup(final(s).deep_view().blobs, other) == lookup(
            old(s).deep_view().blobs,
            other,
        ),
{
    law_bind_lookup(
        old(s).deep_view().blobs,
        id.deep_view(),
        BlobRecordM { bytes: bytes.deep_view(), content_type: ty@, refs: 0 },
        other,
    );
}

/// Reading an attachment gives its bytes and its type, or that it is not there.
pub proof fn law_blob_read(s: &MemBlobStore, id: &BlobId, r: Result<(Vec<u8>, String), WikiError>)
    requires
        call_ensures(MemBlobStore::get, (s, id), r),
    ensures
        match lookup(s.deep_view().blobs, id.deep_view()) {
            Some(b) => r matches Ok(x) && x.0.deep_view() == b.bytes && x.1@ == b.content_type,
            None => r matches Err(e) && e.deep_view() is NotFound,
        },
{
}

/// Counting references adds the change to what was counted, and tells the count,
/// or zero where it is below; the attachment itself and the others stay.
pub proof fn law_blob_counted(
    s: &mut MemBlobStore,
    id: &BlobId,
    delta: i32,
    r: Result<u64, WikiError>,
    other: Seq<char>,
)
    requires
        call_ensures(MemBlobStore::ref_delta, (s, id, delta), r),
        lookup(old(s).deep_view().blobs, id.deep_view()) matches Some(b) ==> i64::MIN <= b.refs
            + delta <= i64::MAX,
    ensures
        r is Err <==> lookup(old(s).deep_view().blobs, id.deep_view()) is None,
        r is Err ==> *final(s) == *old(s),
        lookup(old(s).deep_view().blobs, id.deep_view()) matches Some(b) ==> {
            &&& lookup(final(s).deep_view().blobs, id.deep_view()) matches Some(c) && c.refs
                == b.refs + delta && c.bytes == b.bytes && c.content_type == b.content_type
            &&& r matches Ok(n) && (b.refs + delta >= 0 ==> n == b.refs + delta) && (b.refs + delta
                < 0 ==> n == 0)
        },
        other != id.deep_view() ==> lookup(final(s).deep_view().blobs, other) == lookup(
            old(s).deep_view().blobs,
            other,
        ),
{
    if let Some(b) = lookup(old(s).deep_view().blobs, id.deep_view()) {
        law_bind_lookup(
            old(s).deep_view().blobs,
            id.deep_view(),
            BlobRecordM { refs: (b.refs + delta) as i64, ..b },
            other,
        );
    }
}

/// Appending to a log gives its new length; replaying from there on gives nothing,
/// and from the old length on what was appended.
pub proof fn law_log_calls(
    s: &mut MemOpLog,
    id: &DocId,
    ops: Vec<JsonValue>,
    n: u64,
    t: &MemOpLog,
    from: u64,
    r: Vec<JsonValue>,
)
    requires
        call_ensures(MemOpLog::append, (s, id, ops), n),
        *t == *final(s),
        call_ensures(MemOpLog::replay, (t, id, from), r),
    ensures
        n == log_of(old(s).deep_view(), id.deep_view()).len() + ops@.len(),
        from == n - ops@.len() ==> r.deep_view() == ops.deep_view(),
        from >= n ==> r@.len() == 0,
        from < n ==> r@.len() == n - from,
{
    let had = log_of(old(s).deep_view(), id.deep_view());
    law_log_grows(old(s).deep_view(), id.deep_view(), ops.deep_view(), id.deep_view());
    let l = log_of(t.deep_view(), id.deep_view());
    law_bind_lookup(
        old(s).deep_view().logs,
        id.deep_view(),
        had + ops.deep_view(),
        id.deep_view(),
    );
    assert(l == had + ops.deep_view());
    assert(r.deep_view().len() == r@.len());
    assert(ops.deep_view().len() == ops@.len());
    if from == n - ops@.len() {
        assert((had + ops.deep_view()).skip(had.len() as int) =~= ops.deep_view());
        if ops@.len() == 0 {
            assert(r.deep_view() =~= ops.deep_view());
        }
    }
}

/// A document that was saved is read back under its identity.
pub proof fn law_doc_calls(
    s: &mut MemDocStore,
    doc: &Document,
    out: (),
    t: &MemDocStore,
    id: &DocId,
    r: Option<Document>,
)
    requires
        call_ensures(MemDocStore::save, (s, doc), out),
        *t == *final(s),
        call_ensures(MemDocStore::get, (t, id), r),
    ensures
        id.deep_view() == doc.deep_view().id ==> r.deep_view() == Some(doc.deep_view()),
        id.deep_view() != doc.deep_view().id ==> r.deep_view() == lookup(
            old(s).deep_view().docs,
            id.deep_view(),
        ),
{
    law_bind_lookup(
        old(s).deep_view().docs,
        doc.deep_view().id,
        doc.deep_view(),
        id.deep_view(),
    );
}

} // verus!
