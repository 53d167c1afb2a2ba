//! Searching, answering, completing and summarising: what is asked of the
//! stores and of the language model, and what is made of their replies.

use vstd::prelude::*;

use crate::collab::access::{PermissionFilter, RequestContext};
use crate::config::{FIFTH, TENTH, THREE_TENTHS};
use crate::float::F32;
use crate::llm::rag::{
    build_qa_prompt, build_rag_context, build_summarize_prompt, citations_of, context_of,
    extract_citations, hits_to_text_units, make_text_query, qa_prompt, strip_citation_line,
    stripped, summarize_prompt, text_query_of, units_of, HybridHit, HybridHitM,
};
use crate::llm::unit::TextUnit;
use crate::seqs::{keep, lemma_keep_contains, lemma_keep_step};
use crate::storage::{TextQuery, TextQueryM};
use crate::text::same;

verus! {

broadcast use vstd::std_specs::vec::group_vec_axioms;

/// The collection that holds the vectors of blocks.
pub open spec fn block_collection() -> Seq<char> {
    "wiki_blocks"@
}

/// How the language model is to reply.
#[derive(Debug, PartialEq)]
pub struct LlmOpts {
    pub temperature: Option<F32>,
    pub max_tokens: Option<usize>,
}

/// What a `LlmOpts` holds.
#[verifier::ext_equal]
pub struct LlmOptsM {
    pub temperature: Option<F32>,
    pub max_tokens: Option<usize>,
}

impl DeepView for LlmOpts {
    type V = LlmOptsM;

    open spec fn deep_view(&self) -> LlmOptsM {
        LlmOptsM {
            temperature: self.temperature.deep_view(),
            max_tokens: self.max_tokens.deep_view(),
        }
    }
}

impl Clone for LlmOpts {
    fn clone(&self) -> (r: Self)
        ensures
            r.deep_view() == self.deep_view(),
    {
        LlmOpts {
            temperature: self.temperature.clone(),
            max_tokens: self.max_tokens.clone(),
        }
    }
}

impl Default for LlmOpts {
    fn default() -> (r: LlmOpts)
        ensures
            r.deep_view() == (LlmOptsM { temperature: None, max_tokens: None }),
    {
        LlmOpts { temperature: None, max_tokens: None }
    }
}

/// What the language model is asked.
#[derive(Debug, PartialEq)]
pub struct LlmRequest {
    pub prompt: String,
    pub opts: LlmOpts,
}

/// What a `LlmRequest` holds.
#[verifier::ext_equal]
pub struct LlmRequestM {
    pub prompt: Seq<char>,
    pub opts: LlmOptsM,
}

impl DeepView for LlmRequest {
    type V = LlmRequestM;

    open spec fn deep_view(&self) -> LlmRequestM {
        LlmRequestM {
            prompt: self.prompt.deep_view(),
            opts: self.opts.deep_view(),
        }
    }
}

impl Clone for LlmRequest {
    fn clone(&self) -> (r: Self)
        ensures
            r.deep_view() == self.deep_view(),
    {
        LlmRequest {
            prompt: self.prompt.clone(),
            opts: self.opts.clone(),
        }
    }
}

/// An answer with the blocks that it cites.
#[derive(Debug, PartialEq)]
pub struct QaAnswer {
    pub answer: String,
    pub citations: Vec<String>,
}

/// What a `QaAnswer` holds.
#[verifier::ext_equal]
pub struct QaAnswerM {
    pub answer: Seq<char>,
    pub citations: Seq<Seq<char>>,
}

impl DeepView for QaAnswer {
    type V = QaAnswerM;

    open spec fn deep_view(&self) -> QaAnswerM {
        QaAnswerM {
            answer: self.answer.deep_view(),
            citations: self.citations.deep_view(),
        }
    }
}

impl Clone for QaAnswer {
    fn clone(&self) -> (r: Self)
        ensures
            r.deep_view() == self.deep_view(),
    {
        QaAnswer {
            answer: self.answer.clone(),
            citations: self.citations.clone(),
        }
    }
}

/// What the stores are asked: the vectors of a collection near a vector, and
/// the texts that match a query, at most `limit` of each.
#[derive(Debug, PartialEq)]
pub struct StoreQuery {
    pub collection: String,
    pub vector: Vec<F32>,
    pub text: TextQuery,
    pub limit: usize,
}

/// What a `StoreQuery` holds.
#[verifier::ext_equal]
pub struct StoreQueryM {
    pub collection: Seq<char>,
    pub vector: Seq<F32>,
    pub text: TextQueryM,
    pub limit: usize,
}

impl DeepView for StoreQuery {
    type V = StoreQueryM;

    open spec fn deep_view(&self) -> StoreQueryM {
        StoreQueryM {
            collection: self.collection.deep_view(),
            vector: self.vector.deep_view(),
            text: self.text.deep_view(),
            limit: self.limit,
        }
    }
}

impl Clone for StoreQuery {
    fn clone(&self) -> (r: Self)
        ensures
            r.deep_view() == self.deep_view(),
    {
        StoreQuery {
            collection: self.collection.clone(),
            vector: self.vector.clone(),
            text: self.text.clone(),
            limit: self.limit,
        }
    }
}

/// The vector of a query: the first that came back, or four zeros.
pub open spec fn query_vector_of(vectors: Seq<Seq<F32>>) -> Seq<F32> {
    if vectors.len() > 0 {
        vectors[0]
    } else {
        Seq::new(4, |i: int| F32 { bits: 0 })
    }
}

/// The vector of a query: the first that came back, or four zeros.
pub fn query_vector(vectors: &Vec<Vec<F32>>) -> (r: Vec<F32>)
    ensures
        r.deep_view() == query_vector_of(vectors.deep_view()),
{
    if vectors.len() > 0 {
        assert(vectors.deep_view()[0] == vectors@[0].deep_view());
        return vectors[0].clone();
    }
    let mut r: Vec<F32> = Vec::new();
    r.push(F32::zero());
    r.push(F32::zero());
    r.push(F32::zero());
    r.push(F32::zero());
    assert(r.deep_view() =~= query_vector_of(vectors.deep_view()));
    r
}

/// What the stores are asked for the best `top_k` blocks.
pub open spec fn store_query_of(query: Seq<char>, vectors: Seq<Seq<F32>>, top_k: usize) -> StoreQueryM {
    StoreQueryM {
        collection: block_collection(),
        vector: query_vector_of(vectors),
        text: text_query_of(query),
        limit: (top_k * 2) as usize,
    }
}

/// What the stores are asked for the best `top_k` blocks: twice as many of
/// each.
pub fn store_query(query: &str, vectors: &Vec<Vec<F32>>, top_k: usize) -> (r: StoreQuery)
    requires
        top_k * 2 <= usize::MAX,
    ensures
        r.deep_view() == store_query_of(query@, vectors.deep_view(), top_k),
{
    StoreQuery {
        collection: "wiki_blocks".to_owned(),
        vector: query_vector(vectors),
        text: make_text_query(query),
        limit: top_k * 2,
    }
}

/// How many blocks are fused for a search for `top_k`: twice as many, since
/// not all may be readable.
pub fn search_width(top_k: usize) -> (r: usize)
    requires
        top_k * 2 <= usize::MAX,
    ensures
        r == top_k * 2,
{
    top_k * 2
}

/// How many blocks are fused for a question.
pub fn qa_width() -> (r: usize)
    ensures
        r == 8,
{
    8
}

// ---- What may be read ------------------------------------------------------

/// The blocks of hits.
pub open spec fn ids_of_hits(hits: Seq<HybridHitM>) -> Seq<Seq<char>> {
    Seq::new(hits.len(), |i: int| hits[i].block_id)
}

/// Whether a hit is among the blocks that may be read.
pub open spec fn among(readable: Seq<Seq<char>>) -> spec_fn(HybridHitM) -> bool {
    |h: HybridHitM| readable.contains(h.block_id)
}

/// Whether a hit may be read.
pub open spec fn hit_readable(p: spec_fn(Seq<char>) -> bool) -> spec_fn(HybridHitM) -> bool {
    |h: HybridHitM| p(h.block_id)
}

/// The blocks of hits, which a filter is asked about.
pub fn hit_ids(hits: &Vec<HybridHit>) -> (r: Vec<String>)
    ensures
        r.deep_view() == ids_of_hits(hits.deep_view()),
{
    let ghost hs = hits.deep_view();
    let ghost want = ids_of_hits(hs);
    let mut r: Vec<String> = Vec::new();
    let mut i: usize = 0;
    assert(r.deep_view() =~= want.take(0));
    while i < hits.len()
        invariant
            i <= hits.len(),
            hs == hits.deep_view(),
            want == ids_of_hits(hs),
            r.deep_view() == want.take(i as int),
        decreases hits.len() - i,
    {
        assert(hs[i as int] == hits@[i as int].deep_view());
        let ghost done = r.deep_view();
        r.push(hits[i].block_id.clone());
        assert(r.deep_view() =~= done.push(want[i as int]));
        assert(want.take(i + 1) =~= done.push(want[i as int]));
        i = i + 1;
    }
    assert(want.take(i as int) =~= want);
    r
}

fn is_among(readable: &Vec<String>, id: &str) -> (r: bool)
    ensures
        r == readable.deep_view().contains(id@),
{
    let ghost all = readable.deep_view();
    let mut i: usize = 0;
    while i < readable.len()
        invariant
            i <= readable.len(),
            all == readable.deep_view(),
            forall|k: int| 0 <= k < i ==> #[trigger] all[k] != id@,
        decreases readable.len() - i,
    {
        assert(all[i as int] == readable@[i as int]@);
        if same(readable[i].as_str(), id) {
            return true;
        }
        i = i + 1;
    }
    false
}

/// The hits that may be read.
pub fn readable_hits(hits: &Vec<HybridHit>, readable: &Vec<String>) -> (r: Vec<HybridHit>)
    ensures
        r.deep_view() == keep(hits.deep_view(), among(readable.deep_view())),
{
    let ghost all = hits.deep_view();
    let ghost p = among(readable.deep_view());
    let mut r: Vec<HybridHit> = Vec::new();
    let mut i: usize = 0;
    assert(r.deep_view() =~= keep(all.take(0), p));
    while i < hits.len()
        invariant
            i <= hits.len(),
            all == hits.deep_view(),
            p == among(readable.deep_view()),
            r.deep_view() == keep(all.take(i as int), p),
        decreases hits.len() - i,
    {
        proof {
            lemma_keep_step(all, p, i as int);
        }
        let ghost done = r.deep_view();
        assert(all[i as int] == hits@[i as int].deep_view());
        if is_among(readable, hits[i].block_id.as_str()) {
            r.push(hits[i].clone());
            assert(r.deep_view() =~= done.push(all[i as int]));
        }
        i = i + 1;
    }
    assert(all.take(i as int) =~= all);
    r
}

/// At most the first `n` items.
pub open spec fn at_most<T>(s: Seq<T>, n: usize) -> Seq<T> {
    if n < s.len() {
        s.take(n as int)
    } else {
        s
    }
}

/// What a search gives: of the hits that may be read the first `top_k`.
pub fn search_result(hits: &Vec<HybridHit>, readable: &Vec<String>, top_k: usize) -> (r: Vec<
    (TextUnit, F32),
>)
    ensures
        r.deep_view() == units_of(
            at_most(keep(hits.deep_view(), among(readable.deep_view())), top_k),
        ),
{
    let mut left = readable_hits(hits, readable);
    let ghost whole = left.deep_view();
    if top_k < left.len() {
        left.truncate(top_k);
    }
    assert(left.deep_view() =~= at_most(whole, top_k));
    hits_to_text_units(&left)
}

/// What the language model is asked for a question: the hits are the context.
pub open spec fn qa_request_of(question: Seq<char>, hits: Seq<HybridHitM>) -> LlmRequestM {
    LlmRequestM {
        prompt: qa_prompt(question, context_of(hits)),
        opts: LlmOptsM { temperature: Some(F32 { bits: TENTH }), max_tokens: Some(1024) },
    }
}

/// What the language model is asked for a question, with the hits that may be
/// read as context.
pub fn qa_request(question: &str, hits: &Vec<HybridHit>, readable: &Vec<String>) -> (r: LlmRequest)
    ensures
        r.deep_view() == qa_request_of(
            question@,
            keep(hits.deep_view(), among(readable.deep_view())),
        ),
{
    let left = readable_hits(hits, readable);
    let context = build_rag_context(&left);
    LlmRequest {
        prompt: build_qa_prompt(question, context.as_str()),
        opts: LlmOpts { temperature: Some(F32 { bits: TENTH }), max_tokens: Some(1024) },
    }
}

/// What the language model is asked for a question of a user, with the hits
/// that a filter lets the user read as context.
pub fn qa_with_permission<F: PermissionFilter>(
    filter: &F,
    ctx: &RequestContext,
    question: &str,
    hits: &Vec<HybridHit>,
) -> (r: LlmRequest)
    ensures
        r.deep_view() == qa_request_of(
            question@,
            keep(hits.deep_view(), hit_readable(filter.reader(ctx.deep_view()))),
        ),
{
    let readable = filter.filter_readable(ctx, hit_ids(hits));
    proof {
        lemma_filtered(hits.deep_view(), filter.reader(ctx.deep_view()));
    }
    qa_request(question, hits, &readable)
}

/// What a search of a user gives: of the hits that a filter lets the user read
/// the first `top_k`.
pub fn search_with_permission<F: PermissionFilter>(
    filter: &F,
    ctx: &RequestContext,
    hits: &Vec<HybridHit>,
    top_k: usize,
) -> (r: Vec<(TextUnit, F32)>)
    ensures
        r.deep_view() == units_of(
            at_most(
                keep(hits.deep_view(), hit_readable(filter.reader(ctx.deep_view()))),
                top_k,
            ),
        ),
{
    let readable = filter.filter_readable(ctx, hit_ids(hits));
    proof {
        lemma_filtered(hits.deep_view(), filter.reader(ctx.deep_view()));
    }
    search_result(hits, &readable, top_k)
}

proof fn lemma_filtered(hits: Seq<HybridHitM>, p: spec_fn(Seq<char>) -> bool)
    ensures
        keep(hits, among(keep(ids_of_hits(hits), p))) == keep(hits, hit_readable(p)),
{
    let ids = ids_of_hits(hits);
    let a = among(keep(ids, p));
    let b = hit_readable(p);
    lemma_keep_contains(ids, p);
    assert forall|i: int| 0 <= i < hits.len() implies a(#[trigger] hits[i]) == b(hits[i]) by {
        assert(ids[i] == hits[i].block_id);
        assert(ids.contains(hits[i].block_id));
    }
    lemma_keep_same(hits, a, b);
}

proof fn lemma_keep_same<T>(s: Seq<T>, p: spec_fn(T) -> bool, q: spec_fn(T) -> bool)
    requires
        forall|i: int| 0 <= i < s.len() ==> p(#[trigger] s[i]) == q(s[i]),
    ensures
        keep(s, p) == keep(s, q),
    decreases s.len(),
{
    if s.len() > 0 {
        let n = s.len() - 1;
        lemma_keep_step(s, p, n);
        lemma_keep_step(s, q, n);
        assert(s.take(n + 1) =~= s);
        let front = s.take(n);
        assert forall|i: int| 0 <= i < front.len() implies p(#[trigger] front[i]) == q(front[i]) by {
            assert(front[i] == s[i]);
        }
        lemma_keep_same(front, p, q);
        assert(p(s[n]) == q(s[n]));
    }
}

/// What may not be read never reaches the language model: of the hits that it
/// is asked with each may be read, and every hit that may be read is one of
/// them.
pub proof fn law_unreadable_left_out(
    hits: Seq<HybridHitM>,
    readable: Seq<Seq<char>>,
    hit: HybridHitM,
)
    ensures
        keep(hits, among(readable)).contains(hit) <==> hits.contains(hit) && readable.contains(
            hit.block_id,
        ),
{
    lemma_keep_contains(hits, among(readable));
}

/// A hit that may not be read, wherever it stands among the hits, changes
/// nothing of what the language model is asked.
pub proof fn law_unreadable_changes_nothing(
    question: Seq<char>,
    hits: Seq<HybridHitM>,
    secret: HybridHitM,
    readable: Seq<Seq<char>>,
    at: int,
)
    requires
        !readable.contains(secret.block_id),
        0 <= at <= hits.len(),
    ensures
        qa_request_of(question, keep(hits.insert(at, secret), among(readable))) == qa_request_of(
            question,
            keep(hits, among(readable)),
        ),
{
    lemma_keep_inserted(hits, secret, among(readable), at);
}

/// Two lists of hits that differ only in hits that may not be read have the
/// language model asked the same.
pub proof fn law_unreadable_unseen(
    question: Seq<char>,
    a: Seq<HybridHitM>,
    b: Seq<HybridHitM>,
    readable: Seq<Seq<char>>,
)
    requires
        a.len() == b.len(),
        forall|i: int|
            0 <= i < a.len() ==> (#[trigger] a[i]) == b[i] || (!readable.contains(a[i].block_id)
                && !readable.contains(b[i].block_id)),
    ensures
        qa_request_of(question, keep(a, among(readable))) == qa_request_of(
            question,
            keep(b, among(readable)),
        ),
{
    lemma_keep_alike(a, b, among(readable));
}

proof fn lemma_keep_inserted(
    s: Seq<HybridHitM>,
    x: HybridHitM,
    p: spec_fn(HybridHitM) -> bool,
    at: int,
)
    requires
        !p(x),
        0 <= at <= s.len(),
    ensures
        keep(s.insert(at, x), p) == keep(s, p),
    decreases s.len(),
{
    let more = s.insert(at, x);
    if at == s.len() {
        assert(more.drop_last() =~= s);
    } else {
        assert(more.drop_last() =~= s.drop_last().insert(at, x));
        assert(more.last() == s.last());
        lemma_keep_inserted(s.drop_last(), x, p, at);
    }
}

proof fn lemma_keep_alike(
    a: Seq<HybridHitM>,
    b: Seq<HybridHitM>,
    p: spec_fn(HybridHitM) -> bool,
)
    requires
        a.len() == b.len(),
        forall|i: int| 0 <= i < a.len() ==> (#[trigger] a[i]) == b[i] || (!p(a[i]) && !p(b[i])),
    ensures
        keep(a, p) == keep(b, p),
    decreases a.len(),
{
    if a.len() > 0 {
        let n = a.len() - 1;
        assert forall|i: int| 0 <= i < n implies (#[trigger] a.drop_last()[i]) == b.drop_last()[i]
            || (!p(a.drop_last()[i]) && !p(b.drop_last()[i])) by {
            assert(a[i] == a.drop_last()[i] && b[i] == b.drop_last()[i]);
        }
        lemma_keep_alike(a.drop_last(), b.drop_last(), p);
        assert(a[n] == b[n] || (!p(a[n]) && !p(b[n])));
    }
}

// ---- Answers ---------------------------------------------------------------

/// What is made of a reply: the text without its list of citations, and the
/// citations.
pub open spec fn answer_of(reply: Seq<char>) -> QaAnswerM {
    QaAnswerM { answer: stripped(reply), citations: citations_of(reply) }
}

/// What is made of a reply.
pub fn read_answer(reply: &str) -> (r: QaAnswer)
    ensures
        r.deep_view() == answer_of(reply@),
{
    QaAnswer { answer: strip_citation_line(reply), citations: extract_citations(reply) }
}

/// What the language model is asked to complete a text.
pub open spec fn completion_of(text: Seq<char>, partial: Seq<char>) -> LlmRequestM {
    LlmRequestM {
        prompt: "你是内容补全助手。基于以下文本续写：\n\n完整文本: "@ + text + "\n待补全位置: "@ + partial
            + "| ←\n\n请直接从光标位置续写，不要重复已有内容。"@,
        opts: LlmOptsM { temperature: Some(F32 { bits: THREE_TENTHS }), max_tokens: None },
    }
}

/// What the language model is asked to complete a text.
pub fn complete_request(unit: &TextUnit, partial: &str) -> (r: LlmRequest)
    ensures
        r.deep_view() == completion_of(unit.deep_view().text, partial@),
{
    let mut prompt = "你是内容补全助手。基于以下文本续写：\n\n完整文本: ".to_owned();
    prompt.push_str(unit.text.as_str());
    prompt.push_str("\n待补全位置: ");
    prompt.push_str(partial);
    prompt.push_str("| ←\n\n请直接从光标位置续写，不要重复已有内容。");
    LlmRequest {
        prompt,
        opts: LlmOpts { temperature: Some(F32 { bits: THREE_TENTHS }), max_tokens: None },
    }
}

/// The summary of nothing.
pub open spec fn empty_summary() -> Seq<char> {
    "(无内容)"@
}

/// What the language model is asked for a summary; without units there is
/// nothing to ask, and the summary is given.
pub fn summarize_request(units: &Vec<TextUnit>) -> (r: Result<LlmRequest, String>)
    ensures
        match r {
            Ok(q) => units@.len() > 0 && q.deep_view() == (LlmRequestM {
                prompt: summarize_prompt(units.deep_view()),
                opts: LlmOptsM {
                    temperature: Some(F32 { bits: FIFTH }),
                    max_tokens: Some(512),
                },
            }),
            Err(s) => units@.len() == 0 && s@ == empty_summary(),
        },
{
    if units.len() == 0 {
        return Err("(无内容)".to_owned());
    }
    Ok(
        LlmRequest {
            prompt: build_summarize_prompt(units),
            opts: LlmOpts { temperature: Some(F32 { bits: FIFTH }), max_tokens: Some(512) },
        },
    )
}

} // verus!
