//! Retrieval: fusing two rankings, and the words that the language model gets
//! and gives.

use vstd::prelude::*;

use crate::float::F32;
use crate::json::{member, text_of};
use crate::llm::unit::{TextUnit, TextUnitM};
use crate::seqs::{
    first_index, keep, lemma_first_index, lemma_first_index_is, lemma_keep_contains,
    lemma_keep_step,
};
use crate::storage::{
    best_of, take_best, MatchMode, Scored, TextHit, TextHitM, TextQuery, TextQueryM,
    VectorSearchResult, VectorSearchResultM,
};
use crate::text::{
    begins, cat3, copy_range, find_char, from_chars, join, joined, lemma_find_char, lines_of,
    match_here, same, split_lines, split_words, strip_return, to_chars, trim, trim_chars, trim_end,
    trim_end_chars, trim_start, trim_start_chars, white_space, words,
};

verus! {

broadcast use vstd::std_specs::vec::group_vec_axioms;

/// A block that a search found.
#[derive(Debug, PartialEq)]
pub struct HybridHit {
    pub block_id: String,
    pub snippet: String,
    pub score: F32,
}

/// What a `HybridHit` holds.
#[verifier::ext_equal]
pub struct HybridHitM {
    pub block_id: Seq<char>,
    pub snippet: Seq<char>,
    pub score: F32,
}

impl DeepView for HybridHit {
    type V = HybridHitM;

    open spec fn deep_view(&self) -> HybridHitM {
        HybridHitM {
            block_id: self.block_id.deep_view(),
            snippet: self.snippet.deep_view(),
            score: self.score,
        }
    }
}

impl Clone for HybridHit {
    fn clone(&self) -> (r: Self)
        ensures
            r.deep_view() == self.deep_view(),
    {
        HybridHit {
            block_id: self.block_id.clone(),
            snippet: self.snippet.clone(),
            score: self.score,
        }
    }
}

impl Scored for HybridHit {
    open spec fn spec_score(&self) -> F32 {
        self.score
    }

    fn get_score(&self) -> (r: F32) {
        self.score
    }
}

// ---- Fusing ----------------------------------------------------------------

/// A block with the places, counted from one, at which the searches found it.
/// Its score is the sum over the places of one divided by sixty more than the
/// place.
#[derive(Debug, PartialEq)]
pub struct FusedHit {
    pub block_id: String,
    pub snippet: String,
    pub ranks: Vec<usize>,
}

/// What a `FusedHit` holds.
#[verifier::ext_equal]
pub struct FusedHitM {
    pub block_id: Seq<char>,
    pub snippet: Seq<char>,
    pub ranks: Seq<usize>,
}

impl DeepView for FusedHit {
    type V = FusedHitM;

    open spec fn deep_view(&self) -> FusedHitM {
        FusedHitM {
            block_id: self.block_id.deep_view(),
            snippet: self.snippet.deep_view(),
            ranks: self.ranks.deep_view(),
        }
    }
}

impl Clone for FusedHit {
    fn clone(&self) -> (r: Self)
        ensures
            r.deep_view() == self.deep_view(),
    {
        FusedHit {
            block_id: self.block_id.clone(),
            snippet: self.snippet.clone(),
            ranks: self.ranks.clone(),
        }
    }
}

/// Each item once, where it first stands.
pub open spec fn distinct(ids: Seq<Seq<char>>) -> Seq<Seq<char>>
    decreases ids.len(),
{
    if ids.len() == 0 {
        seq![]
    } else {
        let front = distinct(ids.drop_last());
        if front.contains(ids.last()) {
            front
        } else {
            front.push(ids.last())
        }
    }
}

/// The places, counted from one, at which an item stands.
pub open spec fn ranks_in(ids: Seq<Seq<char>>, id: Seq<char>) -> Seq<usize>
    decreases ids.len(),
{
    if ids.len() == 0 {
        seq![]
    } else {
        let front = ranks_in(ids.drop_last(), id);
        if ids.last() == id {
            front.push(ids.len() as usize)
        } else {
            front
        }
    }
}

/// The blocks of a list of vectors.
pub open spec fn vector_ids(v: Seq<VectorSearchResultM>) -> Seq<Seq<char>> {
    Seq::new(v.len(), |i: int| v[i].id)
}

/// The blocks of a list of text hits.
pub open spec fn text_ids(t: Seq<TextHitM>) -> Seq<Seq<char>> {
    Seq::new(t.len(), |i: int| t[i].block_id)
}

/// Whether a vector belongs to a block.
pub open spec fn is_vector(id: Seq<char>) -> spec_fn(VectorSearchResultM) -> bool {
    |h: VectorSearchResultM| h.id == id
}

/// Whether a text hit belongs to a block and has a snippet.
pub open spec fn is_snippet(id: Seq<char>) -> spec_fn(TextHitM) -> bool {
    |h: TextHitM| h.block_id == id && h.snippet.len() > 0
}

/// The snippet of a block: the text that the first of its vectors carries, or,
/// where it has no vector, the first snippet that is not empty.
pub open spec fn snippet_of(
    v: Seq<VectorSearchResultM>,
    t: Seq<TextHitM>,
    id: Seq<char>,
) -> Seq<char> {
    match first_index(v, is_vector(id)) {
        Some(i) => match text_of(member(v[i].metadata, "text"@)) {
            Some(s) => s,
            None => seq![],
        },
        None => match first_index(t, is_snippet(id)) {
            Some(i) => t[i].snippet,
            None => seq![],
        },
    }
}

/// A block with its places in both rankings.
pub open spec fn fused_hit(
    v: Seq<VectorSearchResultM>,
    t: Seq<TextHitM>,
    id: Seq<char>,
) -> FusedHitM {
    FusedHitM {
        block_id: id,
        snippet: snippet_of(v, t, id),
        ranks: ranks_in(vector_ids(v), id) + ranks_in(text_ids(t), id),
    }
}

/// Every block of either ranking once, with its places in both.
pub open spec fn fused(v: Seq<VectorSearchResultM>, t: Seq<TextHitM>) -> Seq<FusedHitM> {
    let ids = distinct(vector_ids(v) + text_ids(t));
    Seq::new(ids.len(), |i: int| fused_hit(v, t, ids[i]))
}

fn holds_id(ids: &Vec<String>, id: &str) -> (r: bool)
    ensures
        r == ids.deep_view().contains(id@),
{
    let ghost all = ids.deep_view();
    let mut i: usize = 0;
    while i < ids.len()
        invariant
            i <= ids.len(),
            all == ids.deep_view(),
            forall|k: int| 0 <= k < i ==> #[trigger] all[k] != id@,
        decreases ids.len() - i,
    {
        assert(all[i as int] == ids@[i as int]@);
        if same(ids[i].as_str(), id) {
            return true;
        }
        i = i + 1;
    }
    false
}

fn add_distinct(out: &mut Vec<String>, id: &str)
    ensures
        final(out).deep_view() == (if old(out).deep_view().contains(id@) {
            old(out).deep_view()
        } else {
            old(out).deep_view().push(id@)
        }),
{
    if !holds_id(out, id) {
        out.push(id.to_owned());
        assert(out.deep_view() =~= old(out).deep_view().push(id@));
    }
}

fn found_ids(v: &Vec<VectorSearchResult>, t: &Vec<TextHit>) -> (r: Vec<String>)
    ensures
        r.deep_view() == distinct(vector_ids(v.deep_view()) + text_ids(t.deep_view())),
{
    let ghost vi = vector_ids(v.deep_view());
    let ghost ti = text_ids(t.deep_view());
    let ghost all = vi + ti;
    let mut out: Vec<String> = Vec::new();
    let mut i: usize = 0;
    assert(out.deep_view() =~= distinct(all.take(0)));
    while i < v.len()
        invariant
            i <= v.len(),
            vi == vector_ids(v.deep_view()),
            all == vi + ti,
            out.deep_view() == distinct(all.take(i as int)),
        decreases v.len() - i,
    {
        assert(vi[i as int] == v@[i as int].deep_view().id);
        assert(all.take(i + 1).drop_last() =~= all.take(i as int));
        assert(all.take(i + 1).last() == v@[i as int].id@);
        add_distinct(&mut out, v[i].id.as_str());
        i = i + 1;
    }
    let mut k: usize = 0;
    while k < t.len()
        invariant
            k <= t.len(),
            vi.len() == v.len(),
            ti == text_ids(t.deep_view()),
            all == vi + ti,
            out.deep_view() == distinct(all.take(vi.len() + k as int)),
        decreases t.len() - k,
    {
        let ghost n = vi.len() + k as int;
        assert(ti[k as int] == t@[k as int].deep_view().block_id);
        assert(all.take(n + 1).drop_last() =~= all.take(n));
        assert(all.take(n + 1).last() == t@[k as int].block_id@);
        add_distinct(&mut out, t[k].block_id.as_str());
        k = k + 1;
    }
    assert(all.take(vi.len() + k as int) =~= all);
    out
}

fn find_snippet(v: &Vec<VectorSearchResult>, t: &Vec<TextHit>, id: &str) -> (r: String)
    ensures
        r@ == snippet_of(v.deep_view(), t.deep_view(), id@),
{
    let ghost va = v.deep_view();
    let ghost ta = t.deep_view();
    let ghost p = is_vector(id@);
    let ghost q = is_snippet(id@);
    let mut i: usize = 0;
    while i < v.len()
        invariant
            i <= v.len(),
            va == v.deep_view(),
            ta == t.deep_view(),
            p == is_vector(id@),
            forall|k: int| 0 <= k < i ==> !p(#[trigger] va[k]),
        decreases v.len() - i,
    {
        assert(va[i as int] == v@[i as int].deep_view());
        if same(v[i].id.as_str(), id) {
            proof {
                lemma_first_index_is(va, p, i as int);
            }
            return match v[i].metadata.get_str("text") {
                Some(s) => s.to_owned(),
                None => String::new(),
            };
        }
        i = i + 1;
    }
    proof {
        lemma_first_index(va, p);
    }
    let mut k: usize = 0;
    while k < t.len()
        invariant
            k <= t.len(),
            va == v.deep_view(),
            ta == t.deep_view(),
            q == is_snippet(id@),
            first_index(va, is_vector(id@)) is None,
            forall|j: int| 0 <= j < k ==> !q(#[trigger] ta[j]),
        decreases t.len() - k,
    {
        assert(ta[k as int] == t@[k as int].deep_view());
        if same(t[k].block_id.as_str(), id) && !t[k].snippet.as_str().is_empty() {
            proof {
                lemma_first_index_is(ta, q, k as int);
            }
            return t[k].snippet.clone();
        }
        k = k + 1;
    }
    proof {
        lemma_first_index(ta, q);
    }
    String::new()
}

fn find_ranks(v: &Vec<VectorSearchResult>, t: &Vec<TextHit>, id: &str) -> (r: Vec<usize>)
    ensures
        r@ == ranks_in(vector_ids(v.deep_view()), id@) + ranks_in(text_ids(t.deep_view()), id@),
{
    let ghost vi = vector_ids(v.deep_view());
    let ghost ti = text_ids(t.deep_view());
    let mut r: Vec<usize> = Vec::new();
    let mut i: usize = 0;
    assert(r@ =~= ranks_in(vi.take(0), id@));
    while i < v.len()
        invariant
            i <= v.len(),
            vi == vector_ids(v.deep_view()),
            r@ == ranks_in(vi.take(i as int), id@),
        decreases v.len() - i,
    {
        assert(vi[i as int] == v@[i as int].deep_view().id);
        assert(vi.take(i + 1).drop_last() =~= vi.take(i as int));
        assert(vi.take(i + 1).last() == v@[i as int].id@);
        if same(v[i].id.as_str(), id) {
            r.push(i + 1);
        }
        i = i + 1;
    }
    assert(vi.take(i as int) =~= vi);
    let ghost front = r@;
    let mut k: usize = 0;
    assert(r@ =~= front + ranks_in(ti.take(0), id@));
    while k < t.len()
        invariant
            k <= t.len(),
            ti == text_ids(t.deep_view()),
            r@ == front + ranks_in(ti.take(k as int), id@),
        decreases t.len() - k,
    {
        assert(ti[k as int] == t@[k as int].deep_view().block_id);
        assert(ti.take(k + 1).drop_last() =~= ti.take(k as int));
        assert(ti.take(k + 1).last() == t@[k as int].block_id@);
        let ghost done = r@;
        if same(t[k].block_id.as_str(), id) {
            r.push(k + 1);
            assert(r@ =~= front + ranks_in(ti.take(k + 1), id@));
        }
        k = k + 1;
    }
    assert(ti.take(k as int) =~= ti);
    r
}

/// Fuses two rankings: every block of either once, with its places in both.
pub fn fuse(v: &Vec<VectorSearchResult>, t: &Vec<TextHit>) -> (r: Vec<FusedHit>)
    ensures
        r.deep_view() == fused(v.deep_view(), t.deep_view()),
{
    let ids = found_ids(v, t);
    let ghost all = ids.deep_view();
    let ghost want = fused(v.deep_view(), t.deep_view());
    let mut r: Vec<FusedHit> = Vec::new();
    let mut i: usize = 0;
    assert(r.deep_view() =~= want.take(0));
    while i < ids.len()
        invariant
            i <= ids.len(),
            all == ids.deep_view(),
            all == distinct(vector_ids(v.deep_view()) + text_ids(t.deep_view())),
            want == fused(v.deep_view(), t.deep_view()),
            r.deep_view() == want.take(i as int),
        decreases ids.len() - i,
    {
        assert(all[i as int] == ids@[i as int]@);
        let id = ids[i].as_str();
        let ghost done = r.deep_view();
        let hit = FusedHit {
            block_id: id.to_owned(),
            snippet: find_snippet(v, t, id),
            ranks: find_ranks(v, t, id),
        };
        r.push(hit);
        assert(hit.ranks.deep_view() =~= hit.ranks@);
        assert(hit.deep_view() == want[i as int]);
        assert(r.deep_view() =~= done.push(hit.deep_view()));
        assert(want.take(i + 1) =~= want.take(i as int).push(want[i as int]));
        i = i + 1;
    }
    assert(want.take(i as int) =~= want);
    r
}

/// Fused blocks with their scores.
pub open spec fn scored(hits: Seq<FusedHitM>, scores: Seq<F32>) -> Seq<HybridHitM> {
    Seq::new(
        hits.len(),
        |i: int|
            HybridHitM {
                block_id: hits[i].block_id,
                snippet: hits[i].snippet,
                score: scores[i],
            },
    )
}

/// The best `top_k` of the fused blocks by their scores.
pub open spec fn ranked(
    hits: Seq<FusedHitM>,
    scores: Seq<F32>,
    top_k: usize,
    r: Seq<HybridHit>,
) -> bool {
    exists|all: Seq<HybridHit>| #[trigger]
        hits_view(all) == scored(hits, scores) && best_of(all, top_k, r)
}

/// What a list of hits holds.
pub open spec fn hits_view(s: Seq<HybridHit>) -> Seq<HybridHitM> {
    Seq::new(s.len(), |i: int| s[i].deep_view())
}

/// Ranks fused blocks by their scores, the highest first, and keeps `top_k`.
pub fn rank_hits(hits: &Vec<FusedHit>, scores: &Vec<F32>, top_k: usize) -> (r: Vec<HybridHit>)
    requires
        hits@.len() == scores@.len(),
    ensures
        ranked(hits.deep_view(), scores@, top_k, r@),
{
    let ghost fs = hits.deep_view();
    let ghost want = scored(fs, scores@);
    let mut all: Vec<HybridHit> = Vec::new();
    let mut i: usize = 0;
    assert(hits_view(all@) =~= want.take(0));
    while i < hits.len()
        invariant
            i <= hits.len(),
            hits@.len() == scores@.len(),
            fs == hits.deep_view(),
            want == scored(fs, scores@),
            hits_view(all@) == want.take(i as int),
        decreases hits.len() - i,
    {
        assert(fs[i as int] == hits@[i as int].deep_view());
        let ghost done = hits_view(all@);
        let hit = HybridHit {
            block_id: hits[i].block_id.clone(),
            snippet: hits[i].snippet.clone(),
            score: scores[i],
        };
        all.push(hit);
        assert(hits_view(all@) =~= done.push(hit.deep_view()));
        assert(want.take(i + 1) =~= want.take(i as int).push(want[i as int]));
        i = i + 1;
    }
    assert(want.take(i as int) =~= want);
    take_best(all, top_k)
}

pub proof fn lemma_distinct(ids: Seq<Seq<char>>)
    ensures
        distinct(ids).no_duplicates(),
        forall|id: Seq<char>| #[trigger] distinct(ids).contains(id) <==> ids.contains(id),
    decreases ids.len(),
{
    if ids.len() > 0 {
        let rest = ids.drop_last();
        let front = distinct(rest);
        lemma_distinct(rest);
        let d = distinct(ids);
        assert forall|id: Seq<char>| #[trigger] d.contains(id) <==> ids.contains(id) by {
            if ids.contains(id) {
                let i = choose|i: int| 0 <= i < ids.len() && ids[i] == id;
                if i < rest.len() {
                    assert(rest[i] == id);
                    assert(front.contains(id));
                    let k = choose|k: int| 0 <= k < front.len() && front[k] == id;
                    assert(d[k] == id);
                } else if !front.contains(id) {
                    assert(d[front.len() as int] == id);
                } else {
                    assert(d == front);
                }
            }
            if d.contains(id) {
                let k = choose|k: int| 0 <= k < d.len() && d[k] == id;
                if k < front.len() {
                    assert(front[k] == id);
                    assert(front.contains(id));
                    assert(rest.contains(id));
                    let i = choose|i: int| 0 <= i < rest.len() && rest[i] == id;
                    assert(ids[i] == id);
                } else {
                    assert(ids[ids.len() - 1] == id);
                }
            }
        }
    }
}

pub proof fn lemma_ranks(ids: Seq<Seq<char>>, id: Seq<char>)
    ensures
        ranks_in(ids, id).len() > 0 <==> ids.contains(id),
    decreases ids.len(),
{
    if ids.len() > 0 {
        let rest = ids.drop_last();
        lemma_ranks(rest, id);
        if ids.last() == id {
            assert(ids[ids.len() - 1] == id);
        } else if rest.contains(id) {
            let i = choose|i: int| 0 <= i < rest.len() && rest[i] == id;
            assert(ids[i] == id);
        } else if ids.contains(id) {
            let i = choose|i: int| 0 <= i < ids.len() && ids[i] == id;
            assert(rest[i] == id);
        }
    }
}

/// Fusing loses no block, names none twice, and makes none up: a block comes
/// out exactly if one of the searches found it, and it has a place for each
/// time it was found.
pub proof fn law_fusion_complete(
    v: Seq<VectorSearchResultM>,
    t: Seq<TextHitM>,
    id: Seq<char>,
)
    ensures
        (exists|i: int| 0 <= i < fused(v, t).len() && (#[trigger] fused(v, t)[i]).block_id == id)
            <==> vector_ids(v).contains(id) || text_ids(t).contains(id),
        forall|i: int, j: int|
            0 <= i < j < fused(v, t).len() ==> (#[trigger] fused(v, t)[i]).block_id != (
            #[trigger] fused(v, t)[j]).block_id,
        forall|i: int| 0 <= i < fused(v, t).len() ==> (#[trigger] fused(v, t)[i]).ranks.len() > 0,
{
    let vi = vector_ids(v);
    let ti = text_ids(t);
    let all = vi + ti;
    let ids = distinct(all);
    lemma_distinct(all);
    let out = fused(v, t);
    assert forall|x: Seq<char>| #[trigger] all.contains(x) <==> vi.contains(x) || ti.contains(x) by {
        if all.contains(x) {
            let i = choose|i: int| 0 <= i < all.len() && all[i] == x;
            if i < vi.len() {
                assert(vi[i] == x);
            } else {
                assert(ti[i - vi.len()] == x);
            }
        }
        if vi.contains(x) {
            let i = choose|i: int| 0 <= i < vi.len() && vi[i] == x;
            assert(all[i] == x);
        }
        if ti.contains(x) {
            let i = choose|i: int| 0 <= i < ti.len() && ti[i] == x;
            assert(all[i + vi.len()] == x);
        }
    }
    if ids.contains(id) {
        let i = choose|i: int| 0 <= i < ids.len() && ids[i] == id;
        assert(out[i].block_id == id);
    }
    if exists|i: int| 0 <= i < out.len() && (#[trigger] out[i]).block_id == id {
        let i = choose|i: int| 0 <= i < out.len() && (#[trigger] out[i]).block_id == id;
        assert(ids[i] == id);
        assert(ids.contains(id));
    }
    assert forall|i: int| 0 <= i < out.len() implies (#[trigger] out[i]).ranks.len() > 0 by {
        assert(ids.contains(ids[i]));
        assert(all.contains(ids[i]));
        lemma_ranks(vi, ids[i]);
        lemma_ranks(ti, ids[i]);
    }
}

// ---- What the language model gets ------------------------------------------

/// How a hit stands in a context.
pub open spec fn context_entry(h: HybridHitM) -> Seq<char> {
    "[Block "@ + h.block_id + "]\n"@ + h.snippet
}

/// The context that hits make.
pub open spec fn context_of(hits: Seq<HybridHitM>) -> Seq<char> {
    if hits.len() == 0 {
        "(无相关上下文)"@
    } else {
        joined(Seq::new(hits.len(), |i: int| context_entry(hits[i])), "\n\n"@)
    }
}

/// The context that hits make.
pub fn build_rag_context(hits: &Vec<HybridHit>) -> (r: String)
    ensures
        r@ == context_of(hits.deep_view()),
{
    if hits.len() == 0 {
        assert(hits.deep_view().len() == 0);
        return "(无相关上下文)".to_owned();
    }
    let ghost hs = hits.deep_view();
    let ghost want = Seq::new(hs.len(), |i: int| context_entry(hs[i]));
    let mut parts: Vec<String> = Vec::new();
    let mut i: usize = 0;
    assert(parts.deep_view() =~= want.take(0));
    while i < hits.len()
        invariant
            i <= hits.len(),
            hs == hits.deep_view(),
            want == Seq::new(hs.len(), |i: int| context_entry(hs[i])),
            parts.deep_view() == want.take(i as int),
        decreases hits.len() - i,
    {
        assert(hs[i as int] == hits@[i as int].deep_view());
        let ghost done = parts.deep_view();
        let mut part = cat3("[Block ", hits[i].block_id.as_str(), "]\n");
        part.push_str(hits[i].snippet.as_str());
        parts.push(part);
        assert(parts.deep_view() =~= done.push(part@));
        assert(want.take(i + 1) =~= want.take(i as int).push(want[i as int]));
        i = i + 1;
    }
    assert(want.take(i as int) =~= want);
    join(&parts, "\n\n")
}

/// The prompt for a question with its context.
pub open spec fn qa_prompt(question: Seq<char>, context: Seq<char>) -> Seq<char> {
    "你是一个知识库助手。请**仅基于以下上下文**回答问题，不要使用外部知识。\n如果上下文不足以回答问题，请明确说明。\n引用来源时使用 Block ID。\n\n## 上下文\n"@
        + context + "\n\n## 问题\n"@ + question
        + "\n\n## 回答\n(请在此回答，在末尾列出引用的 Block ID：\n---\n引用: [block-id-1], [block-id-2])"@
}

/// The prompt for a question with its context.
pub fn build_qa_prompt(question: &str, context: &str) -> (r: String)
    ensures
        r@ == qa_prompt(question@, context@),
{
    let mut r =
        "你是一个知识库助手。请**仅基于以下上下文**回答问题，不要使用外部知识。\n如果上下文不足以回答问题，请明确说明。\n引用来源时使用 Block ID。\n\n## 上下文\n".to_owned();
    r.push_str(context);
    r.push_str("\n\n## 问题\n");
    r.push_str(question);
    r.push_str(
        "\n\n## 回答\n(请在此回答，在末尾列出引用的 Block ID：\n---\n引用: [block-id-1], [block-id-2])",
    );
    r
}

/// How a unit stands in a prompt for a summary.
pub open spec fn summary_entry(u: TextUnitM) -> Seq<char> {
    "["@ + u.id + "] "@ + u.text
}

/// The prompt for a summary.
pub open spec fn summarize_prompt(units: Seq<TextUnitM>) -> Seq<char> {
    "请用一段简洁的中文总结以下内容的关键要点：\n\n"@ + joined(
        Seq::new(units.len(), |i: int| summary_entry(units[i])),
        "\n"@,
    ) + "\n\n## 总结"@
}

/// The prompt for a summary.
pub fn build_summarize_prompt(units: &Vec<TextUnit>) -> (r: String)
    ensures
        r@ == summarize_prompt(units.deep_view()),
{
    let ghost us = units.deep_view();
    let ghost want = Seq::new(us.len(), |i: int| summary_entry(us[i]));
    let mut parts: Vec<String> = Vec::new();
    let mut i: usize = 0;
    assert(parts.deep_view() =~= want.take(0));
    while i < units.len()
        invariant
            i <= units.len(),
            us == units.deep_view(),
            want == Seq::new(us.len(), |i: int| summary_entry(us[i])),
            parts.deep_view() == want.take(i as int),
        decreases units.len() - i,
    {
        assert(us[i as int] == units@[i as int].deep_view());
        let ghost done = parts.deep_view();
        let mut part = cat3("[", units[i].id.as_str(), "] ");
        part.push_str(units[i].text.as_str());
        parts.push(part);
        assert(parts.deep_view() =~= done.push(part@));
        assert(want.take(i + 1) =~= want.take(i as int).push(want[i as int]));
        i = i + 1;
    }
    assert(want.take(i as int) =~= want);
    let all = join(&parts, "\n");
    cat3(
        "请用一段简洁的中文总结以下内容的关键要点：\n\n",
        all.as_str(),
        "\n\n## 总结",
    )
}

// ---- What the language model gives -----------------------------------------

/// Whether a line lists citations.
pub open spec fn cites(line: Seq<char>) -> bool {
    begins(trim_start(line), "引用:"@) || begins(trim_start(line), "Citations:"@)
}

/// Whether a line does not list citations.
pub open spec fn no_citation() -> spec_fn(Seq<char>) -> bool {
    |line: Seq<char>| !cites(line)
}

/// The last line that lists citations.
pub open spec fn last_citing(lines: Seq<Seq<char>>) -> Option<Seq<char>>
    decreases lines.len(),
{
    if lines.len() == 0 {
        None
    } else if cites(lines.last()) {
        Some(lines.last())
    } else {
        last_citing(lines.drop_last())
    }
}

/// Where the first square bracket stands.
pub open spec fn bracket_at(s: Seq<char>, from: int) -> int
    decreases s.len() - from,
{
    if from >= s.len() || from < 0 || s[from] == '[' || s[from] == ']' {
        from
    } else {
        bracket_at(s, from + 1)
    }
}

/// What stands between the square brackets of the text from a place on, from
/// the first such piece on that is not inside brackets if `inside` is false.
/// A piece inside brackets counts unless it is empty, and is trimmed.
pub open spec fn bracketed(s: Seq<char>, from: int, inside: bool) -> Seq<Seq<char>>
    decreases s.len() - from,
    via bracketed_ends
{
    if from < 0 || from > s.len() {
        seq![]
    } else {
        let end = bracket_at(s, from);
        let here = if inside && end > from {
            seq![trim(s.subrange(from, end))]
        } else {
            seq![]
        };
        if end >= s.len() {
            here
        } else {
            here + bracketed(s, end + 1, !inside)
        }
    }
}

#[via_fn]
proof fn bracketed_ends(s: Seq<char>, from: int, inside: bool) {
    if 0 <= from && from <= s.len() {
        lemma_bracket_at(s, from);
    }
}

pub proof fn lemma_bracket_at(s: Seq<char>, from: int)
    requires
        0 <= from <= s.len(),
    ensures
        from <= bracket_at(s, from) <= s.len(),
    decreases s.len() - from,
{
    if from < s.len() && s[from] != '[' && s[from] != ']' {
        lemma_bracket_at(s, from + 1);
    }
}

/// The blocks that an answer cites.
pub open spec fn citations_of(answer: Seq<char>) -> Seq<Seq<char>> {
    match last_citing(lines_of(answer)) {
        Some(line) => bracketed(line, 0, false),
        None => seq![],
    }
}

fn is_citing(line: &str) -> (r: bool)
    ensures
        r == cites(line@),
{
    let cs = trim_start_chars(&to_chars(line));
    match_here(&cs, &to_chars("引用:"), 0) || match_here(&cs, &to_chars("Citations:"), 0)
}

fn find_bracket(s: &[char], from: usize) -> (r: usize)
    requires
        from <= s.len(),
    ensures
        from <= r <= s.len(),
        r == bracket_at(s@, from as int),
{
    let mut i: usize = from;
    while i < s.len() && s[i] != '[' && s[i] != ']'
        invariant
            from <= i <= s.len(),
            bracket_at(s@, from as int) == bracket_at(s@, i as int),
        decreases s.len() - i,
    {
        i = i + 1;
    }
    i
}

fn read_brackets(line: &str) -> (r: Vec<String>)
    ensures
        r.deep_view() == bracketed(line@, 0, false),
{
    let cs = to_chars(line);
    let ghost want = bracketed(cs@, 0, false);
    let mut r: Vec<String> = Vec::new();
    let mut from: usize = 0;
    let mut inside = false;
    assert(r.deep_view() + bracketed(cs@, 0, false) =~= want);
    loop
        invariant_except_break
            want == r.deep_view() + bracketed(cs@, from as int, inside),
        invariant
            from <= cs.len(),
        ensures
            r.deep_view() == want,
        decreases cs.len() - from,
    {
        let end = find_bracket(&cs, from);
        let ghost done = r.deep_view();
        if inside && end > from {
            let piece = from_chars(&trim_chars(&copy_range(&cs, from, end)));
            r.push(piece);
            assert(r.deep_view() =~= done.push(piece@));
        }
        if end >= cs.len() {
            assert(r.deep_view() =~= want);
            break;
        }
        assert(want =~= r.deep_view() + bracketed(cs@, end + 1, !inside));
        from = end + 1;
        inside = !inside;
    }
    r
}

/// The blocks that an answer cites, by its last line that lists citations.
pub fn extract_citations(answer: &str) -> (r: Vec<String>)
    ensures
        r.deep_view() == citations_of(answer@),
{
    let lines = split_lines(answer);
    let ghost all = lines.deep_view();
    let mut i: usize = lines.len();
    assert(all.take(i as int) =~= all);
    while i > 0
        invariant
            i <= lines.len(),
            all == lines.deep_view(),
            all == lines_of(answer@),
            last_citing(all.take(i as int)) == last_citing(all),
        decreases i,
    {
        i = i - 1;
        assert(all.take(i + 1).drop_last() =~= all.take(i as int));
        assert(all.take(i + 1).last() == lines@[i as int]@);
        if is_citing(lines[i].as_str()) {
            return read_brackets(lines[i].as_str());
        }
    }
    let r: Vec<String> = Vec::new();
    assert(r.deep_view() =~= seq![]);
    r
}

/// An answer without the lines that list citations, and without trailing white
/// space.
pub open spec fn stripped(answer: Seq<char>) -> Seq<char> {
    trim_end(joined(keep(lines_of(answer), no_citation()), "\n"@))
}

/// An answer without the lines that list citations.
pub fn strip_citation_line(answer: &str) -> (r: String)
    ensures
        r@ == stripped(answer@),
{
    let lines = split_lines(answer);
    let ghost all = lines.deep_view();
    let ghost p = no_citation();
    let mut left: Vec<String> = Vec::new();
    let mut i: usize = 0;
    assert(left.deep_view() =~= keep(all.take(0), p));
    while i < lines.len()
        invariant
            i <= lines.len(),
            all == lines.deep_view(),
            p == no_citation(),
            left.deep_view() == keep(all.take(i as int), p),
        decreases lines.len() - i,
    {
        proof {
            lemma_keep_step(all, p, i as int);
        }
        let ghost done = left.deep_view();
        assert(all[i as int] == lines@[i as int]@);
        if !is_citing(lines[i].as_str()) {
            left.push(lines[i].clone());
            assert(left.deep_view() =~= done.push(all[i as int]));
        }
        i = i + 1;
    }
    assert(all.take(i as int) =~= all);
    let text = join(&left, "\n");
    from_chars(&trim_end_chars(&to_chars(text.as_str())))
}

/// `a` is a beginning of `b`.
pub open spec fn is_start(a: Seq<char>, b: Seq<char>) -> bool {
    a.len() <= b.len() && a == b.take(a.len() as int)
}

proof fn lemma_trim_start_start(a: Seq<char>, b: Seq<char>)
    requires
        is_start(a, b),
        trim_start(a).len() > 0,
    ensures
        is_start(trim_start(a), trim_start(b)),
    decreases a.len(),
{
    if a.len() > 0 {
        assert(a[0] == b[0]);
        if white_space(a[0]) {
            assert(a.drop_first() =~= b.drop_first().take(a.len() - 1));
            lemma_trim_start_start(a.drop_first(), b.drop_first());
        }
    }
}

proof fn lemma_cites_start(a: Seq<char>, b: Seq<char>)
    requires
        is_start(a, b),
        cites(a),
    ensures
        cites(b),
{
    reveal_strlit("引用:");
    reveal_strlit("Citations:");
    let x = trim_start(a);
    let y = trim_start(b);
    lemma_trim_start_start(a, b);
    assert(x == y.take(x.len() as int));
    if begins(x, "引用:"@) {
        assert(y.subrange(0, 3) =~= x.subrange(0, 3));
    } else {
        assert(y.subrange(0, 10) =~= x.subrange(0, 10));
    }
}

/// Every line of a text is a beginning of one of the parts that were joined to
/// it, as far as the text goes.
proof fn lemma_lines_of_joined(parts: Seq<Seq<char>>, t: Seq<char>, from: int, i: int)
    requires
        forall|k: int| 0 <= k < parts.len() ==> !(#[trigger] parts[k]).contains('\n'),
        0 <= from <= parts.len(),
        is_start(t, joined_from(parts, from)),
        0 <= i < lines_of(t).len(),
    ensures
        exists|k: int|
            from <= k < parts.len() && is_start(lines_of(t)[i], #[trigger] parts[k]),
    decreases parts.len() - from,
{
    reveal_with_fuel(joined_from, 2);
    if from >= parts.len() {
        assert(t.len() == 0);
    } else {
        let p = parts[from];
        let rest = joined_from(parts, from + 1);
        let whole = joined_from(parts, from);
        lemma_find_char(t, '\n', 0);
        if from + 1 >= parts.len() {
            assert(whole == p);
            if find_char(t, '\n', 0) is Some {
                let j = find_char(t, '\n', 0)->0;
                assert(t[j] == p[j]);
                assert(p.contains('\n'));
            }
            assert(lines_of(t)[i] == t);
            assert(is_start(lines_of(t)[i], parts[from]));
        } else {
            assert(whole == p + seq!['\n'] + rest);
            match find_char(t, '\n', 0) {
                None => {
                    assert(lines_of(t)[i] == t);
                    if t.len() > p.len() {
                        assert(t[p.len() as int] == whole[p.len() as int]);
                    }
                    assert(t =~= p.take(t.len() as int));
                    assert(is_start(lines_of(t)[i], parts[from]));
                },
                Some(j) => {
                    if j < p.len() {
                        assert(t[j] == p[j]);
                        assert(p.contains('\n'));
                    }
                    if j > p.len() {
                        assert(t[p.len() as int] == whole[p.len() as int]);
                    }
                    assert(j == p.len());
                    assert(t.take(j) =~= p);
                    let tail = t.skip(j + 1);
                    let first = strip_return(p);
                    assert(lines_of(t) == seq![first] + lines_of(tail));
                    if i == 0 {
                        assert(first =~= p.take(first.len() as int));
                        assert(is_start(lines_of(t)[i], parts[from]));
                    } else {
                        assert(tail =~= rest.take(tail.len() as int));
                        assert(lines_of(t)[i] == lines_of(tail)[i - 1]);
                        lemma_lines_of_joined(parts, tail, from + 1, i - 1);
                    }
                },
            }
        }
    }
}

/// The parts from a place on, with line feeds between them.
pub open spec fn joined_from(parts: Seq<Seq<char>>, from: int) -> Seq<char>
    decreases parts.len() - from,
{
    if from < 0 || from >= parts.len() {
        seq![]
    } else if from + 1 == parts.len() {
        parts[from]
    } else {
        parts[from] + seq!['\n'] + joined_from(parts, from + 1)
    }
}

proof fn lemma_joined_from(parts: Seq<Seq<char>>, from: int)
    requires
        0 <= from < parts.len(),
    ensures
        joined(parts, "\n"@) == joined(parts.take(from), "\n"@) + (if from > 0 {
            "\n"@
        } else {
            seq![]
        }) + joined_from(parts, from),
    decreases parts.len() - from,
{
    reveal_strlit("\n");
    assert("\n"@ =~= seq!['\n']);
    let front = parts.take(from);
    if from + 1 == parts.len() {
        if from > 0 {
            assert(parts.drop_last() =~= front);
        } else {
            assert(front =~= seq![]);
        }
        assert(joined(parts, "\n"@) =~= joined(front, "\n"@) + (if from > 0 {
            "\n"@
        } else {
            seq![]
        }) + parts[from]);
    } else {
        lemma_joined_from(parts, from + 1);
        let more = parts.take(from + 1);
        assert(more.drop_last() =~= front);
        assert(more.last() == parts[from]);
        if from == 0 {
            assert(front =~= seq![]);
        }
        assert(joined(more, "\n"@) =~= joined(front, "\n"@) + (if from > 0 {
            "\n"@
        } else {
            seq![]
        }) + parts[from]);
        assert(joined(parts, "\n"@) =~= joined(front, "\n"@) + (if from > 0 {
            "\n"@
        } else {
            seq![]
        }) + joined_from(parts, from));
    }
}

proof fn lemma_lines_plain(s: Seq<char>, i: int)
    requires
        0 <= i < lines_of(s).len(),
    ensures
        !lines_of(s)[i].contains('\n'),
    decreases s.len(),
{
    lemma_find_char(s, '\n', 0);
    match find_char(s, '\n', 0) {
        None => {
            if s.contains('\n') {
                let k = choose|k: int| 0 <= k < s.len() && s[k] == '\n';
                assert(s[k] != '\n');
            }
        },
        Some(j) => {
            let first = strip_return(s.take(j));
            assert(lines_of(s) == seq![first] + lines_of(s.skip(j + 1)));
            if i == 0 {
                if first.contains('\n') {
                    let k = choose|k: int| 0 <= k < first.len() && first[k] == '\n';
                    assert(s[k] == '\n');
                }
            } else {
                lemma_lines_plain(s.skip(j + 1), i - 1);
                assert(lines_of(s)[i] == lines_of(s.skip(j + 1))[i - 1]);
            }
        },
    }
}

proof fn lemma_trim_end_start(s: Seq<char>)
    ensures
        is_start(trim_end(s), s),
    decreases s.len(),
{
    if s.len() > 0 && white_space(s.last()) {
        lemma_trim_end_start(s.drop_last());
        assert(trim_end(s) =~= s.take(trim_end(s).len() as int));
    } else {
        assert(s.take(s.len() as int) =~= s);
    }
}

proof fn lemma_none_citing(lines: Seq<Seq<char>>)
    requires
        forall|i: int| 0 <= i < lines.len() ==> !cites(#[trigger] lines[i]),
    ensures
        last_citing(lines) is None,
    decreases lines.len(),
{
    if lines.len() > 0 {
        lemma_none_citing(lines.drop_last());
    }
}

/// An answer from which the citations were stripped cites nothing any more.
pub proof fn law_stripped_cites_nothing(answer: Seq<char>)
    ensures
        citations_of(stripped(answer)).len() == 0,
{
    let all = lines_of(answer);
    let left = keep(all, no_citation());
    let t = stripped(answer);
    let whole = joined(left, "\n"@);
    lemma_keep_contains(all, no_citation());
    assert forall|k: int| 0 <= k < left.len() implies !(#[trigger] left[k]).contains('\n') && !cites(
        left[k],
    ) by {
        assert(left.contains(left[k]));
        let i = choose|i: int| 0 <= i < all.len() && all[i] == left[k];
        lemma_lines_plain(answer, i);
    }
    lemma_trim_end_start(whole);
    if left.len() == 0 {
        assert(whole =~= seq![]);
    } else {
        lemma_joined_from(left, 0);
        assert(left.take(0) =~= seq![]);
        assert(whole =~= joined_from(left, 0));
    }
    let lines = lines_of(t);
    assert forall|i: int| 0 <= i < lines.len() implies !cites(#[trigger] lines[i]) by {
        if left.len() > 0 {
            lemma_lines_of_joined(left, t, 0, i);
            let k = choose|k: int| 0 <= k < left.len() && is_start(lines[i], #[trigger] left[k]);
            if cites(lines[i]) {
                lemma_cites_start(lines[i], left[k]);
            }
        }
    }
    lemma_none_citing(lines);
}

// ---- Units and queries -----------------------------------------------------

/// A hit as a unit of text with its score.
pub open spec fn unit_of(h: HybridHitM) -> (TextUnitM, F32) {
    (TextUnitM { id: h.block_id, text: h.snippet, path: seq![] }, h.score)
}

/// Hits as units of text with their scores.
pub fn hits_to_text_units(hits: &Vec<HybridHit>) -> (r: Vec<(TextUnit, F32)>)
    ensures
        r.deep_view() == units_of(hits.deep_view()),
{
    let ghost hs = hits.deep_view();
    let ghost want = units_of(hs);
    let mut r: Vec<(TextUnit, F32)> = Vec::new();
    let mut i: usize = 0;
    assert(r.deep_view() =~= want.take(0));
    while i < hits.len()
        invariant
            i <= hits.len(),
            hs == hits.deep_view(),
            want == units_of(hs),
            r.deep_view() == want.take(i as int),
        decreases hits.len() - i,
    {
        assert(hs[i as int] == hits@[i as int].deep_view());
        let ghost done = r.deep_view();
        let unit = TextUnit {
            id: hits[i].block_id.clone(),
            text: hits[i].snippet.clone(),
            path: Vec::new(),
        };
        assert(unit.deep_view().path =~= seq![]);
        let item = (unit, hits[i].score);
        r.push(item);
        assert(item.deep_view() == want[i as int]);
        assert(r.deep_view() =~= done.push(item.deep_view()));
        assert(want.take(i + 1) =~= want.take(i as int).push(want[i as int]));
        i = i + 1;
    }
    assert(want.take(i as int) =~= want);
    r
}

/// Hits as units of text with their scores.
pub open spec fn units_of(hits: Seq<HybridHitM>) -> Seq<(TextUnitM, F32)> {
    Seq::new(hits.len(), |i: int| unit_of(hits[i]))
}

/// The query for a text: its words, all of them, and the text as a phrase.
pub open spec fn text_query_of(query: Seq<char>) -> TextQueryM {
    TextQueryM {
        terms: words(query),
        phrase: Some(query),
        filter: None,
        mode: MatchMode::Exact,
        bool_op: None,
    }
}

/// The query for a text: its words, all of them, and the text as a phrase.
pub fn make_text_query(query: &str) -> (r: TextQuery)
    ensures
        r.deep_view() == text_query_of(query@),
{
    TextQuery {
        terms: split_words(query),
        phrase: Some(query.to_owned()),
        filter: None,
        mode: MatchMode::Exact,
        bool_op: None,
    }
}

} // verus!
