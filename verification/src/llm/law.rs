//! What prompts hold, what is read out of answers, and what fusing finds.

use vstd::prelude::*;

use crate::float::F32;
use crate::json::{member, Json};
use crate::assoc::lookup;
use crate::config::{rag_defaults, retry_defaults, RetryConfig, RetryConfigM};
use crate::error::{WikiError, WikiErrorM};
use crate::llm::embed::{
    chunks, embed_plan, flat, has_reusable, law_batches, needs_embedding, paired, reusable,
    reused_units, stale_units, texts_of, EmbedUnitM, EmbeddedM, EmbeddingCacheM,
};
use crate::llm::engine::{
    answer_of, at_most, completion_of, hit_readable, ids_of_hits, qa_request_of, qa_width, query_vector,
    search_result, search_width, store_query_of, summarize_request, LlmRequest,
};
use crate::llm::retry::{delay, ends_run, is_retryable, RetryRun, RetryRunM};
use crate::llm::rag::{
    bracket_at, bracketed, build_qa_prompt, citations_of, cites, context_entry, context_of, distinct, fused,
    fused_hit, is_snippet, is_vector, last_citing, lemma_bracket_at, lemma_distinct, no_citation,
    hits_view, qa_prompt, ranked, ranks_in, snippet_of, stripped, summarize_prompt, summary_entry, text_ids,
    text_query_of, units_of, vector_ids, scored, FusedHitM, HybridHit, HybridHitM,
};
use crate::llm::unit::{TextUnit, TextUnitM};
use crate::seqs::{first_index, keep, lemma_first_index, lemma_first_index_is, lemma_keep_all};
use crate::storage::{Scored, TextHitM, VectorSearchResultM};
use crate::text::{begins, joined, lemma_find_char, lines_of, trim, trim_end, trim_start, words};
use crate::text_law::{law_joined, law_lines, law_lines_behind};

verus! {

/// The prompt for a question: the context stands directly behind the heading for
/// it, the question directly behind its own, and what stands before, between and
/// behind them depends on neither.
pub proof fn law_qa_prompt_places() -> (r: (Seq<char>, Seq<char>))
    ensures
        forall|question: Seq<char>, context: Seq<char>| #[trigger]
            qa_prompt(question, context) == r.0 + context + "\n\n## 问题\n"@ + question + r.1,
        "\n\n## 上下文\n"@.is_suffix_of(r.0),
        "\n\n## 回答\n"@.is_prefix_of(r.1),
        "\n---\n引用: [block-id-1], [block-id-2])"@.is_suffix_of(r.1),
{
    let head =
        "你是一个知识库助手。请**仅基于以下上下文**回答问题，不要使用外部知识。\n如果上下文不足以回答问题，请明确说明。\n引用来源时使用 Block ID。\n\n## 上下文\n"@;
    let tail =
        "\n\n## 回答\n(请在此回答，在末尾列出引用的 Block ID：\n---\n引用: [block-id-1], [block-id-2])"@;
    reveal_strlit(
        "你是一个知识库助手。请**仅基于以下上下文**回答问题，不要使用外部知识。\n如果上下文不足以回答问题，请明确说明。\n引用来源时使用 Block ID。\n\n## 上下文\n",
    );
    reveal_strlit(
        "\n\n## 回答\n(请在此回答，在末尾列出引用的 Block ID：\n---\n引用: [block-id-1], [block-id-2])",
    );
    reveal_strlit("\n\n## 上下文\n");
    reveal_strlit("\n\n## 回答\n");
    reveal_strlit("\n---\n引用: [block-id-1], [block-id-2])");
    assert("\n\n## 上下文\n"@.is_suffix_of(head));
    assert("\n\n## 回答\n"@.is_prefix_of(tail));
    assert("\n---\n引用: [block-id-1], [block-id-2])"@.is_suffix_of(tail));
    (head, tail)
}

/// The context: each hit stands in it under its block, in the order of the hits,
/// with an empty line between two.
pub proof fn law_context(a: Seq<HybridHitM>, b: Seq<HybridHitM>, h: HybridHitM)
    ensures
        a.len() > 0 && b.len() > 0 ==> context_of(a + b) == context_of(a) + "\n\n"@ + context_of(b),
        ("[Block "@ + h.block_id + "]\n"@).is_prefix_of(context_of(seq![h])),
        h.snippet.is_suffix_of(context_of(seq![h])),
        context_of(seq![h]).len() == ("[Block "@ + h.block_id + "]\n"@).len() + h.snippet.len(),
        context_of(seq![]) == "(无相关上下文)"@,
{
    let x = Seq::new(a.len(), |i: int| context_entry(a[i]));
    let y = Seq::new(b.len(), |i: int| context_entry(b[i]));
    let one = seq![h];
    assert(Seq::new(one.len(), |i: int| context_entry(one[i])) =~= seq![context_entry(h)]);
    assert(Seq::new((a + b).len(), |i: int| context_entry((a + b)[i])) =~= x + y);
    law_joined(x, y, context_entry(h), "\n\n"@);
    assert(("[Block "@ + h.block_id + "]\n"@).is_prefix_of(context_entry(h)));
    assert(h.snippet.is_suffix_of(context_entry(h)));
}

/// The prompt for a summary: between a beginning and an end that are always the
/// same, each unit stands on its line, its identity in brackets before its text,
/// in the order of the units.
pub proof fn law_summarize_prompt(a: Seq<TextUnitM>, b: Seq<TextUnitM>, u: TextUnitM) -> (r: (
    Seq<char>,
    Seq<char>,
    Seq<char>,
    Seq<char>,
))
    ensures
        summarize_prompt(a) == r.0 + r.1 + r.3,
        summarize_prompt(b) == r.0 + r.2 + r.3,
        a.len() > 0 && b.len() > 0 ==> summarize_prompt(a + b) == r.0 + (r.1 + "\n"@ + r.2) + r.3,
        summarize_prompt(seq![u]) == r.0 + ("["@ + u.id + "] "@ + u.text) + r.3,
        summarize_prompt(seq![]) == r.0 + r.3,
        "请用一段简洁的中文总结以下内容的关键要点：\n\n"@ == r.0,
        "\n\n## 总结"@ == r.3,
{
    let x = Seq::new(a.len(), |i: int| summary_entry(a[i]));
    let y = Seq::new(b.len(), |i: int| summary_entry(b[i]));
    let one = seq![u];
    let none: Seq<TextUnitM> = seq![];
    assert(Seq::new(one.len(), |i: int| summary_entry(one[i])) =~= seq![summary_entry(u)]);
    assert(Seq::new(none.len(), |i: int| summary_entry(none[i])) =~= seq![]);
    assert(Seq::new((a + b).len(), |i: int| summary_entry((a + b)[i])) =~= x + y);
    law_joined(x, y, summary_entry(u), "\n"@);
    let head = "请用一段简洁的中文总结以下内容的关键要点：\n\n"@;
    assert(summarize_prompt(none) =~= head + "\n\n## 总结"@);
    (head, joined(x, "\n"@), joined(y, "\n"@), "\n\n## 总结"@)
}

/// A text without square brackets.
pub open spec fn bracketless(s: Seq<char>) -> bool {
    forall|i: int| 0 <= i < s.len() ==> #[trigger] s[i] != '[' && s[i] != ']'
}

proof fn lemma_bracket_shift(s: Seq<char>, n: int, from: int)
    requires
        0 <= n,
        0 <= from <= s.len() - n,
    ensures
        bracket_at(s, n + from) == n + bracket_at(s.skip(n), from),
    decreases s.len() - from,
{
    if from < s.len() - n {
        assert(s.skip(n)[from] == s[n + from]);
        if s[n + from] != '[' && s[n + from] != ']' {
            lemma_bracket_shift(s, n, from + 1);
        }
    }
}

proof fn lemma_bracketed_shift(s: Seq<char>, n: int, from: int, inside: bool)
    requires
        0 <= n,
        0 <= from <= s.len() - n,
    ensures
        bracketed(s, n + from, inside) == bracketed(s.skip(n), from, inside),
    decreases s.len() - from,
{
    let t = s.skip(n);
    lemma_bracket_shift(s, n, from);
    lemma_bracket_at(t, from);
    let end = bracket_at(t, from);
    assert(s.subrange(n + from, n + end) =~= t.subrange(from, end));
    if end < t.len() {
        lemma_bracketed_shift(s, n, end + 1, !inside);
    }
}

proof fn lemma_bracket_first(w: Seq<char>, c: char, rest: Seq<char>, from: int)
    requires
        bracketless(w),
        c == '[' || c == ']',
        0 <= from <= w.len(),
    ensures
        bracket_at(w + seq![c] + rest, from) == w.len(),
        bracket_at(w, from) == w.len(),
    decreases w.len() - from,
{
    let s = w + seq![c] + rest;
    if from < w.len() {
        assert(s[from] == w[from]);
        lemma_bracket_first(w, c, rest, from + 1);
    } else {
        assert(s[from] == c);
    }
}

proof fn lemma_open(w: Seq<char>, rest: Seq<char>)
    requires
        bracketless(w),
    ensures
        bracketed(w + seq!['['] + rest, 0, false) == bracketed(rest, 0, true),
        bracketed(w, 0, false).len() == 0,
{
    let s = w + seq!['['] + rest;
    lemma_bracket_first(w, '[', rest, 0);
    lemma_bracketed_shift(s, w.len() as int + 1, 0, true);
    assert(s.skip(w.len() as int + 1) =~= rest);
    assert(bracketed(s, 0, false) =~= bracketed(s, w.len() as int + 1, true));
}

proof fn lemma_close(id: Seq<char>, rest: Seq<char>)
    requires
        bracketless(id),
        id.len() > 0,
    ensures
        bracketed(id + seq![']'] + rest, 0, true) == seq![trim(id)] + bracketed(rest, 0, false),
{
    let s = id + seq![']'] + rest;
    lemma_bracket_first(id, ']', rest, 0);
    lemma_bracketed_shift(s, id.len() as int + 1, 0, false);
    assert(s.skip(id.len() as int + 1) =~= rest);
    assert(s.subrange(0, id.len() as int) =~= id);
}

/// What stands in brackets is read out of a line, in order, and nothing else is.
pub proof fn law_brackets(w: Seq<char>, id: Seq<char>, rest: Seq<char>)
    requires
        bracketless(w),
        bracketless(id),
        id.len() > 0,
    ensures
        bracketed(w + (seq!['['] + id + seq![']']) + rest, 0, false) == seq![trim(id)] + bracketed(
            rest,
            0,
            false,
        ),
        bracketed(w, 0, false).len() == 0,
{
    assert(w + (seq!['['] + id + seq![']']) + rest =~= w + seq!['['] + (id + seq![']'] + rest));
    lemma_open(w, id + seq![']'] + rest);
    lemma_close(id, rest);
}

/// An identity as it can be cited: not empty, without brackets or a line feed,
/// and without white space around it.
pub open spec fn citable(id: Seq<char>) -> bool {
    &&& id.len() > 0
    &&& bracketless(id)
    &&& !id.contains('\n')
    &&& trim(id) == id
}

/// Identities as an answer lists them.
pub open spec fn listing(ids: Seq<Seq<char>>) -> Seq<char> {
    joined(ids.map_values(|id: Seq<char>| seq!['['] + id + seq![']']), seq![',', ' '])
}

proof fn lemma_listing(w: Seq<char>, ids: Seq<Seq<char>>)
    requires
        bracketless(w),
        forall|i: int| 0 <= i < ids.len() ==> citable(#[trigger] ids[i]),
    ensures
        bracketed(w + listing(ids), 0, false) == ids,
        !listing(ids).contains('\n'),
        ids.len() > 0 ==> listing(ids).len() > 0 && listing(ids).last() == ']',
    decreases ids.len(),
{
    let f = |id: Seq<char>| seq!['['] + id + seq![']'];
    let sep = seq![',', ' '];
    let none: Seq<char> = seq![];
    if ids.len() == 0 {
        assert(ids.map_values(f) =~= seq![]);
        assert(w + listing(ids) =~= w);
        lemma_open(w, none);
        assert(bracketed(w, 0, false) =~= ids);
    } else {
        let first = ids[0];
        let rest = ids.drop_first();
        assert(citable(first));
        assert forall|i: int| 0 <= i < rest.len() implies citable(#[trigger] rest[i]) by {
            assert(citable(ids[i + 1]));
        }
        lemma_listing(sep, rest);
        law_joined(seq![f(first)], rest.map_values(f), f(first), sep);
        assert(ids.map_values(f) =~= seq![f(first)] + rest.map_values(f));
        assert forall|j: int| 0 <= j < f(first).len() implies #[trigger] f(first)[j] != '\n' by {
            if 0 < j < f(first).len() - 1 {
                assert(first.contains(first[j - 1]));
            }
        }
        if rest.len() == 0 {
            assert(ids.map_values(f) =~= seq![f(first)]);
            law_brackets(w, first, none);
            assert(w + listing(ids) =~= w + f(first) + none);
            assert(bracketless(none));
            lemma_open(none, none);
            assert(bracketed(none, 0, false) =~= seq![]);
            assert(ids =~= seq![first]);
        } else {
            assert(listing(ids) =~= f(first) + (sep + listing(rest)));
            law_brackets(w, first, sep + listing(rest));
            assert(w + listing(ids) =~= w + f(first) + (sep + listing(rest)));
            assert(ids =~= seq![first] + rest);
            assert forall|j: int| 0 <= j < listing(ids).len() implies #[trigger] listing(ids)[j]
                != '\n' by {
                if j >= f(first).len() + 2 {
                    assert(listing(rest).contains(listing(rest)[j - f(first).len() - 2]));
                } else if j < f(first).len() {
                    assert(f(first)[j] != '\n');
                }
            }
            assert(listing(ids).last() == listing(rest).last());
        }
    }
}

/// What an answer cites in its last line is what is read out of it, in order,
/// whatever stands above; and taking the line out leaves what stands above as it
/// is read without it.
pub proof fn law_citations_read(text: Seq<char>, ids: Seq<Seq<char>>, english: bool)
    requires
        forall|i: int| 0 <= i < ids.len() ==> citable(#[trigger] ids[i]),
        ids.len() > 0,
    ensures
        ({
            let key = if english {
                "Citations: "@
            } else {
                "引用: "@
            };
            &&& citations_of(text + seq!['\n'] + (key + listing(ids))) == ids
            &&& stripped(text + seq!['\n'] + (key + listing(ids))) == stripped(text + seq!['\n'])
        }),
{
    reveal_strlit("Citations: ");
    reveal_strlit("引用: ");
    reveal_strlit("Citations:");
    reveal_strlit("引用:");
    let key = if english {
        "Citations: "@
    } else {
        "引用: "@
    };
    let line = key + listing(ids);
    let none: Seq<char> = seq![];
    assert(bracketless(key));
    lemma_listing(key, ids);
    assert forall|j: int| 0 <= j < line.len() implies #[trigger] line[j] != '\n' by {
        if j >= key.len() {
            assert(listing(ids).contains(listing(ids)[j - key.len()]));
        }
    }
    law_lines(line, none);
    law_lines_behind(text, line);
    let above = lines_of(text + seq!['\n']);
    assert(lines_of(text + seq!['\n'] + line) =~= above.push(line));
    assert(above.push(line).drop_last() =~= above);
    assert(trim_start(line) == line);
    if english {
        assert(line.subrange(0, 10) =~= "Citations:"@);
    } else {
        assert(line.subrange(0, 3) =~= "引用:"@);
    }
    assert(cites(line));
}

/// An answer without a citing line cites nothing, and is left as it is but for
/// the white space at its end.
pub proof fn law_nothing_cited(answer: Seq<char>)
    requires
        forall|i: int| 0 <= i < lines_of(answer).len() ==> !cites(#[trigger] lines_of(answer)[i]),
    ensures
        citations_of(answer).len() == 0,
        stripped(answer) == trim_end(joined(lines_of(answer), "\n"@)),
{
    lemma_keep_all(lines_of(answer), no_citation());
    lemma_no_citing(lines_of(answer));
}

proof fn lemma_no_citing(lines: Seq<Seq<char>>)
    requires
        forall|i: int| 0 <= i < lines.len() ==> !cites(#[trigger] lines[i]),
    ensures
        last_citing(lines) is None,
    decreases lines.len(),
{
    if lines.len() > 0 {
        assert(!cites(lines[lines.len() - 1]));
        assert forall|i: int| 0 <= i < lines.drop_last().len() implies !cites(
            #[trigger] lines.drop_last()[i],
        ) by {
            assert(!cites(lines[i]));
        }
        lemma_no_citing(lines.drop_last());
    }
}

/// A line cites if, but for white space before it, it begins with one of the two
/// words for it.
pub proof fn law_cites(space: Seq<char>, line: Seq<char>)
    requires
        crate::text_law::blank(space),
        line.len() > 0,
        !crate::text::white_space(line[0]),
    ensures
        cites(space + line) <==> "引用:"@.is_prefix_of(line) || "Citations:"@.is_prefix_of(line),
{
    let none: Seq<char> = seq![];
    crate::text_law::lemma_start(space, line);
    crate::text_law::law_ends(line, "引用:"@);
    crate::text_law::law_ends(line, "Citations:"@);
}

/// The places of a block among the ones found: counted from one, in ascending
/// order, one for each time it was found.
pub proof fn law_ranks(ids: Seq<Seq<char>>, id: Seq<char>)
    requires
        ids.len() <= usize::MAX,
    ensures
        forall|k: usize| #[trigger] ranks_in(ids, id).contains(k) <==> 1 <= k <= ids.len() && ids[k - 1]
            == id,
        forall|i: int, j: int|
            0 <= i < j < ranks_in(ids, id).len() ==> ranks_in(ids, id)[i] < ranks_in(ids, id)[j],
    decreases ids.len(),
{
    let r = ranks_in(ids, id);
    if ids.len() > 0 {
        let front = ids.drop_last();
        let rf = ranks_in(front, id);
        law_ranks(front, id);
        assert forall|k: usize| #[trigger] r.contains(k) <==> 1 <= k <= ids.len() && ids[k - 1]
            == id by {
            assert(rf.contains(k) <==> 1 <= k <= front.len() && front[k - 1] == id);
            if ids.last() == id {
                assert(r =~= rf.push(ids.len() as usize));
                if rf.contains(k) {
                    let m = choose|m: int| 0 <= m < rf.len() && rf[m] == k;
                    assert(r[m] == k);
                }
                if k == ids.len() {
                    assert(r[rf.len() as int] == k);
                }
                if r.contains(k) {
                    let m = choose|m: int| 0 <= m < r.len() && r[m] == k;
                    if m < rf.len() {
                        assert(rf[m] == k);
                    }
                }
            }
        }
        assert forall|i: int, j: int| 0 <= i < j < r.len() implies r[i] < r[j] by {
            assert(rf.contains(r[i]) || i == rf.len()) by {
                if i < rf.len() {
                    assert(rf[i] == r[i]);
                }
            }
            if j == rf.len() {
                assert(rf[i] == r[i]);
                assert(rf.contains(rf[i]));
            } else {
                assert(rf[i] < rf[j]);
            }
        }
    }
}

proof fn lemma_distinct_start(a: Seq<Seq<char>>, b: Seq<Seq<char>>)
    ensures
        distinct(a).is_prefix_of(distinct(a + b)),
    decreases b.len(),
{
    if b.len() == 0 {
        assert(a + b =~= a);
    } else {
        assert((a + b).drop_last() =~= a + b.drop_last());
        lemma_distinct_start(a, b.drop_last());
    }
}

/// The hit that fusing makes of a block: its places among the vectors before
/// those among the texts, and as its text what the first vector of it carries, or
/// where there is none the first text of it that is not empty. What the vectors
/// found comes first.
pub proof fn law_fused(v: Seq<VectorSearchResultM>, t: Seq<TextHitM>, i: int)
    requires
        0 <= i < fused(v, t).len(),
    ensures
        ({
            let h = fused(v, t)[i];
            &&& h.ranks == ranks_in(v.map_values(|x: VectorSearchResultM| x.id), h.block_id)
                + ranks_in(t.map_values(|x: TextHitM| x.block_id), h.block_id)
            &&& forall|j: int|
                0 <= j < v.len() && v[j].id == h.block_id && (forall|m: int|
                    0 <= m < j ==> (#[trigger] v[m]).id != h.block_id) ==> match member(
                    (#[trigger] v[j]).metadata,
                    "text"@,
                ) {
                    Some(Json::Str(s)) => h.snippet == s,
                    _ => h.snippet.len() == 0,
                }
            &&& (forall|j: int| 0 <= j < v.len() ==> (#[trigger] v[j]).id != h.block_id) ==> (forall|
                j: int,
            |
                0 <= j < t.len() && t[j].block_id == h.block_id && t[j].snippet.len() > 0 && (forall|
                    m: int,
                |
                    0 <= m < j ==> (#[trigger] t[m]).block_id != h.block_id || t[m].snippet.len()
                        == 0) ==> h.snippet == (#[trigger] t[j]).snippet)
        }),
        i < distinct(v.map_values(|x: VectorSearchResultM| x.id)).len() ==> fused(v, t)[i].block_id
            == distinct(v.map_values(|x: VectorSearchResultM| x.id))[i],
{
    let h = fused(v, t)[i];
    let id = h.block_id;
    assert(v.map_values(|x: VectorSearchResultM| x.id) =~= vector_ids(v));
    assert(t.map_values(|x: TextHitM| x.block_id) =~= text_ids(t));
    lemma_distinct_start(vector_ids(v), text_ids(t));
    assert forall|j: int|
        0 <= j < v.len() && v[j].id == id && (forall|m: int|
            0 <= m < j ==> (#[trigger] v[m]).id != id) implies match member(
        (#[trigger] v[j]).metadata,
        "text"@,
    ) {
        Some(Json::Str(s)) => h.snippet == s,
        _ => h.snippet.len() == 0,
    } by {
        lemma_first_index_is(v, is_vector(id), j);
    }
    if forall|j: int| 0 <= j < v.len() ==> (#[trigger] v[j]).id != id {
        lemma_first_index(v, is_vector(id));
        assert forall|j: int|
            0 <= j < t.len() && t[j].block_id == id && t[j].snippet.len() > 0 && (forall|m: int|
                0 <= m < j ==> (#[trigger] t[m]).block_id != id || t[m].snippet.len()
                    == 0) implies h.snippet == (#[trigger] t[j]).snippet by {
            lemma_first_index_is(t, is_snippet(id), j);
        }
    }
}

/// A hit becomes a unit with its block, its text and its score; a query is looked
/// up by its words and as a phrase.
pub proof fn law_units(hits: Seq<HybridHitM>, query: Seq<char>)
    ensures
        units_of(hits) == hits.map_values(
            |h: HybridHitM|
                (TextUnitM { id: h.block_id, text: h.snippet, path: Seq::empty() }, h.score),
        ),
        text_query_of(query).terms == words(query),
        text_query_of(query).phrase == Some(query),
{
    assert(units_of(hits) =~= hits.map_values(
        |h: HybridHitM|
            (TextUnitM { id: h.block_id, text: h.snippet, path: Seq::empty() }, h.score),
    ));
}

// ---- Requests --------------------------------------------------------------

/// A question is put to the model with the context of its hits behind the heading
/// for it and the question behind its own.
pub proof fn law_qa_request(question: Seq<char>, hits: Seq<HybridHitM>) -> (r: (
    Seq<char>,
    Seq<char>,
))
    ensures
        qa_request_of(question, hits).prompt == r.0 + context_of(hits) + "\n\n## 问题\n"@ + question
            + r.1,
        "\n\n## 上下文\n"@.is_suffix_of(r.0),
        "\n\n## 回答\n"@.is_prefix_of(r.1),
        qa_request_of(question, hits).opts.max_tokens == Some(1024usize),
        qa_request_of(question, hits).opts.temperature == Some(F32 { bits: 0x3dcc_cccd }),
{
    law_qa_prompt_places()
}

/// A completion is asked for with the whole text behind its label and the part to
/// go on from behind its own.
pub proof fn law_completion() -> (r: (Seq<char>, Seq<char>))
    ensures
        forall|text: Seq<char>, partial: Seq<char>|
            (#[trigger] completion_of(text, partial)).prompt == r.0 + text + "\n待补全位置: "@ + partial
                + r.1,
        "完整文本: "@.is_suffix_of(r.0),
        "| ←\n\n"@.is_prefix_of(r.1),
{
    let head = "你是内容补全助手。基于以下文本续写：\n\n完整文本: "@;
    let tail = "| ←\n\n请直接从光标位置续写，不要重复已有内容。"@;
    reveal_strlit("你是内容补全助手。基于以下文本续写：\n\n完整文本: ");
    reveal_strlit("| ←\n\n请直接从光标位置续写，不要重复已有内容。");
    reveal_strlit("完整文本: ");
    reveal_strlit("| ←\n\n");
    assert("完整文本: "@.is_suffix_of(head));
    assert("| ←\n\n"@.is_prefix_of(tail));
    (head, tail)
}

/// What is looked for: twice as many as are wanted, by the first vector, or where
/// there is none by one of zeros, and by the words and the phrase of the query.
pub proof fn law_store_query(query: Seq<char>, vectors: Seq<Seq<F32>>, top_k: usize)
    requires
        top_k * 2 <= usize::MAX,
    ensures
        ({
            let q = store_query_of(query, vectors, top_k);
            &&& q.collection == "wiki_blocks"@
            &&& q.limit == 2 * top_k
            &&& q.text.terms == words(query)
            &&& q.text.phrase == Some(query)
            &&& vectors.len() > 0 ==> q.vector == vectors.first()
            &&& vectors.len() == 0 ==> q.vector.len() == 4 && forall|i: int|
                0 <= i < 4 ==> (#[trigger] q.vector[i]).bits == 0
        }),
{
}

/// The first items of a list are a beginning of it: as many as are asked for, or
/// all that there are.
pub proof fn law_at_most<T>(s: Seq<T>, n: usize)
    ensures
        at_most(s, n).is_prefix_of(s),
        at_most(s, n).len() <= n,
        at_most(s, n).len() < n ==> at_most(s, n) == s,
{
}

/// An answer is the reply without what it cites, and what it cites.
pub proof fn law_answer(text: Seq<char>, ids: Seq<Seq<char>>)
    requires
        forall|i: int| 0 <= i < ids.len() ==> citable(#[trigger] ids[i]),
        ids.len() > 0,
    ensures
        answer_of(text + seq!['\n'] + ("引用: "@ + listing(ids))).citations == ids,
        answer_of(text + seq!['\n'] + ("引用: "@ + listing(ids))).answer == stripped(
            text + seq!['\n'],
        ),
{
    law_citations_read(text, ids, false);
}

/// Hits become scored hits one for one.
pub proof fn law_scored(hits: Seq<FusedHitM>, scores: Seq<F32>, i: int)
    requires
        0 <= i < hits.len(),
    ensures
        scored(hits, scores).len() == hits.len(),
        scored(hits, scores)[i].block_id == hits[i].block_id,
        scored(hits, scores)[i].snippet == hits[i].snippet,
        scored(hits, scores)[i].score == scores[i],
{
}

// ---- Embeddings ------------------------------------------------------------

/// A vector is reused exactly if the cache holds one for the block that is as new
/// as its content and as its last embedding.
pub proof fn law_reusable(c: EmbeddingCacheM, u: EmbedUnitM)
    ensures
        reusable(Some(c), u) is Some <==> (lookup(c.entries, u.unit.id) matches Some(e) && e.version
            >= u.content_version && e.version >= u.embedding_version),
        reusable(Some(c), u) matches Some(v) ==> v == lookup(c.entries, u.unit.id)->0.vector,
        reusable(None, u) is None,
{
}

/// A plan reuses, in order, the units that a vector is there for, each with its
/// vector, and embeds, in order, those that are out of date and have none.
pub proof fn law_embed_plan(c: Option<EmbeddingCacheM>, units: Seq<EmbedUnitM>, n: nat)
    requires
        n > 0,
    ensures
        embed_plan(c, units, n).reused == units.filter(
            |u: EmbedUnitM| reusable(c, u) is Some,
        ).map_values(|u: EmbedUnitM| EmbeddedM { unit: u.unit, vector: reusable(c, u)->0 }),
        embed_plan(c, units, n).batches.flatten() == units.filter(
            |u: EmbedUnitM| u.embedding_version < u.content_version && reusable(c, u) is None,
        ).map_values(|u: EmbedUnitM| u.unit),
        forall|i: int|
            0 <= i < embed_plan(c, units, n).batches.len() ==> 0 < (#[trigger] embed_plan(
                c,
                units,
                n,
            ).batches[i]).len() <= n,
        forall|i: int|
            0 <= i < embed_plan(c, units, n).batches.len() - 1 ==> (#[trigger] embed_plan(
                c,
                units,
                n,
            ).batches[i]).len() == n,
{
    let f = |u: EmbedUnitM| reusable(c, u) is Some;
    let g = |u: EmbedUnitM| u.embedding_version < u.content_version && reusable(c, u) is None;
    crate::seqs::law_keep_filters(units, has_reusable(c));
    crate::seqs::law_keep_filters(units, needs_embedding(c));
    assert(has_reusable(c) =~= f);
    assert(needs_embedding(c) =~= g);
    assert(reused_units(c, units) =~= units.filter(f).map_values(
        |u: EmbedUnitM| EmbeddedM { unit: u.unit, vector: reusable(c, u)->0 },
    ));
    assert(stale_units(c, units) =~= units.filter(g).map_values(|u: EmbedUnitM| u.unit));
    law_batches(stale_units(c, units), n);
    lemma_flat(chunks(stale_units(c, units), n));
    lemma_full(stale_units(c, units), n);
}

proof fn lemma_flat<T>(bs: Seq<Seq<T>>)
    ensures
        flat(bs) == bs.flatten(),
    decreases bs.len(),
{
    if bs.len() > 0 {
        lemma_flat(bs.drop_first());
    }
}

proof fn lemma_full<T>(s: Seq<T>, n: nat)
    requires
        n > 0,
    ensures
        forall|i: int|
            0 <= i < chunks(s, n).len() - 1 ==> (#[trigger] chunks(s, n)[i]).len() == n,
    decreases s.len(),
{
    if s.len() > n {
        let rest = chunks(s.skip(n as int), n);
        lemma_full(s.skip(n as int), n);
        assert forall|i: int| 0 <= i < chunks(s, n).len() - 1 implies (#[trigger] chunks(
            s,
            n,
        )[i]).len() == n by {
            if i > 0 {
                assert(chunks(s, n)[i] == rest[i - 1]);
            }
        }
    }
}

/// Vectors that came back are given to the units that were sent, in order, as far
/// as both go; the texts that are sent are those of the units.
pub proof fn law_paired(units: Seq<TextUnitM>, vectors: Seq<Seq<F32>>, i: int)
    ensures
        paired(units, vectors).len() <= units.len(),
        paired(units, vectors).len() <= vectors.len(),
        paired(units, vectors).len() == units.len() || paired(units, vectors).len() == vectors.len(),
        0 <= i < paired(units, vectors).len() ==> paired(units, vectors)[i].unit == units[i]
            && paired(units, vectors)[i].vector == vectors[i],
        texts_of(units) == units.map_values(|u: TextUnitM| u.text),
{
    assert(texts_of(units) =~= units.map_values(|u: TextUnitM| u.text));
}

// ---- Trying again ----------------------------------------------------------

/// A call is tried again exactly if its error may pass and calls are left, and the
/// wait before it is the one that is due, but never longer than the longest.
pub proof fn law_retried(c: RetryConfigM, run: RetryRunM, e: WikiErrorM)
    ensures
        !ends_run(c, run, e) <==> (e is Llm || e is Storage) && run.attempt + 1 < c.max_retries,
        delay(c, run) <= run.backoff_ms,
        delay(c, run) <= c.max_backoff_ms,
        delay(c, run) == run.backoff_ms || delay(c, run) == c.max_backoff_ms,
{
}

/// What is asked for without saying more is what the settings say at first.
pub proof fn law_rag_defaults(
    question: Seq<char>,
    hits: Seq<HybridHitM>,
    text: Seq<char>,
    partial: Seq<char>,
    vectors: Seq<Seq<F32>>,
    top_k: usize,
)
    requires
        top_k * 2 <= usize::MAX,
    ensures
        qa_request_of(question, hits).opts.max_tokens == Some(rag_defaults().qa_max_tokens),
        qa_request_of(question, hits).opts.temperature == Some(rag_defaults().qa_temperature),
        completion_of(text, partial).opts.temperature == Some(rag_defaults().complete_temperature),
        store_query_of(question, vectors, top_k).limit == rag_defaults().search_overfetch_multiplier
            * top_k,
        vectors.len() == 0 ==> store_query_of(question, vectors, top_k).vector.len()
            == rag_defaults().fallback_embedding_dim,
        rag_defaults().qa_top_k == 8,
        rag_defaults().qa_max_tokens == 1024,
        rag_defaults().summarize_max_tokens == 512,
        rag_defaults().search_overfetch_multiplier == 2,
        rag_defaults().rrf_k.bits == 0x4270_0000,
        rag_defaults().qa_temperature.below(rag_defaults().summarize_temperature),
        rag_defaults().summarize_temperature.below(rag_defaults().complete_temperature),
        retry_defaults().max_retries == 3,
        retry_defaults().initial_backoff_ms == 500,
        retry_defaults().max_backoff_ms == 10_000,
        retry_defaults().backoff_multiplier.bits == 0x4000_0000,
{
}

/// The identities of hits are theirs, in order.
pub proof fn law_hit_ids(hits: Seq<HybridHitM>)
    ensures
        ids_of_hits(hits) == hits.map_values(|h: HybridHitM| h.block_id),
{
    assert(ids_of_hits(hits) =~= hits.map_values(|h: HybridHitM| h.block_id));
}

/// A user is answered from the hits that the filter lets them read, in order, and
/// from no others.
pub proof fn law_hits_read(hits: Seq<HybridHitM>, p: spec_fn(Seq<char>) -> bool)
    ensures
        keep(hits, hit_readable(p)) == hits.filter(|h: HybridHitM| p(h.block_id)),
{
    crate::seqs::law_keep_filters(hits, hit_readable(p));
    assert(hit_readable(p) =~= (|h: HybridHitM| p(h.block_id)));
}

/// The hits that come out are the best of those that were fused, each with its
/// block, its text and its score.
pub proof fn law_ranked(
    hits: Seq<FusedHitM>,
    scores: Seq<F32>,
    top_k: usize,
    r: Seq<HybridHit>,
) -> (places: Seq<int>)
    requires
        ranked(hits, scores, top_k, r),
    ensures
        r.len() == if top_k < hits.len() {
            top_k as nat
        } else {
            hits.len()
        },
        places.len() == hits.len(),
        places.no_duplicates(),
        forall|i: int|
            0 <= i < r.len() ==> 0 <= #[trigger] places[i] < hits.len() && r[i].deep_view().block_id
                == hits[places[i]].block_id && r[i].deep_view().snippet == hits[places[i]].snippet
                && r[i].deep_view().score == scores[places[i]],
        (forall|i: int| 0 <= i < hits.len() ==> !(#[trigger] scores[i]).nan()) ==> forall|
            i: int,
            j: int,
        |
            0 <= i < j < places.len() ==> !scores[#[trigger] places[i]].below(
                scores[#[trigger] places[j]],
            ),
{
    let all = choose|all: Seq<HybridHit>| #[trigger]
        hits_view(all) == scored(hits, scores) && crate::storage::best_of(all, top_k, r);
    let places = crate::json_law::law_best_of(all, top_k, r);
    assert(all.len() == hits_view(all).len());
    assert forall|i: int| 0 <= i < hits.len() implies #[trigger] all[i].deep_view().block_id
        == hits[i].block_id && all[i].deep_view().snippet == hits[i].snippet && all[i].score
        == scores[i] by {
        assert(hits_view(all)[i] == all[i].deep_view());
    }
    assert forall|i: int| 0 <= i < r.len() implies 0 <= #[trigger] places[i] < hits.len()
        && r[i].deep_view().block_id == hits[places[i]].block_id && r[i].deep_view().snippet
        == hits[places[i]].snippet && r[i].deep_view().score == scores[places[i]] by {
        assert(r[i] == all[places[i]]);
    }
    if forall|i: int| 0 <= i < hits.len() ==> !(#[trigger] scores[i]).nan() {
        assert forall|i: int| 0 <= i < all.len() implies !(#[trigger] all[i]).spec_score().nan() by {
            assert(all[i].deep_view().block_id == hits[i].block_id);
            assert(!scores[i].nan());
        }
        assert forall|i: int, j: int| 0 <= i < j < places.len() implies !scores[
        #[trigger] places[i]].below(scores[#[trigger] places[j]]) by {
            assert(all[places[i]].deep_view().block_id == hits[places[i]].block_id);
            assert(all[places[j]].deep_view().block_id == hits[places[j]].block_id);
            assert(!all[places[i]].spec_score().below(all[places[j]].spec_score()));
        }
    }
    places
}

// ---- Calls -----------------------------------------------------------------

/// A summary is asked for with the prompt of the units; of no units none is, and
/// the summary says that there is nothing.
pub proof fn law_summarize_request(units: &Vec<TextUnit>, r: Result<LlmRequest, String>)
    requires
        call_ensures(summarize_request, (units,), r),
    ensures
        r is Ok <==> units@.len() > 0,
        r matches Err(s) ==> s@ == "(无内容)"@,
        r matches Ok(q) ==> q.deep_view().prompt == summarize_prompt(units.deep_view())
            && q.deep_view().opts.max_tokens == Some(rag_defaults().summarize_max_tokens)
            && q.deep_view().opts.temperature == Some(rag_defaults().summarize_temperature),
{
}

/// A search gives the first of the hits that may be read, in order, as units with
/// their scores, no more than are asked for.
pub proof fn law_search_result(
    hits: &Vec<HybridHit>,
    readable: &Vec<String>,
    top_k: usize,
    r: Vec<(TextUnit, F32)>,
    i: int,
)
    requires
        call_ensures(search_result, (hits, readable, top_k), r),
    ensures
        ({
            let seen = hits.deep_view().filter(
                |h: HybridHitM| readable.deep_view().contains(h.block_id),
            );
            &&& r@.len() <= top_k
            &&& r@.len() <= seen.len()
            &&& r@.len() < top_k ==> r@.len() == seen.len()
            &&& 0 <= i < r@.len() ==> r.deep_view()[i].0.id == seen[i].block_id
                && r.deep_view()[i].0.text == seen[i].snippet && r.deep_view()[i].1 == seen[i].score
        }),
{
    let p = crate::llm::engine::among(readable.deep_view());
    crate::seqs::law_keep_filters(hits.deep_view(), p);
    assert(p =~= (|h: HybridHitM| readable.deep_view().contains(h.block_id)));
    law_at_most(keep(hits.deep_view(), p), top_k);
    assert(r.deep_view().len() == r@.len());
}

/// A run of calls begins with none failed and the first wait. A failure counts one
/// more, and tells the wait, or that it is the last.
pub proof fn law_retry_calls(
    config: &RetryConfig,
    run: RetryRun,
    again: &mut RetryRun,
    err: &WikiError,
    wait: Option<u64>,
)
    requires
        call_ensures(RetryRun::new, (config,), run),
        call_ensures(RetryRun::fail, (again, config, err), wait),
        old(again).attempt < u32::MAX,
    ensures
        run.attempt == 0,
        run.backoff_ms == config.initial_backoff_ms,
        final(again).attempt == old(again).attempt + 1,
        final(again).backoff_ms == old(again).backoff_ms,
        wait is None <==> !(err.deep_view() is Llm || err.deep_view() is Storage) || old(again).attempt + 1 >= config.max_retries,
        wait matches Some(w) ==> w <= config.max_backoff_ms && w <= old(again).backoff_ms && (w
            == config.max_backoff_ms || w == old(again).backoff_ms),
{
    assert(run.deep_view().attempt == run.attempt);
    assert(final(again).deep_view().attempt == final(again).attempt);
    assert(old(again).deep_view().attempt == old(again).attempt);
}

/// A search reaches twice as far as is asked for, and an answer rests on as many
/// hits as the settings say at first.
pub proof fn law_widths(top_k: usize, wide: usize, qa: usize)
    requires
        top_k * 2 <= usize::MAX,
        call_ensures(search_width, (top_k,), wide),
        call_ensures(qa_width, (), qa),
    ensures
        wide == top_k + top_k,
        qa == rag_defaults().qa_top_k,
{
}

/// A prompt that is built holds the context directly behind the heading for it and
/// the question directly behind its own; two prompts differ in nothing else.
pub proof fn law_qa_prompt_call(
    question: &str,
    context: &str,
    r: String,
    question2: &str,
    context2: &str,
    r2: String,
) -> (ends: (Seq<char>, Seq<char>))
    requires
        call_ensures(build_qa_prompt, (question, context), r),
        call_ensures(build_qa_prompt, (question2, context2), r2),
    ensures
        r@ == ends.0 + context@ + "\n\n## 问题\n"@ + question@ + ends.1,
        r2@ == ends.0 + context2@ + "\n\n## 问题\n"@ + question2@ + ends.1,
        "\n\n## 上下文\n"@.is_suffix_of(ends.0),
        "\n\n## 回答\n"@.is_prefix_of(ends.1),
{
    law_qa_prompt_places()
}

/// The vector of a query is the first that came back, whatever follows it, and four
/// zeros if none did. A failure is worth another try exactly if it came from the
/// model or a store.
pub proof fn law_query_calls(
    vectors: &Vec<Vec<F32>>,
    r: Vec<F32>,
    err: &WikiError,
    again: bool,
)
    requires
        call_ensures(query_vector, (vectors,), r),
        call_ensures(is_retryable, (err,), again),
    ensures
        vectors@.len() > 0 ==> r.deep_view() == vectors.deep_view()[0],
        vectors@.len() == 0 ==> r.deep_view().len() == 4 && forall|i: int|
            0 <= i < 4 ==> (#[trigger] r.deep_view()[i]).bits == 0,
        again <==> err.deep_view() is Llm || err.deep_view() is Storage,
{
}

} // verus!
