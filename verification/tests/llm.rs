//! Retrieval, answers, embeddings and retries.

use uwu_wiki::collab::access::{
    AllowAllPermissionFilter, DenyListPermissionFilter, PermissionFilter, RequestContext, SpaceRole,
};
use uwu_wiki::config::{RetryConfig, WikiConfig};
use uwu_wiki::error::WikiError;
use uwu_wiki::float::F32;
use uwu_wiki::json::{parse_json, JsonValue};
use uwu_wiki::llm::embed::{accept_batch, batch_texts, plan_embed, EmbedUnit, EmbeddingCache};
use uwu_wiki::llm::engine::{
    complete_request, hit_ids, qa_request, qa_width, qa_with_permission, query_vector,
    read_answer, search_result, search_width, search_with_permission, store_query,
    summarize_request,
};
use uwu_wiki::llm::rag::{
    build_qa_prompt, build_rag_context, build_summarize_prompt, extract_citations, fuse,
    hits_to_text_units, make_text_query, rank_hits, strip_citation_line, HybridHit,
};
use uwu_wiki::llm::retry::{is_retryable, RetryRun};
use uwu_wiki::llm::unit::TextUnit;
use uwu_wiki::memory::{rank_texts, rank_vectors, MemTextIndex, MemVectorStore, TextScan};
use uwu_wiki::storage::{MatchMode, TextHit, VectorSearchResult};

fn json(text: &str) -> JsonValue {
    parse_json(text).unwrap()
}

fn single(x: f32) -> F32 {
    F32 { bits: x.to_bits() }
}

fn value(x: F32) -> f32 {
    f32::from_bits(x.bits)
}

/// The scores of reciprocal rank fusion.
fn reciprocal_rank_fusion(
    vec_hits: &Vec<VectorSearchResult>,
    text_hits: &Vec<TextHit>,
    top_k: usize,
) -> Vec<HybridHit> {
    let fused = fuse(vec_hits, text_hits);
    let scores: Vec<F32> = fused
        .iter()
        .map(|h| single(h.ranks.iter().fold(0.0, |s, r| s + 1.0 / (60.0 + *r as f32))))
        .collect();
    rank_hits(&fused, &scores, top_k)
}

fn vector_hit(id: &str, score: f32, metadata: &str) -> VectorSearchResult {
    VectorSearchResult { id: id.to_string(), score: single(score), metadata: json(metadata) }
}

fn text_hit(id: &str, snippet: &str) -> TextHit {
    TextHit { block_id: id.to_string(), snippet: snippet.to_string(), score: single(1.0) }
}

fn hit(id: &str, snippet: &str, score: f32) -> HybridHit {
    HybridHit { block_id: id.to_string(), snippet: snippet.to_string(), score: single(score) }
}

fn text_unit(id: &str, text: &str) -> TextUnit {
    TextUnit { id: id.to_string(), text: text.to_string(), path: vec![] }
}

#[test]
fn rrf_merges_two_sources() {
    let vec = vec![
        vector_hit("a", 0.95, "{\"text\": \"aaa\"}"),
        vector_hit("b", 0.80, "{\"text\": \"bbb\"}"),
    ];
    let txt = vec![text_hit("b", "BBB")];
    let merged = reciprocal_rank_fusion(&vec, &txt, 5);
    assert_eq!(merged[0].block_id, "b");
    assert!(value(merged[0].score) > value(merged[1].score));
}

#[test]
fn rrf_handles_empty_text_hits() {
    let vec = vec![vector_hit("x", 0.9, "{}")];
    let merged = reciprocal_rank_fusion(&vec, &vec![], 5);
    assert_eq!(merged.len(), 1);
    assert_eq!(merged[0].block_id, "x");
}

#[test]
fn fusion_notes_every_place_and_one_snippet() {
    let vec = vec![vector_hit("a", 0.9, "{}"), vector_hit("b", 0.8, "{\"text\": \"bb\"}")];
    let txt = vec![text_hit("c", ""), text_hit("b", "BB"), text_hit("a", "AA"), text_hit("c", "C")];
    let fused = fuse(&vec, &txt);
    let ids: Vec<&str> = fused.iter().map(|h| h.block_id.as_str()).collect();
    assert_eq!(ids, vec!["a", "b", "c"]);
    assert_eq!(fused[0].ranks, vec![1, 3]);
    assert_eq!(fused[1].ranks, vec![2, 2]);
    assert_eq!(fused[2].ranks, vec![1, 4]);
    assert_eq!(fused[0].snippet, "");
    assert_eq!(fused[1].snippet, "bb");
    assert_eq!(fused[2].snippet, "C");
}

#[test]
fn ranking_keeps_the_best() {
    let fused = fuse(&vec![vector_hit("a", 0.1, "{}"), vector_hit("b", 0.1, "{}")], &vec![]);
    let best = rank_hits(&fused, &vec![single(0.25), single(0.5)], 1);
    assert_eq!(best.len(), 1);
    assert_eq!(best[0].block_id, "b");
}

#[test]
fn build_context_formats_hits() {
    let ctx = build_rag_context(&vec![hit("b1", "Rust async/await", 0.9)]);
    assert!(ctx.contains("[Block b1]"));
    assert!(ctx.contains("Rust async/await"));
}

#[test]
fn build_context_empty_returns_placeholder() {
    let ctx = build_rag_context(&vec![]);
    assert!(ctx.contains("无相关上下文"));
}

#[test]
fn context_separates_hits_by_a_blank_line() {
    let ctx = build_rag_context(&vec![hit("a", "x", 1.0), hit("b", "y", 1.0)]);
    assert_eq!(ctx, "[Block a]\nx\n\n[Block b]\ny");
}

#[test]
fn build_qa_prompt_includes_context_and_question() {
    let prompt = build_qa_prompt("什么是 async?", "上下文内容");
    assert!(prompt.contains("上下文内容"));
    assert!(prompt.contains("什么是 async?"));
    assert!(prompt.contains("仅基于以下上下文"));
}

#[test]
fn extract_citations_parses_reference_line() {
    let answer = "这是答案。\n---\n引用: [b1], [b2]";
    let cites = extract_citations(answer);
    assert_eq!(cites, vec!["b1".to_string(), "b2".to_string()]);
}

#[test]
fn extract_citations_no_reference_line_returns_empty() {
    let cites = extract_citations("普通答案，无引用。");
    assert!(cites.is_empty());
}

#[test]
fn last_citing_line_counts_and_pieces_are_trimmed() {
    let answer = "引用: [old]\n  Citations: [ a ], [], [b] tail [c";
    assert_eq!(extract_citations(answer), vec!["a", "b", "c"]);
}

#[test]
fn make_text_query_splits_words() {
    let tq = make_text_query("rust async tokio");
    assert_eq!(tq.terms.len(), 3);
    assert_eq!(tq.phrase.unwrap(), "rust async tokio");
    assert_eq!(tq.mode, MatchMode::Exact);
}

#[test]
fn hits_to_text_units_converts() {
    let units = hits_to_text_units(&vec![hit("x", "hello", 0.8)]);
    assert_eq!(units[0].0.id, "x");
    assert_eq!(units[0].0.text, "hello");
    assert!((value(units[0].1) - 0.8).abs() < 0.001);
}

#[test]
fn build_summarize_prompt_includes_units() {
    let units = vec![text_unit("a", "AAA"), text_unit("b", "BBB")];
    let prompt = build_summarize_prompt(&units);
    assert!(prompt.contains("[a] AAA"));
    assert!(prompt.contains("[b] BBB"));
    assert!(prompt.contains("总结"));
}

#[test]
fn strip_citation_removes_reference_line() {
    let input = "答案正文\n---\n引用: [a], [b]";
    let stripped = strip_citation_line(input);
    assert_eq!(stripped, "答案正文\n---");
}

#[test]
fn strip_citation_keeps_content_without_refs() {
    let input = "普通回答，无引用信息";
    assert_eq!(strip_citation_line(input), input);
}

// ---- The engine over stores in memory --------------------------------------

fn cosine(a: &[F32], b: &[F32]) -> f32 {
    let dot: f32 = a.iter().zip(b).map(|(x, y)| value(*x) * value(*y)).sum();
    let na: f32 = a.iter().map(|x| value(*x) * value(*x)).sum::<f32>().sqrt();
    let nb: f32 = b.iter().map(|x| value(*x) * value(*x)).sum::<f32>().sqrt();
    if na == 0.0 || nb == 0.0 {
        0.0
    } else {
        dot / (na * nb)
    }
}

fn bm25(scan: &TextScan) -> Vec<F32> {
    let total = scan.total.max(1) as f32;
    scan.candidates
        .iter()
        .map(|c| {
            let len = c.words.max(1) as f32;
            let mut s = 0.0;
            for (df, tf) in scan.doc_frequencies.iter().zip(&c.frequencies) {
                let df = *df as f32;
                let tf = *tf as f32;
                let idf = ((total - df + 0.5) / (df + 0.5) + 1.0).ln().max(0.0);
                s += idf * (tf * 2.2) / (tf + 1.2 * (0.25 + 0.75 * len / total));
            }
            single(s)
        })
        .collect()
}

fn embedding(text: &str, dim: usize) -> Vec<F32> {
    let mut v = vec![single(0.0); dim];
    let first = text.as_bytes().first().copied().unwrap_or(0);
    let seed = (text.len() as f32) * 0.01 + first as f32 * 0.001;
    v[0] = single((seed.sin() + 1.0) / 2.0);
    v[1] = single((seed.cos() + 1.0) / 2.0);
    v
}

struct Stores {
    vectors: MemVectorStore,
    texts: MemTextIndex,
}

impl Stores {
    fn new() -> Stores {
        Stores { vectors: MemVectorStore::new(), texts: MemTextIndex::new() }
    }

    fn index(&mut self, id: &str, text: &str) {
        self.texts.index_block(id, text, json("{}"));
        let meta = JsonValue::object(vec![("text".to_string(), JsonValue::text(text))]);
        self.vectors.upsert("wiki_blocks", id, embedding(text, 8), meta);
    }

    fn fused(&self, query: &str, width: usize) -> Vec<HybridHit> {
        let q = store_query(query, &vec![embedding(query, 8)], width);
        assert_eq!(q.limit, width * 2);
        let found = self.vectors.candidates(&q.collection, &None);
        let scores: Vec<F32> =
            found.iter().map(|f| single(cosine(&q.vector, &f.1.vector))).collect();
        let vec_hits = rank_vectors(&found, &scores, q.limit);
        let scan = self.texts.scan(&q.text);
        let text_hits = rank_texts(&scan.candidates, &bm25(&scan), q.limit);
        reciprocal_rank_fusion(&vec_hits, &text_hits, width)
    }
}

#[test]
fn search_returns_relevant_blocks() {
    let mut stores = Stores::new();
    stores.index("b1", "Rust async/await 入门教程");
    stores.index("b2", "Python 多线程指南");
    stores.index("b3", "Rust tokio 运行时原理");
    let hits = stores.fused("rust async", search_width(3));
    let filter = AllowAllPermissionFilter {};
    let ctx = RequestContext::system();
    let readable = filter.filter_readable(&ctx, hit_ids(&hits));
    let results = search_result(&hits, &readable, 3);
    assert!(!results.is_empty());
    let ids: Vec<&str> = results.iter().map(|(u, _)| u.id.as_str()).collect();
    assert!(ids.contains(&"b1"));
    assert_eq!(ids[0], "b1");
}

#[test]
fn search_empty_index_returns_empty() {
    let stores = Stores::new();
    let hits = stores.fused("nothing", search_width(5));
    assert!(search_result(&hits, &hit_ids(&hits), 5).is_empty());
}

#[test]
fn qa_builds_answer_with_citations() {
    let mut stores = Stores::new();
    stores.index("b1", "Rust 的 async 函数返回 Future 对象。");
    let hits = stores.fused("什么是 async?", qa_width());
    let request = qa_request("什么是 async?", &hits, &hit_ids(&hits));
    assert!(request.prompt.contains("[Block b1]"));
    assert_eq!(request.opts.max_tokens, Some(1024));
    assert_eq!(value(request.opts.temperature.unwrap()), 0.1);
    let qa = read_answer("答案：Rust 的 async 基于 Future trait。\n---\n引用: [b1], [b2]");
    assert!(qa.answer.contains("Future"));
    assert!(qa.answer.contains("Rust"));
    assert_eq!(qa.citations, vec!["b1".to_string(), "b2".to_string()]);
}

#[test]
fn qa_no_context_handled_gracefully() {
    let stores = Stores::new();
    let hits = stores.fused("什么?", qa_width());
    let request = qa_request("什么?", &hits, &hit_ids(&hits));
    assert!(request.prompt.contains("(无相关上下文)"));
}

#[test]
fn complete_appends_to_partial() {
    let unit = text_unit("x", "Rust 是一门系统编程语言。");
    let request = complete_request(&unit, "Rust 是");
    assert!(request.prompt.contains("完整文本: Rust 是一门系统编程语言。\n待补全位置: Rust 是| ←"));
    assert_eq!(value(request.opts.temperature.unwrap()), 0.3);
    assert_eq!(request.opts.max_tokens, None);
}

#[test]
fn summarize_joins_and_delegates() {
    let request = summarize_request(&vec![text_unit("a", "AAA")]).unwrap();
    assert!(request.prompt.contains("[a] AAA"));
    assert_eq!(request.opts.max_tokens, Some(512));
    assert_eq!(value(request.opts.temperature.unwrap()), 0.2);
    assert_eq!(summarize_request(&vec![]).unwrap_err(), "(无内容)");
}

#[test]
fn search_with_permission_filters() {
    let mut stores = Stores::new();
    stores.index("public", "public info");
    stores.index("secret", "secret info");
    let filter = DenyListPermissionFilter::new(vec!["secret".to_string()]);
    let ctx =
        RequestContext { user_id: "viewer".to_string(), roles: vec![SpaceRole::Viewer] };
    let hits = stores.fused("info", search_width(5));
    let results = search_with_permission(&filter, &ctx, &hits, 5);
    let ids: Vec<&str> = results.iter().map(|(u, _)| u.id.as_str()).collect();
    assert!(ids.contains(&"public"));
    assert!(!ids.contains(&"secret"));
}

#[test]
fn unreadable_blocks_never_reach_the_prompt() {
    let filter = DenyListPermissionFilter::new(vec!["s".to_string()]);
    let ctx = RequestContext { user_id: "u".to_string(), roles: vec![] };
    let hits = vec![hit("p", "open", 1.0), hit("s", "hidden words", 0.5)];
    let with = qa_with_permission(&filter, &ctx, "q", &hits);
    let without = qa_with_permission(&filter, &ctx, "q", &vec![hit("p", "open", 1.0)]);
    assert_eq!(with, without);
    assert!(!with.prompt.contains("hidden words"));
}

#[test]
fn missing_query_vector_is_four_zeros() {
    assert_eq!(query_vector(&vec![]), vec![single(0.0); 4]);
    assert_eq!(query_vector(&vec![vec![single(1.5)], vec![]]), vec![single(1.5)]);
}

#[test]
fn search_keeps_the_first_readable() {
    let hits = vec![hit("a", "", 3.0), hit("b", "", 2.0), hit("c", "", 1.0)];
    let readable = vec!["c".to_string(), "b".to_string()];
    let r = search_result(&hits, &readable, 1);
    assert_eq!(r.len(), 1);
    assert_eq!(r[0].0.id, "b");
}

// ---- Embedding -------------------------------------------------------------

fn unit(id: &str, text: &str, content_v: u64, embed_v: u64) -> EmbedUnit {
    EmbedUnit {
        unit: text_unit(id, text),
        content_version: content_v,
        embedding_version: embed_v,
    }
}

#[test]
fn diff_embed_only_stale() {
    let units = vec![unit("a", "hello", 3, 3), unit("b", "world", 5, 2)];
    let plan = plan_embed(None, &units, 64);
    assert_eq!(plan.batches.len(), 1);
    assert_eq!(batch_texts(&plan.batches[0]), vec!["world"]);
    let refreshed = accept_batch(&plan.batches[0], &vec![vec![single(1.0); 4]]);
    assert_eq!(refreshed.len(), 1);
    assert_eq!(refreshed[0].unit.id, "b");
    assert!(plan.reused.is_empty());
}

#[test]
fn cache_hit_avoids_llm() {
    let mut cache = EmbeddingCache::new();
    cache.load("b", vec![single(0.5); 4], 3);
    let plan = plan_embed(Some(&cache), &vec![unit("b", "world", 3, 2)], 64);
    assert!(plan.batches.is_empty());
    assert_eq!(plan.reused.len(), 1);
    assert_eq!(plan.reused[0].vector, vec![single(0.5); 4]);
}

#[test]
fn cache_miss_triggers_llm() {
    let mut cache = EmbeddingCache::new();
    cache.load("b", vec![single(0.5); 4], 1);
    let plan = plan_embed(Some(&cache), &vec![unit("b", "world", 3, 1)], 64);
    assert_eq!(plan.batches.len(), 1);
    assert!(plan.reused.is_empty());
}

#[test]
fn large_batch_is_chunked() {
    let units: Vec<_> = (0..10).map(|i| unit(&format!("b{i}"), "text", 2, 0)).collect();
    let plan = plan_embed(None, &units, 3);
    let sizes: Vec<usize> = plan.batches.iter().map(|b| b.len()).collect();
    assert_eq!(sizes, vec![3, 3, 3, 1]);
    let ids: Vec<String> = plan.batches.iter().flatten().map(|u| u.id.clone()).collect();
    let want: Vec<String> = (0..10).map(|i| format!("b{i}")).collect();
    assert_eq!(ids, want);
}

#[test]
fn embedding_cache_version_filtering() {
    let mut cache = EmbeddingCache::new();
    assert!(cache.is_empty());
    cache.load("x", vec![single(1.0), single(2.0)], 5);
    assert!(cache.get("x", 5).is_some());
    assert!(cache.get("x", 6).is_none());
    assert_eq!(cache.len(), 1);
}

#[test]
fn missing_vectors_leave_units_out() {
    let batch = vec![text_unit("a", "A"), text_unit("b", "B")];
    let got = accept_batch(&batch, &vec![vec![single(1.0)]]);
    assert_eq!(got.len(), 1);
    assert_eq!(got[0].unit.id, "a");
}

// ---- Retrying --------------------------------------------------------------

/// Calls until it succeeds or gives up; how often it was called, and the waits.
fn call_until(
    config: &RetryConfig,
    mut f: impl FnMut(u32) -> Result<i32, WikiError>,
) -> (Result<i32, WikiError>, u32, Vec<u64>) {
    let mut run = RetryRun::new(config);
    let mut calls = 0;
    let mut waits = vec![];
    loop {
        calls += 1;
        match f(calls) {
            Ok(v) => return (Ok(v), calls, waits),
            Err(e) => match run.fail(config, &e) {
                None => return (Err(e), calls, waits),
                Some(ms) => {
                    waits.push(ms);
                    let next = (run.backoff_ms as f32) * value(config.backoff_multiplier);
                    run.set_backoff(next as u64);
                }
            },
        }
    }
}

fn quick(max_retries: u32) -> RetryConfig {
    RetryConfig {
        max_retries,
        initial_backoff_ms: 1,
        max_backoff_ms: 10,
        backoff_multiplier: single(2.0),
    }
}

#[test]
fn retry_succeeds_on_first_attempt() {
    let config = RetryConfig::default();
    let (result, calls, _) = call_until(&config, |_| Ok(42));
    assert_eq!(result.unwrap(), 42);
    assert_eq!(calls, 1);
}

#[test]
fn retry_eventually_succeeds() {
    let (result, calls, waits) = call_until(&quick(3), |n| {
        if n < 3 {
            Err(WikiError::Llm("transient".to_string()))
        } else {
            Ok(99)
        }
    });
    assert_eq!(result.unwrap(), 99);
    assert_eq!(calls, 3);
    assert_eq!(waits, vec![1, 2]);
}

#[test]
fn non_retryable_error_returns_immediately() {
    let (result, calls, _) =
        call_until(&quick(5), |_| Err(WikiError::Invalid("bad".to_string())));
    assert!(result.is_err());
    assert_eq!(calls, 1);
}

#[test]
fn exhausts_retries_then_fails() {
    let (result, calls, _) =
        call_until(&quick(2), |_| Err(WikiError::Storage("down".to_string())));
    assert!(result.is_err());
    assert_eq!(calls, 2);
}

#[test]
fn waits_grow_up_to_the_longest() {
    let (_, calls, waits) =
        call_until(&quick(7), |_| Err(WikiError::Llm("down".to_string())));
    assert_eq!(calls, 7);
    assert_eq!(waits, vec![1, 2, 4, 8, 10, 10]);
    let (_, calls, _) = call_until(&quick(0), |_| Err(WikiError::Llm("down".to_string())));
    assert_eq!(calls, 1);
}

#[test]
fn only_passing_errors_are_retried() {
    assert!(is_retryable(&WikiError::Llm("x".to_string())));
    assert!(is_retryable(&WikiError::Storage("x".to_string())));
    assert!(!is_retryable(&WikiError::NotFound("x".to_string())));
    assert!(!is_retryable(&WikiError::PermissionDenied("x".to_string())));
    assert!(!is_retryable(&WikiError::VersionConflict("x".to_string())));
    assert!(!is_retryable(&WikiError::Serialization("x".to_string())));
    assert!(!is_retryable(&WikiError::Invalid("x".to_string())));
}

#[test]
fn default_configuration() {
    let c = WikiConfig::default();
    assert_eq!(c.search.max_search_queries, 10);
    assert_eq!(value(c.rag.rrf_k), 60.0);
    assert_eq!(c.rag.qa_top_k, 8);
    assert_eq!(value(c.rag.qa_temperature), 0.1);
    assert_eq!(value(c.rag.summarize_temperature), 0.2);
    assert_eq!(value(c.rag.complete_temperature), 0.3);
    assert_eq!(value(c.lint.duplicate_threshold), 0.92);
    assert_eq!(value(c.lint.contradiction_min_similarity), 0.7);
    assert_eq!(c.lint.stale_days_threshold, 90);
    assert_eq!(c.validation.max_blocks_per_doc, 10_000);
    assert_eq!(value(c.retry.backoff_multiplier), 2.0);
    assert_eq!(value(c.query.write_back_confidence_threshold), 0.7);
    assert_eq!(c.ingest.fallback_summary_max_chars, 200);
}
