//! Taking in, answering and auditing.

use uwu_wiki::config::LintConfig;
use uwu_wiki::float::F32;
use uwu_wiki::ids::{BlockId, DocId};
use uwu_wiki::json::parse_json;
use uwu_wiki::llm::engine::QaAnswer;
use uwu_wiki::llm::unit::TextUnit;
use uwu_wiki::memory::{MemDocStore, MemLinkStore};
use uwu_wiki::storage::{LinkTarget, WikiLink};
use uwu_wiki::time::Timestamp;
use uwu_wiki::tree::block::{Block, BlockContent, BlockType};
use uwu_wiki::tree::doc::{Document, Op, SpaceId};
use uwu_wiki::workflow::ingest::{
    add_related, analysis_payload, analyze_prompt, ingest_result, page_to_read, plan_payload,
    plan_prompt, plan_step, search_names, settle_analysis, summary_page, ContradictionSeverity,
    IngestSource, PageUpdatePlan, PlanAction, PlanOutcome, SourceAnalysis, UpdateAction,
};
use uwu_wiki::workflow::lint::{
    all_pairs, audit_links, audit_pairs, blocks_to_clear, contradiction_candidates,
    contradiction_prompt, contradiction_verdict, explain_age, judge_age, judge_contradiction,
    lint_report, missing_pages, orphans, page_units, pages_to_compare, placeholder, similar_pairs,
    stale_prompt, stale_step, stale_verdict, text_to_compare, Likeness, LinkedPage, LintReport,
    PageText, StaleAudit, StaleStep,
};
use uwu_wiki::workflow::query::{
    decide, evaluation_payload, evaluation_prompt, needs_evaluation, query_result,
    settle_evaluation, target_page, write_back, write_back_result, WriteBackAction,
    WriteBackDecision, WriteBackEval, WriteBackPolicy,
};
use uwu_wiki::workflow::reply::{
    extract_json_block, hyphenate, json_payload, read_reply, slugify,
};

fn single(x: f32) -> F32 {
    F32 { bits: x.to_bits() }
}

fn value(x: F32) -> f32 {
    f32::from_bits(x.bits)
}

fn strings(xs: &[&str]) -> Vec<String> {
    xs.iter().map(|s| s.to_string()).collect()
}

fn doc(text: &str) -> Document {
    let root = Block::new(BlockType::Paragraph, BlockContent::text(text), "test");
    Document::new("Page", root, SpaceId::default())
}

fn analysis() -> SourceAnalysis {
    SourceAnalysis {
        entities: strings(&["Rust"]),
        concepts: strings(&["async programming"]),
        claims: strings(&["c1", "c2"]),
        summary: "Rust supports async.".to_string(),
    }
}

fn source(title: Option<&str>, url: Option<&str>) -> IngestSource {
    IngestSource {
        content: "Rust 是一门语言。".to_string(),
        title: title.map(|s| s.to_string()),
        source_url: url.map(|s| s.to_string()),
    }
}

// ---- Replies ---------------------------------------------------------------

#[test]
fn extract_json_from_code_block() {
    let text = "prefix\n```json\n{\"key\": \"value\"}\n```\nsuffix";
    assert_eq!(extract_json_block(text).as_deref(), Some("{\"key\": \"value\"}"));
}

#[test]
fn extract_json_array() {
    let text = "some text [{\"a\":1}, {\"b\":2}] more text";
    assert!(extract_json_block(text).unwrap().starts_with("["));
}

#[test]
fn extract_json_fallback_to_braces() {
    let text = "result: {\"entities\": []}";
    assert!(extract_json_block(text).unwrap().starts_with("{"));
}

#[test]
fn slugify_generates_url_safe() {
    assert_eq!(slugify("Hello World!"), "hello-world");
    assert_eq!(slugify("Rust Async/await"), "rust-async-await");
}

#[test]
fn names_of_ascii_texts_are_plain() {
    for (text, name) in [
        ("Hello World!", "hello-world"),
        ("--A_b c9--", "a_b-c9"),
        ("///", ""),
        ("", ""),
        ("UPPER@lower", "upper-lower"),
    ] {
        assert_eq!(slugify(text), name);
        assert_eq!(slugify(name), name);
        assert!(name.len() <= text.len());
    }
}

#[test]
fn reply_without_json_is_its_own_payload() {
    assert_eq!(extract_json_block("nothing here"), None);
    assert_eq!(json_payload("nothing here"), "nothing here");
    assert_eq!(json_payload("```json\nopen {"), "{");
    assert_eq!(json_payload("a [1] {2}"), "[1] {2}");
    assert_eq!(slugify("--ÄB_c--"), "äb_c");
}

// ---- Taking in -------------------------------------------------------------

#[test]
fn analysis_prompt_holds_the_source() {
    let p = analyze_prompt(&source(None, None));
    assert!(p.starts_with("你是一个知识库编辑。请分析以下原料，提取关键信息。\n\n## 原料\nRust 是一门语言。\n\n## 任务\n"));
    assert!(p.ends_with("\"summary\": \"原料的 1-2 段中文摘要\"\n}\n```"));
    assert_eq!(
        analysis_payload(None),
        "{\"entities\":[],\"concepts\":[],\"claims\":[],\"summary\":\"\"}"
    );
    assert_eq!(analysis_payload(Some("x {\"a\":1}".to_string())), "{\"a\":1}");
}

#[test]
fn unreadable_analysis_falls_back_to_the_source() {
    let long = IngestSource { content: "字".repeat(300), title: None, source_url: None };
    let a = settle_analysis(None, &long);
    assert_eq!(a.summary.chars().count(), 200);
    assert!(a.entities.is_empty() && a.concepts.is_empty() && a.claims.is_empty());
    assert_eq!(settle_analysis(Some(analysis()), &long), analysis());
}

#[test]
fn at_most_ten_names_are_searched() {
    assert_eq!(search_names(&analysis()), strings(&["Rust", "async programming"]));
    let many = SourceAnalysis {
        entities: (0..8).map(|i| format!("e{i}")).collect(),
        concepts: (0..8).map(|i| format!("c{i}")).collect(),
        claims: vec![],
        summary: String::new(),
    };
    let names = search_names(&many);
    assert_eq!(names.len(), 10);
    assert_eq!(names[9], "c1");
}

#[test]
fn related_pages_are_listed_once() {
    let with_path = |p: &str| TextUnit {
        id: "b".to_string(),
        text: String::new(),
        path: strings(&[p, "deeper"]),
    };
    let bare = TextUnit { id: "b".to_string(), text: String::new(), path: vec![] };
    let mut related = vec![];
    add_related(&mut related, "Rust Lang", &vec![with_path("d1"), bare, with_path("d1")]);
    add_related(&mut related, "other", &vec![with_path("d1"), with_path("d2")]);
    let ids: Vec<&str> = related.iter().map(|r| r.doc_id.as_str()).collect();
    assert_eq!(ids, vec!["d1", "auto-rust-lang", "d2"]);
    assert_eq!(related[2].name, "other");
    let p = plan_prompt(&analysis(), &related);
    assert!(p.contains("- Rust Lang (doc: d1)\n- Rust Lang (doc: auto-rust-lang)\n- other (doc: d2)"));
    assert!(p.contains("## 新原料关键声明\nc1\n- c2\n"));
    assert_eq!(plan_payload(None), "[]");
}

fn plan(action: UpdateAction, doc_id: Option<&str>) -> PageUpdatePlan {
    PageUpdatePlan {
        doc_id: doc_id.map(|s| s.to_string()),
        title: "T".to_string(),
        action,
        content: "new text".to_string(),
        reason: "r".to_string(),
    }
}

#[test]
fn plan_appends_behind_the_last_child() {
    let mut d = doc("root");
    let child = Block::new(BlockType::Paragraph, BlockContent::text("c"), "t");
    let child_id = child.id.clone();
    let root = d.root.clone();
    d.apply(Op::InsertBlock { parent: root.clone(), after: None, block: child }).unwrap();
    let p = plan(UpdateAction::AppendToExisting, Some("d1"));
    assert_eq!(page_to_read(&p), Some(DocId::of("d1")));
    match plan_step(&p, Some(&d)) {
        PlanAction::Append { doc_id, op: Op::InsertBlock { parent, after, block } } => {
            assert_eq!(doc_id, DocId::of("d1"));
            assert_eq!(parent, root);
            assert_eq!(after, Some(child_id));
            assert_eq!(block.content.as_plain_text(), "new text");
            assert_eq!(block.meta.created_by, "ingest");
        }
        _ => panic!("nothing is appended"),
    }
    assert_eq!(plan_step(&p, None), PlanAction::Skip);
    assert_eq!(plan_step(&plan(UpdateAction::AppendToExisting, None), Some(&d)), PlanAction::Skip);
}

#[test]
fn plan_creates_flags_and_counts() {
    let mut outcome = PlanOutcome::new();
    let create = plan_step(&plan(UpdateAction::CreateNew, None), None);
    assert!(matches!(&create, PlanAction::Create { title, .. } if title == "T"));
    outcome.record(create.clone(), None);
    assert!(outcome.created.is_empty());
    outcome.record(create, Some(DocId::of("n1")));
    let flag = plan_step(&plan(UpdateAction::FlagContradiction, Some("d1")), None);
    outcome.record(flag, None);
    let nothing = plan_step(&plan(UpdateAction::FlagContradiction, None), None);
    assert_eq!(nothing, PlanAction::Skip);
    outcome.record(nothing, Some(DocId::of("x")));
    let append = plan_step(&plan(UpdateAction::AppendToExisting, Some("d2")), Some(&doc("r")));
    outcome.record(append, Some(DocId::of("d2")));
    let r = ingest_result(outcome, Some(DocId::of("s")));
    assert_eq!(r.created_docs, vec![DocId::of("n1")]);
    assert_eq!(r.touched_docs, vec![DocId::of("d2")]);
    assert_eq!(r.contradictions.len(), 1);
    assert_eq!(r.contradictions[0].incoming_claim, "new text");
    assert_eq!(r.contradictions[0].severity, ContradictionSeverity::Major);
    assert_eq!(r.contradictions[0].severity.as_str(), "major");
    assert_eq!(r.summary_doc_id, Some(DocId::of("s")));
}

#[test]
fn ingest_creates_summary_doc() {
    let (title, root) = summary_page(
        &source(Some("Rust Async 介绍"), Some("https://example.com")),
        &analysis(),
        &vec![DocId::of("t1")],
        &vec![DocId::of("n1"), DocId::of("n2")],
    );
    assert_eq!(title, "Rust Async 介绍");
    assert_eq!(root.ty, BlockType::Heading);
    assert_eq!(
        root.content.as_plain_text(),
        "# Rust Async 介绍\n\n## 摘要\n\nRust supports async.\n\n## 关联页面\n\n- (新) n1\n- (新) n2\n## 触动页面\n\n- (更新) t1\n\n\n\n> 来源: https://example.com"
    );
    let (auto, _) = summary_page(&source(None, None), &analysis(), &vec![], &vec![]);
    assert_eq!(auto, "Ingest: Rust supports async.");
}

// ---- Answering -------------------------------------------------------------

fn answer() -> QaAnswer {
    QaAnswer { answer: "A".to_string(), citations: strings(&["b1", "b2"]) }
}

fn evaluation(confidence: f32) -> WriteBackEval {
    WriteBackEval {
        has_new_knowledge: true,
        target_page: Some("Page".to_string()),
        content_to_write: Some("text".to_string()),
        confidence: single(confidence),
        reason: "why".to_string(),
    }
}

#[test]
fn ask_returns_answer_with_citations() {
    let result = query_result(&answer());
    assert_eq!(result.answer, "A");
    assert_eq!(result.cited_blocks.len(), 2);
    assert_eq!(result.cited_blocks[1].0, "b2");
    assert_eq!(value(result.cited_blocks[1].1), 1.0);
    assert!(result.write_back.is_none());
}

#[test]
fn never_policy_blocks_write_back() {
    assert!(!needs_evaluation(&WriteBackPolicy::Never));
    assert_eq!(decide(&WriteBackPolicy::Never, &evaluation(1.0)), WriteBackDecision::Nothing);
}

#[test]
fn write_back_policy_default_is_ask_first() {
    let policy = WriteBackPolicy::default();
    assert!(matches!(policy, WriteBackPolicy::AskFirst));
}

#[test]
fn automatic_writes_ask_for_the_threshold() {
    let auto = WriteBackPolicy::Auto { confidence_threshold: single(0.5) };
    assert!(needs_evaluation(&auto));
    assert!(matches!(decide(&auto, &evaluation(0.5)), WriteBackDecision::Write { .. }));
    assert_eq!(decide(&auto, &evaluation(0.49)), WriteBackDecision::Nothing);
    assert_eq!(decide(&auto, &evaluation(f32::NAN)), WriteBackDecision::Nothing);
    let mut no_page = evaluation(1.0);
    no_page.target_page = None;
    assert_eq!(decide(&auto, &no_page), WriteBackDecision::Nothing);
    let mut old_news = evaluation(1.0);
    old_news.has_new_knowledge = false;
    assert_eq!(decide(&auto, &old_news), WriteBackDecision::Nothing);
}

#[test]
fn ask_first_only_proposes() {
    let policy = WriteBackPolicy::AskFirst;
    assert!(matches!(decide(&policy, &evaluation(0.7)), WriteBackDecision::Propose { .. }));
    assert_eq!(decide(&policy, &evaluation(0.69)), WriteBackDecision::Nothing);
}

#[test]
fn evaluation_is_asked_for_and_settled() {
    let p = evaluation_prompt("Q", &answer());
    assert!(p.contains("## 问题\nQ\n\n## 答案\nA\n\n## 引用来源\nb1, b2\n\n## 任务\n"));
    assert!(evaluation_payload(None).contains("eval failed"));
    let e = settle_evaluation(None);
    assert!(!e.has_new_knowledge);
    assert_eq!(e.reason, "parse error");
    assert_eq!(settle_evaluation(Some(evaluation(0.3))), evaluation(0.3));
}

#[test]
fn write_back_appends_or_creates() {
    let hit = TextUnit { id: "b".to_string(), text: String::new(), path: strings(&["d9"]) };
    assert_eq!(target_page("My Page", &vec![hit]), DocId::of("d9"));
    let target = target_page("My Page", &vec![]);
    assert_eq!(target, DocId::of("auto-my-page"));
    let d = doc("root");
    let action = write_back("My Page", "text", Some(&d));
    match &action {
        WriteBackAction::Append { parent, after, block } => {
            assert_eq!(parent, &d.root);
            assert_eq!(after, &None);
            assert_eq!(block.meta.created_by, "query-write-back");
            let record = write_back_result(&action, target.clone(), None, "why");
            assert_eq!(record.target_doc_id, target);
            assert_eq!(record.new_block_id, block.id.0);
            assert_eq!(record.reason, "why");
        }
        _ => panic!("nothing is appended"),
    }
    let action = write_back("My Page", "text", None);
    match &action {
        WriteBackAction::Create { title, root } => {
            assert_eq!(title, "My Page");
            let made = Document::new(title, root.clone(), SpaceId::default());
            let record =
                write_back_result(&action, target.clone(), Some(made.id.clone()), "why");
            assert_eq!(record.target_doc_id, made.id);
            assert_ne!(record.target_doc_id, target);
            assert_eq!(record.new_block_id, made.root.0);
            let proposal = write_back_result(&action, target.clone(), None, "why");
            assert_eq!(proposal.target_doc_id, target);
            assert_eq!(proposal.new_block_id, root.id.0);
        }
        _ => panic!("no page is created"),
    }
}

// ---- Auditing --------------------------------------------------------------

fn broken(from: &str, name: &str) -> WikiLink {
    WikiLink {
        from: BlockId::of(from),
        to: LinkTarget::Broken(name.to_string()),
        anchor_text: name.to_string(),
    }
}

/// An audit of documents in memory with the language model out of reach.
fn audit(docs: &MemDocStore, links: &MemLinkStore, config: &LintConfig) -> LintReport {
    let today = Timestamp { secs: 1_700_000_000, nanos: 0 };
    let since = today.minus_days(config.stale_days_threshold);
    let pages = docs.list(0, config.list_limit);
    let linked: Vec<LinkedPage> = pages
        .iter()
        .map(|id| LinkedPage {
            doc_id: id.clone(),
            backlinks: links.backlinks(&LinkTarget::Doc(id.clone()).key()).len(),
        })
        .collect();
    let found = audit_links(&links.broken_links(), config);
    let mut stale = StaleAudit::new(pages.clone());
    while let Some(id) = stale.next_page() {
        if stale.read(docs.get(&id).as_ref(), config, since, today).is_some() {
            stale.replied(None);
        }
    }
    let (duplicates, mut contradictions) = audit_pairs(&pages, &vec![], config);
    while contradictions.next_pair().is_some() {
        if contradictions.read("", None, None).is_some() {
            contradictions.replied(None);
        }
    }
    lint_report(SpaceId::default(), today, &linked, found, stale, duplicates, contradictions)
}

#[test]
fn lint_lint_empty_space() {
    let report = audit(&MemDocStore::new(), &MemLinkStore::new(), &LintConfig::default());
    assert_eq!(report.total_pages, 0);
    assert!(report.orphan_pages.is_empty());
    assert!(report.broken_links_fixed == 0);
    assert!(report.missing_pages.is_empty());
    assert!(report.duplicate_candidates.is_empty());
}

#[test]
fn lint_lint_detects_orphans() {
    let mut docs = MemDocStore::new();
    let root = Block::new(BlockType::Paragraph, BlockContent::text("orphan"), "test");
    docs.save(&Document::new("Orphan Page", root, SpaceId::default()));
    let report = audit(&docs, &MemLinkStore::new(), &LintConfig::default());
    assert_eq!(report.total_pages, 1);
    assert_eq!(report.orphan_pages.len(), 1);

    let pages = vec![
        LinkedPage { doc_id: DocId::of("a"), backlinks: 0 },
        LinkedPage { doc_id: DocId::of("b"), backlinks: 2 },
    ];
    assert_eq!(orphans(&pages), vec![DocId::of("a")]);
}

#[test]
fn cleared_links_still_name_missing_pages() {
    let mut links = MemLinkStore::new();
    links.upsert_links(&BlockId::of("x"), &vec![broken("x", "Foo"), broken("x", "Bar")]);
    let mut config = LintConfig::default();
    config.auto_fix_broken_links = true;
    let report = audit(&MemDocStore::new(), &links, &config);
    assert_eq!(report.missing_pages, strings(&["Foo", "Bar"]));
    assert_eq!(report.broken_links_fixed, 2);
    let found = audit_links(&links.broken_links(), &config);
    assert_eq!(found.clear, vec![BlockId::of("x"), BlockId::of("x")]);
    assert!(found.create.is_empty());

    config.auto_fix_broken_links = false;
    config.auto_create_missing_pages = true;
    let found = audit_links(&links.broken_links(), &config);
    assert_eq!(found.create, strings(&["Foo", "Bar"]));
    assert!(found.clear.is_empty());
    assert_eq!(found.fixed, 0);
}

#[test]
fn similar_pages_below_duplicates_are_checked() {
    let config = LintConfig::default();
    let ids = vec![DocId::of("a"), DocId::of("b"), DocId::of("c")];
    let likenesses =
        vec![likeness(0, 1, 0.95), likeness(0, 2, 0.9), likeness(1, 2, 0.1)];
    let (duplicates, contradictions) = audit_pairs(&ids, &likenesses, &config);
    assert_eq!(duplicates.len(), 1);
    assert_eq!((&duplicates[0].left, &duplicates[0].right), (&ids[0], &ids[1]));
    let pair = contradictions.next_pair().unwrap();
    assert_eq!((&pair.left, &pair.right), (&ids[0], &ids[2]));
    assert_eq!(contradictions.pairs.len(), 1);

    let mut narrow = LintConfig::default();
    narrow.duplicate_scan_limit = 2;
    assert_eq!(pages_to_compare(&ids, &narrow), ids[..2].to_vec());
    assert_eq!(pages_to_compare(&ids, &config), ids);
}

#[test]
fn broken_links_are_cleared_and_named() {
    let links = vec![broken("x", "Foo"), broken("y", "Bar")];
    assert_eq!(blocks_to_clear(&links), vec![BlockId::of("x"), BlockId::of("y")]);
    assert_eq!(missing_pages(&links), strings(&["Foo", "Bar"]));
    let root = placeholder("Foo");
    assert_eq!(root.content.as_plain_text(), "# Foo\n\n(自动创建的占位页面)");
    assert_eq!(root.meta.created_by, "lint");
}

fn aged(secs: i64) -> Document {
    let mut d = doc("内容");
    d.blocks[0].meta.updated_at = Timestamp { secs, nanos: 0 };
    d
}

#[test]
fn old_pages_are_stale() {
    let config = LintConfig::default();
    let now = Timestamp { secs: 1_700_000_000, nanos: 0 };
    let since = now.minus_days(config.stale_days_threshold);
    assert_eq!(since.secs, 1_700_000_000 - 90 * 86_400);
    assert_eq!(stale_step(&aged(since.secs), &config, since, now, 0), StaleStep::Fresh);
    assert_eq!(
        stale_step(&aged(1_600_000_000), &config, since, now, 0),
        StaleStep::Stale("90 天未更新（最后更新于 2020-09-13）".to_string())
    );
}

#[test]
fn pages_without_blocks_changed_today() {
    let mut config = LintConfig::default();
    let today = Timestamp { secs: 1_700_000_000, nanos: 0 };
    let mut empty = aged(0);
    empty.blocks.clear();
    let since = today.minus_days(config.stale_days_threshold);
    assert_eq!(stale_step(&empty, &config, since, today, 0), StaleStep::Fresh);
    assert_eq!(stale_step(&empty, &config, today, today, 0), StaleStep::Fresh);
    config.stale_days_threshold = -1;
    let since = today.minus_days(config.stale_days_threshold);
    assert_eq!(
        stale_step(&empty, &config, since, today, 0),
        StaleStep::Stale("-1 天未更新（最后更新于 2023-11-14）".to_string())
    );
}

#[test]
fn model_has_a_say_on_old_pages() {
    let mut config = LintConfig::default();
    config.stale_check_llm = true;
    config.stale_check_llm_max_candidates = 1;
    let now = Timestamp { secs: 1_700_000_000, nanos: 0 };
    let since = now.minus_days(90);
    let old = aged(1_600_000_000);
    let reason = match stale_step(&old, &config, since, now, 0) {
        StaleStep::Ask { prompt, reason } => {
            assert!(prompt.starts_with("当前日期: 2023-11-14。"));
            assert!(prompt.contains("## 页面内容\n内容\n"));
            reason
        }
        _ => panic!("the model is not asked"),
    };
    assert_eq!(stale_step(&old, &config, since, now, 1), StaleStep::Unconfirmed);
    assert_eq!(stale_verdict(&reason, None), None);
    assert_eq!(stale_verdict(&reason, Some("no json".to_string())), None);
    assert_eq!(
        stale_verdict(&reason, Some("{\"is_stale\": false, \"reason\": \"ok\"}".to_string())),
        None
    );
    assert_eq!(
        stale_verdict(
            &reason,
            Some("```json\n{\"is_stale\": true, \"reason\": \"旧\"}\n```".to_string())
        ),
        Some(format!("{reason} [LLM: 旧]"))
    );
    assert_eq!(
        stale_verdict(&reason, Some("{\"is_stale\": true}".to_string())),
        Some(reason.clone())
    );
    assert_eq!(stale_verdict(&reason, Some("{}".to_string())), None);
    assert_eq!(stale_verdict(&reason, Some("{\"is_stale\": \"true\"}".to_string())), None);
}

#[test]
fn only_long_texts_are_compared() {
    let d = doc(&"x".repeat(50));
    assert_eq!(text_to_compare(&d, 50), None);
    assert_eq!(text_to_compare(&doc(&"字".repeat(17)), 50), Some("字".repeat(17)));
    let units =
        page_units(&vec![PageText { doc_id: DocId::of("d"), text: "t".to_string() }]);
    assert_eq!(units[0].id, "d");
    assert_eq!(units[0].path, strings(&["d"]));
}

fn likeness(left: usize, right: usize, similarity: f32) -> Likeness {
    Likeness { left, right, similarity: single(similarity) }
}

#[test]
fn duplicates_come_most_similar_first() {
    assert_eq!(all_pairs(3), vec![(0, 1), (0, 2), (1, 2)]);
    let ids = vec![DocId::of("a"), DocId::of("b"), DocId::of("c")];
    let ls = vec![
        likeness(0, 1, 0.93),
        likeness(0, 2, 0.99),
        likeness(1, 2, f32::NAN),
        likeness(1, 2, 0.5),
    ];
    let dup = similar_pairs(&ids, &ls, single(0.92));
    assert_eq!(dup.len(), 2);
    assert_eq!(dup[0].right, DocId::of("c"));
    assert_eq!(dup[1].right, DocId::of("b"));
}

#[test]
fn contradictions_are_sought_among_similar_pages() {
    let mut config = LintConfig::default();
    config.contradiction_max_candidates = 1;
    let ids = vec![DocId::of("a"), DocId::of("b"), DocId::of("c")];
    let ls = vec![likeness(0, 1, 0.95), likeness(0, 2, 0.75), likeness(1, 2, 0.8)];
    let pairs = similar_pairs(&ids, &ls, config.contradiction_min_similarity);
    let checked = contradiction_candidates(&pairs, &config);
    assert_eq!(checked.len(), 1);
    assert_eq!(checked[0].left, DocId::of("b"));
    assert_eq!(value(checked[0].similarity), 0.8);
    let p = contradiction_prompt("0.800", &doc("甲"), &doc("乙"));
    assert!(p.contains("## 文本 A (相似度: 0.800)\n甲\n\n## 文本 B\n乙\n"));
    let (a, b) = (DocId::of("a"), DocId::of("b"));
    assert_eq!(contradiction_verdict(&a, &b, None), None);
    assert_eq!(
        contradiction_verdict(&a, &b, Some("{\"has_contradiction\": true}".to_string())),
        Some("[a ↔ b] (无描述)".to_string())
    );
    assert_eq!(
        contradiction_verdict(
            &a,
            &b,
            Some("{\"has_contradiction\": true, \"description\": \"日期\"}".to_string())
        ),
        Some("[a ↔ b] 日期".to_string())
    );
    assert_eq!(
        contradiction_verdict(&a, &b, Some("{\"has_contradiction\": false}".to_string())),
        None
    );
}

#[test]
fn replies_are_judged_by_what_they_hold() {
    let fresh = parse_json("{\"is_stale\": false, \"reason\": \"x\"}").unwrap();
    let silent = parse_json("{\"reason\": \"x\"}").unwrap();
    let stale = parse_json("{\"is_stale\": true, \"reason\": \"x\"}").unwrap();
    assert_eq!(judge_age("r", Some(&fresh)), None);
    assert_eq!(judge_age("r", Some(&silent)), None);
    assert_eq!(judge_age("r", Some(&stale)), Some("r [LLM: x]".to_string()));
    assert_eq!(judge_age("r", None), None);
    let (a, b) = (DocId::of("a"), DocId::of("b"));
    let yes = parse_json("{\"has_contradiction\": true}").unwrap();
    assert_eq!(judge_contradiction(&a, &b, Some(&yes)), Some("[a ↔ b] (无描述)".to_string()));
    assert_eq!(judge_contradiction(&a, &b, Some(&fresh)), None);
    assert_eq!(explain_age(-1, "2020-01-01"), "-1 天未更新（最后更新于 2020-01-01）");
    assert!(stale_prompt("2020-01-01", "t").starts_with("当前日期: 2020-01-01。"));
    assert!(read_reply(None).is_none());
    assert!(read_reply(Some("x {\"a\": 1}".to_string())).unwrap().get("a").is_some());
}

#[test]
fn names_are_hyphenated() {
    let cs: Vec<char> = "-a b_".chars().collect();
    let letters = vec![false, true, false, true, false];
    assert_eq!(hyphenate(&cs, &letters), "a-b_".chars().collect::<Vec<char>>());
    assert_eq!(slugify("Ünï çödé?!"), "ünï-çödé");
}
