//! Stores in memory.

use uwu_wiki::error::WikiError;
use uwu_wiki::float::F32;
use uwu_wiki::ids::{BlockId, DocId};
use uwu_wiki::json::{parse_json, JsonValue};
use uwu_wiki::memory::{
    rank_texts, rank_vectors, MemBlobStore, MemDocStore, MemLinkStore, MemOpLog, MemTextIndex,
    MemVectorStore, MemVersionStore, VectorRecord,
};
use uwu_wiki::storage::{
    filter_matches, take_best, BlobId, BoolOp, ChangeKind, LinkTarget, MatchMode, TextHit,
    TextQuery, VersionId, WikiLink,
};
use uwu_wiki::tree::block::{Block, BlockContent, BlockType};
use uwu_wiki::tree::doc::{Document, SpaceId};

fn json(text: &str) -> JsonValue {
    parse_json(text).unwrap()
}

fn single(x: f32) -> F32 {
    F32 { bits: x.to_bits() }
}

fn sample_doc() -> Document {
    let root = Block::new(BlockType::Paragraph, BlockContent::text("hello world"), "a");
    Document::new("Doc", root, SpaceId::default())
}

fn query(terms: &[&str], mode: MatchMode) -> TextQuery {
    TextQuery {
        terms: terms.iter().map(|s| s.to_string()).collect(),
        phrase: None,
        filter: None,
        mode,
        bool_op: None,
    }
}

#[test]
fn full_storage_roundtrip() {
    let doc = sample_doc();

    let mut docs = MemDocStore::new();
    docs.save(&doc);
    assert!(docs.get(&doc.id).is_some());

    let mut vectors = MemVectorStore::new();
    vectors.upsert("wiki_blocks", "b1", vec![single(1.0), single(0.0)], json("{}"));
    let found = vectors.candidates("wiki_blocks", &None);
    let hits = rank_vectors(&found, &vec![single(1.0)], 5);
    assert_eq!(hits.len(), 1);

    let mut texts = MemTextIndex::new();
    texts.index_block("b1", "Rust async tokio", json("{}"));
    let scan = texts.scan(&query(&["tokio"], MatchMode::Exact));
    assert_eq!(rank_texts(&scan.candidates, &vec![single(1.0)], 5).len(), 1);

    let mut blobs = MemBlobStore::new();
    let bid = blobs.put(vec![1, 2, 3], "image/png");
    assert_eq!(blobs.gc(), 1);
    blobs.put(vec![4], "text/plain");
    assert!(blobs.get(&bid).is_err());
}

#[test]
fn version_snapshot_and_diff() {
    let mut vs = MemVersionStore::new();
    let mut doc = sample_doc();

    let v1 = vs.snapshot(&doc.id, &doc, Some("v1".to_string()));

    let extra = Block::new(BlockType::Paragraph, BlockContent::text("more"), "a");
    doc.blocks.push(extra);
    let v2 = vs.snapshot(&doc.id, &doc, Some("v2".to_string()));

    assert_eq!(vs.list_versions(&doc.id).len(), 2);

    let diff = vs.diff(&doc.id, &v1, &v2).unwrap();
    assert_eq!(diff.changes.len(), 1);
    assert_eq!(diff.changes[0].kind, ChangeKind::Added);

    vs.restore(&doc.id, &v1).unwrap();
    assert_eq!(vs.list_versions(&doc.id).len(), 3);
}

#[test]
fn versions_can_be_read_back() {
    let mut vs = MemVersionStore::new();
    let doc = sample_doc();
    let v = vs.snapshot(&doc.id, &doc, None);
    assert_eq!(v.0.as_bytes()[14], b'4');
    assert_eq!(vs.get_version(&doc.id, &v).unwrap(), doc);
    assert_eq!(
        vs.get_version(&doc.id, &VersionId("nope".to_string())).unwrap_err(),
        WikiError::NotFound("version nope".to_string())
    );
    assert!(vs.diff(&doc.id, &v, &v).unwrap().changes.is_empty());
    vs.restore(&doc.id, &v).unwrap();
    let entries = vs.list_versions(&doc.id);
    assert_eq!(entries[1].label, Some(format!("restore of {}", v.0)));
    assert_eq!(entries[1].author, "system");
    assert!(vs.restore(&doc.id, &VersionId("nope".to_string())).is_err());
}

#[test]
fn diff_lists_what_came_and_what_went() {
    let mut vs = MemVersionStore::new();
    let a = sample_doc();
    let mut b = a.clone();
    b.blocks = vec![Block::new(BlockType::Quote, BlockContent::text("q"), "a")];
    let va = vs.snapshot(&a.id, &a, None);
    let vb = vs.snapshot(&a.id, &b, None);
    let kinds: Vec<ChangeKind> =
        vs.diff(&a.id, &va, &vb).unwrap().changes.iter().map(|c| c.kind).collect();
    assert_eq!(kinds, vec![ChangeKind::Added, ChangeKind::Removed]);
}

#[test]
fn documents_are_saved_listed_and_deleted() {
    let mut docs = MemDocStore::new();
    let all: Vec<Document> = (0..3).map(|_| sample_doc()).collect();
    for d in &all {
        docs.save(d);
    }
    docs.save(&all[0]);
    assert_eq!(docs.list(0, 10).len(), 3);
    assert_eq!(docs.list(1, 1), vec![all[1].id.clone()]);
    assert!(docs.list(3, 5).is_empty());
    assert!(docs.list(9, 5).is_empty());
    docs.delete(&all[1].id);
    assert!(docs.get(&all[1].id).is_none());
    assert_eq!(docs.get(&all[2].id).unwrap(), all[2]);
}

#[test]
fn log_replays_from_a_number_on() {
    let mut log = MemOpLog::new();
    let id = DocId::of("d");
    assert_eq!(log.append(&id, vec![json("1"), json("2")]), 2);
    assert_eq!(log.append(&id, vec![json("3")]), 3);
    let tail = log.replay(&id, 2);
    assert_eq!(tail.len(), 1);
    assert_eq!(tail[0].as_u64(), Some(3));
    assert!(log.replay(&id, 3).is_empty());
    assert!(log.replay(&id, u64::MAX).is_empty());
    assert!(log.replay(&DocId::of("other"), 0).is_empty());
}

#[test]
fn vectors_are_set_filtered_and_deleted() {
    let mut vs = MemVectorStore::new();
    vs.batch_upsert(
        "c",
        &vec![
            ("a".to_string(), VectorRecord { vector: vec![], metadata: json("{\"k\": 1}") }),
            ("b".to_string(), VectorRecord { vector: vec![], metadata: json("{\"k\": 2}") }),
        ],
    );
    let found = vs.candidates("c", &Some(json("{\"k\": 2}")));
    assert_eq!(found.len(), 1);
    assert_eq!(found[0].0, "b");
    vs.delete("c", "b");
    assert!(vs.candidates("c", &Some(json("{\"k\": 2}"))).is_empty());
    assert_eq!(vs.candidates("c", &None).len(), 1);
    vs.delete("none", "b");
    assert!(vs.candidates("none", &None).is_empty());
}

fn ids(index: &MemTextIndex, q: &TextQuery) -> Vec<String> {
    index.scan(q).candidates.iter().map(|c| c.block_id.clone()).collect()
}

#[test]
fn every_match_mode_selects() {
    let mut index = MemTextIndex::new();
    index.index_block("a", "Rust async runtime", json("{\"s\": \"x\"}"));
    index.index_block("b", "Python runtimes", json("{\"s\": \"y\"}"));
    assert_eq!(ids(&index, &query(&["RUST", "run"], MatchMode::Exact)), vec!["a"]);
    assert_eq!(ids(&index, &query(&["run"], MatchMode::Prefix)), vec!["a", "b"]);
    assert!(ids(&index, &query(&["untime"], MatchMode::Prefix)).is_empty());
    assert_eq!(ids(&index, &query(&["ython", "zzz"], MatchMode::Fuzzy)), vec!["b"]);
    let mut q = query(&[], MatchMode::Phrase);
    assert!(ids(&index, &q).is_empty());
    q.phrase = Some("Async Run".to_string());
    assert_eq!(ids(&index, &q), vec!["a"]);
    let mut q = query(&["rust", "python"], MatchMode::Boolean);
    assert!(ids(&index, &q).is_empty());
    q.bool_op = Some(BoolOp::Or);
    assert_eq!(ids(&index, &q), vec!["a", "b"]);
    q.bool_op = Some(BoolOp::Not);
    assert!(ids(&index, &q).is_empty());
    let mut q = query(&[], MatchMode::Exact);
    q.filter = Some(json("{\"s\": \"y\"}"));
    assert_eq!(ids(&index, &q), vec!["b"]);
    index.remove("b");
    assert!(ids(&index, &q).is_empty());
}

#[test]
fn scan_counts_what_scores_need() {
    let mut index = MemTextIndex::new();
    index.index_block("a", "ab ab AB x", json("{}"));
    index.index_block("b", "x y", json("{}"));
    let scan = index.scan(&query(&["ab", "X"], MatchMode::Fuzzy));
    assert_eq!(scan.total, 2);
    assert_eq!(scan.doc_frequencies, vec![1, 2]);
    assert_eq!(scan.candidates[0].words, 4);
    assert_eq!(scan.candidates[0].frequencies, vec![3, 1]);
    assert_eq!(scan.candidates[1].frequencies, vec![0, 1]);
    assert_eq!(scan.candidates[0].snippet, "ab ab ab x");
    index.index_block("long", &"Z".repeat(100), json("{}"));
    let scan = index.scan(&query(&["z"], MatchMode::Exact));
    assert_eq!(scan.candidates[0].snippet, "z".repeat(80));
}

#[test]
fn links_are_found_from_their_target() {
    let mut links = MemLinkStore::new();
    let from = BlockId::of("b1");
    let to_doc = WikiLink {
        from: from.clone(),
        to: LinkTarget::Doc(DocId::of("d")),
        anchor_text: "d".to_string(),
    };
    let to_block = WikiLink {
        from: from.clone(),
        to: LinkTarget::Block(DocId::of("d"), BlockId::of("x")),
        anchor_text: "x".to_string(),
    };
    let lost = WikiLink {
        from: from.clone(),
        to: LinkTarget::Broken("Lost".to_string()),
        anchor_text: "Lost".to_string(),
    };
    links.upsert_links(&from, &vec![to_doc.clone(), to_block.clone(), lost.clone()]);
    assert_eq!(links.backlinks("d"), vec![to_doc]);
    assert_eq!(links.backlinks("d#x"), vec![to_block]);
    assert_eq!(links.broken_links(), vec![lost]);
    links.upsert_links(&from, &vec![]);
    assert!(links.broken_links().is_empty());
}

#[test]
fn blobs_are_counted_and_collected() {
    let mut blobs = MemBlobStore::new();
    let kept = blobs.put(vec![1, 2], "image/png");
    let dropped = blobs.put(vec![3], "text/plain");
    assert_eq!(blobs.ref_delta(&kept, 2).unwrap(), 2);
    assert_eq!(blobs.ref_delta(&kept, -1).unwrap(), 1);
    assert_eq!(blobs.ref_delta(&dropped, -5).unwrap(), 0);
    assert_eq!(blobs.gc(), 1);
    assert_eq!(blobs.get(&kept).unwrap(), (vec![1, 2], "image/png".to_string()));
    assert_eq!(
        blobs.get(&dropped).unwrap_err(),
        WikiError::NotFound(format!("blob {}", dropped.0))
    );
    assert!(blobs.ref_delta(&BlobId("nope".to_string()), 1).is_err());
}

#[test]
fn filters_compare_members() {
    assert!(filter_matches(&json("{\"a\": 1}"), &json("{\"a\": 1, \"b\": 2}")));
    assert!(!filter_matches(&json("{\"a\": 1, \"c\": 3}"), &json("{\"a\": 1}")));
    assert!(!filter_matches(&json("{\"a\": 1}"), &json("{\"a\": 2}")));
    assert!(filter_matches(&json("{}"), &json("{\"a\": 2}")));
    assert!(filter_matches(&json("7"), &json("7")));
    assert!(!filter_matches(&json("{\"a\": 1}"), &json("[1]")));
}

#[test]
fn best_hits_come_first_and_ties_keep_their_order() {
    let hit = |id: &str, s: f32| TextHit {
        block_id: id.to_string(),
        snippet: String::new(),
        score: single(s),
    };
    let best =
        take_best(vec![hit("a", -1.0), hit("b", 2.0), hit("c", 0.0), hit("d", -0.0), hit("e", 2.0)], 4);
    let ids: Vec<&str> = best.iter().map(|h| h.block_id.as_str()).collect();
    assert_eq!(ids, vec!["b", "e", "c", "d"]);
}
