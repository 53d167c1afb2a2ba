//! Documents as trees of blocks.

use uwu_wiki::error::WikiError;
use uwu_wiki::float::F32;
use uwu_wiki::ids::{BlockId, DocId};
use uwu_wiki::json::{parse_json, JsonValue};
use uwu_wiki::time::Timestamp;
use uwu_wiki::tree::block::{Block, BlockContent, BlockType};
use uwu_wiki::tree::doc::{Document, Op, SpaceId};
use uwu_wiki::tree::history::History;
use uwu_wiki::tree::space::{apply_ops, apply_ops_at, reindex_block, unknown_doc};

fn json(text: &str) -> JsonValue {
    parse_json(text).unwrap()
}

fn single(x: f32) -> F32 {
    F32 { bits: x.to_bits() }
}

fn para(text: &str) -> Block {
    Block::new(BlockType::Paragraph, BlockContent::text(text), "tester")
}

fn doc_with_root() -> (Document, BlockId) {
    let root = para("root");
    let root_id = root.id.clone();
    (Document::new("T", root, SpaceId::default()), root_id)
}

fn insert(parent: &BlockId, after: Option<&BlockId>, block: Block) -> Op {
    Op::InsertBlock { parent: parent.clone(), after: after.cloned(), block }
}

#[test]
fn insert_block_appends_child() {
    let (mut doc, root) = doc_with_root();
    let child = para("c1");
    let cid = child.id.clone();
    doc.apply(Op::InsertBlock { parent: root.clone(), after: None, block: child }).unwrap();
    assert_eq!(doc.children(&root).len(), 1);
    assert_eq!(doc.block(&cid).unwrap().parent, Some(root));
}

#[test]
fn insert_after_orders_siblings() {
    let (mut doc, root) = doc_with_root();
    let a = para("a");
    let b = para("b");
    let (aid, bid) = (a.id.clone(), b.id.clone());
    doc.apply(Op::InsertBlock { parent: root.clone(), after: None, block: a }).unwrap();
    doc.apply(Op::InsertBlock { parent: root.clone(), after: Some(aid.clone()), block: b })
        .unwrap();
    let order: Vec<_> = doc.children(&root).iter().map(|b| b.id.clone()).collect();
    assert_eq!(order, vec![aid, bid]);
}

#[test]
fn update_block_merges_content_and_bumps_version() {
    let (mut doc, root) = doc_with_root();
    let v0 = doc.block(&root).unwrap().version;
    doc.apply(Op::UpdateBlock { id: root.clone(), patch: json("{\"bold\": true}") }).unwrap();
    let b = doc.block(&root).unwrap();
    assert_eq!(b.content.0.get_str("text").unwrap(), "root");
    assert_eq!(b.content.0.get("bold").unwrap().as_bool(), Some(true));
    assert_eq!(b.version, v0 + 1);
}

#[test]
fn delete_removes_whole_subtree() {
    let (mut doc, root) = doc_with_root();
    let parent = para("p");
    let pid = parent.id.clone();
    let child = para("c");
    let cid = child.id.clone();
    doc.apply(Op::InsertBlock { parent: root.clone(), after: None, block: parent }).unwrap();
    doc.apply(Op::InsertBlock { parent: pid.clone(), after: None, block: child }).unwrap();
    doc.apply(Op::DeleteBlock { id: pid.clone() }).unwrap();
    assert!(doc.block(&pid).is_none());
    assert!(doc.block(&cid).is_none(), "a child goes with its parent");
    assert!(doc.children(&root).is_empty());
}

#[test]
fn cannot_delete_root() {
    let (mut doc, root) = doc_with_root();
    assert!(doc.apply(Op::DeleteBlock { id: root }).is_err());
}

#[test]
fn move_block_reparents() {
    let (mut doc, root) = doc_with_root();
    let p1 = para("p1");
    let p2 = para("p2");
    let (p1id, p2id) = (p1.id.clone(), p2.id.clone());
    let c = para("c");
    let cid = c.id.clone();
    doc.apply(Op::InsertBlock { parent: root.clone(), after: None, block: p1 }).unwrap();
    doc.apply(Op::InsertBlock { parent: root.clone(), after: None, block: p2 }).unwrap();
    doc.apply(Op::InsertBlock { parent: p1id.clone(), after: None, block: c }).unwrap();

    doc.apply(Op::MoveBlock { id: cid.clone(), new_parent: p2id.clone(), after: None }).unwrap();
    assert!(doc.children(&p1id).is_empty());
    assert_eq!(doc.children(&p2id)[0].id, cid);
    assert_eq!(doc.block(&cid).unwrap().parent, Some(p2id));
}

#[test]
fn move_into_own_subtree_rejected() {
    let (mut doc, root) = doc_with_root();
    let p = para("p");
    let pid = p.id.clone();
    let c = para("c");
    let cid = c.id.clone();
    doc.apply(Op::InsertBlock { parent: root, after: None, block: p }).unwrap();
    doc.apply(Op::InsertBlock { parent: pid.clone(), after: None, block: c }).unwrap();
    assert!(doc.apply(Op::MoveBlock { id: pid, new_parent: cid, after: None }).is_err());
}

#[test]
fn update_doc_meta() {
    let (mut doc, _) = doc_with_root();
    doc.apply(Op::UpdateDocMeta {
        doc_id: doc.id.clone(),
        patch: json("{\"title\": \"New\", \"tags\": [\"a\", \"b\"]}"),
    })
    .unwrap();
    assert_eq!(doc.title, "New");
    assert_eq!(doc.tags, vec!["a".to_string(), "b".to_string()]);
}

#[test]
fn descendants_preorder() {
    let (mut doc, root) = doc_with_root();
    let a = para("a");
    let aid = a.id.clone();
    let b = para("b");
    let bid = b.id.clone();
    doc.apply(Op::InsertBlock { parent: root.clone(), after: None, block: a }).unwrap();
    doc.apply(Op::InsertBlock { parent: aid.clone(), after: None, block: b }).unwrap();
    assert_eq!(doc.descendants(&root), vec![root, aid, bid]);
}

#[test]
fn block_version_and_staleness() {
    let mut b = Block::new(BlockType::Paragraph, BlockContent::text("hello"), "agent-1");
    assert!(!b.is_embedding_stale());

    b.embedding = Some(vec![single(0.1), single(0.2)]);
    b.embedding_version = b.version;
    assert!(!b.is_embedding_stale());

    b.bump_version();
    assert!(b.is_embedding_stale(), "a changed content makes the embedding stale");
}

#[test]
fn document_block_lookup() {
    let root = Block::new(BlockType::Paragraph, BlockContent::text("root"), "a");
    let root_id = root.id.clone();
    let doc = Document::new("Test", root, SpaceId::default());
    assert!(doc.block(&root_id).is_some());
    assert_eq!(doc.root, root_id);
}

#[test]
fn new_block_has_a_time_ordered_identity() {
    let b = para("x");
    let id = b.id.0.clone();
    assert_eq!(id.len(), 36);
    assert_eq!(id.as_bytes()[14], b'7');
    assert_ne!(para("x").id, b.id);
}

#[test]
fn refused_operations_say_why() {
    let (mut doc, root) = doc_with_root();
    let v = doc.version;
    let unknown = BlockId::of("nope");
    assert_eq!(
        doc.apply(insert(&unknown, None, para("x"))).unwrap_err().message(),
        "not found: parent block nope"
    );
    assert_eq!(
        doc.apply(Op::UpdateBlock { id: unknown.clone(), patch: json("{}") })
            .unwrap_err()
            .message(),
        "not found: block nope"
    );
    assert_eq!(
        doc.apply(Op::DeleteBlock { id: root }).unwrap_err().message(),
        "invalid: cannot delete root block"
    );
    assert_eq!(doc.version, v);
}

#[test]
fn batch_is_all_or_nothing() {
    let (doc, root) = doc_with_root();
    let ops = vec![
        insert(&root, None, para("a")),
        Op::UpdateBlock { id: BlockId::of("nope"), patch: json("{}") },
    ];
    assert!(apply_ops(&doc, &ops).unwrap().is_err());
    assert_eq!(doc.blocks.len(), 1);
    assert_eq!(doc.version, 0);
}

#[test]
fn wal_rollback_on_invalid_op() {
    let (doc, root) = doc_with_root();
    let initial_block_count = doc.blocks.len();
    let ops = vec![
        insert(&root, None, para("valid child")),
        Op::UpdateBlock { id: BlockId::new(), patch: json("{\"text\": \"should fail\"}") },
    ];
    let result = apply_ops(&doc, &ops).unwrap();
    assert!(result.is_err(), "a batch with an invalid operation is refused");
    assert_eq!(doc.blocks.len(), initial_block_count);
    assert_eq!(doc.version, 0);
}

#[test]
fn wal_commit_valid_batch() {
    let (doc, root) = doc_with_root();
    let child = para("child");
    let child_id = child.id.clone();
    let result = apply_ops(&doc, &vec![insert(&root, None, child)]).unwrap();
    let updated = result.unwrap().doc;
    assert!(updated.block(&child_id).is_some());
    assert!(updated.version > doc.version);
}

#[test]
fn batch_lists_what_leaves_and_enters_the_index() {
    let (mut doc, root) = doc_with_root();
    let old = para("old");
    let old_id = old.id.clone();
    doc.apply(insert(&root, None, old)).unwrap();
    let new = para("new");
    let new_id = new.id.clone();
    let times = vec![Timestamp { secs: 5, nanos: 0 }, Timestamp { secs: 6, nanos: 0 }];
    let ops = vec![insert(&root, None, new), Op::DeleteBlock { id: old_id.clone() }];
    let batch = apply_ops_at(&doc, &ops, &times).unwrap().unwrap();
    assert_eq!(batch.removed, vec![old_id]);
    assert_eq!(batch.touched, vec![new_id.clone()]);
    let (text, meta) = reindex_block(&batch.doc, &new_id).unwrap();
    assert_eq!(text, "new");
    assert_eq!(meta.get_str("doc"), Some(doc.id.as_str()));
}

#[test]
fn undo_redo_roundtrip() {
    let (doc, root) = doc_with_root();
    let original_version = doc.version;
    let mut history = History::new();

    let child = para("added child");
    let child_id = child.id.clone();
    let updated = apply_ops(&doc, &vec![insert(&root, None, child)]).unwrap().unwrap().doc;
    history.note(doc);
    assert!(updated.block(&child_id).is_some());
    assert!(updated.version > original_version);

    let undone = history.undo(updated).unwrap();
    assert!(undone.block(&child_id).is_none());
    assert_eq!(undone.version, original_version);

    let redone = history.redo(undone).unwrap();
    assert!(redone.block(&child_id).is_some());
    assert!(redone.version > original_version);

    let undone2 = history.undo(redone).unwrap();
    assert!(undone2.block(&child_id).is_none());
    assert!(history.undo(undone2).is_none());
}

#[test]
fn change_forgets_what_was_undone() {
    let (doc, _) = doc_with_root();
    let mut history = History::new();
    history.note(doc.clone());
    let back = history.undo(doc.clone()).unwrap();
    history.note(back.clone());
    assert!(history.redo(back).is_none());
}

#[test]
fn every_inserted_block_hangs_in_the_tree() {
    let (mut doc, root) = doc_with_root();
    for i in 0..10 {
        doc.apply(insert(&root, None, para(&format!("concurrent-{i}")))).unwrap();
    }
    for block in &doc.blocks {
        if let Some(parent) = &block.parent {
            assert!(doc.block(parent).is_some());
        }
    }
    assert_eq!(doc.walk(&root).len(), 11);
    assert_eq!(doc.version, 10);
}

#[test]
fn last_change_is_the_latest_of_the_blocks() {
    let (mut doc, root) = doc_with_root();
    doc.apply_at(
        Op::UpdateBlock { id: root.clone(), patch: json("{}") },
        Timestamp { secs: 4_000_000_000, nanos: 7 },
    )
    .unwrap();
    doc.apply(insert(&root, None, para("x"))).unwrap();
    assert_eq!(doc.updated_at(), Timestamp { secs: 4_000_000_000, nanos: 7 });
    assert_eq!(doc.last_child(&root), Some(doc.blocks[1].id.clone()));
}

#[test]
fn unknown_document_is_not_found() {
    let e = unknown_doc(&DocId::of("d1"));
    assert_eq!(e, WikiError::NotFound("doc d1".to_string()));
}

#[test]
fn block_is_changed_in_its_place() {
    let (mut doc, root) = doc_with_root();
    doc.block_mut(&root).unwrap().version = 7;
    assert_eq!(doc.block(&root).unwrap().version, 7);
    assert!(doc.block_mut(&BlockId::of("no")).is_none());
}
