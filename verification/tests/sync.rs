//! What replicated trees are told.

use uwu_wiki::collab::crdt::SyncError;
use uwu_wiki::collab::page_sync;
use uwu_wiki::collab::tree_sync;
use uwu_wiki::ids::{BlockId, DocId};
use uwu_wiki::json::{parse_json, JsonValue};
use uwu_wiki::page;
use uwu_wiki::tree;

fn json(text: &str) -> JsonValue {
    parse_json(text).unwrap()
}

fn para(text: &str) -> tree::block::Block {
    tree::block::Block::new(
        tree::block::BlockType::Paragraph,
        tree::block::BlockContent::text(text),
        "tester",
    )
}

fn insert(
    parent: &BlockId,
    after: Option<&BlockId>,
    block: tree::block::Block,
) -> tree::doc::Op {
    tree::doc::Op::InsertBlock { parent: parent.clone(), after: after.cloned(), block }
}

fn custom_block(data: &str) -> page::block::Block {
    page::block::Block::custom(
        page::block::CustomBlockType::SmartTable,
        JsonValue::object(vec![("text".to_string(), JsonValue::text(data))]),
        &format!("<SmartTable data=\"{data}\"/>"),
        "tester",
    )
}

#[test]
fn translate_covers_block_ops() {
    let root = BlockId::new();
    let child = para("c");
    let ins = insert(&root, None, child.clone());
    let u = tree_sync::translate_op(&ins, &root).unwrap().unwrap();
    assert!(matches!(u, tree_sync::CrdtOp::Insert { .. }));

    let upd = tree::doc::Op::UpdateBlock { id: child.id.clone(), patch: json("{\"x\":1}") };
    assert!(matches!(
        tree_sync::translate_op(&upd, &root).unwrap().unwrap(),
        tree_sync::CrdtOp::Update { .. }
    ));

    let del = tree::doc::Op::DeleteBlock { id: child.id.clone() };
    assert!(matches!(
        tree_sync::translate_op(&del, &root).unwrap().unwrap(),
        tree_sync::CrdtOp::Delete { .. }
    ));
}

#[test]
fn doc_meta_op_is_skipped() {
    let root = BlockId::new();
    let op = tree::doc::Op::UpdateDocMeta {
        doc_id: DocId::of("d"),
        patch: json("{\"title\":\"x\"}"),
    };
    assert!(tree_sync::translate_op(&op, &root).unwrap().is_none());
}

#[test]
fn doc_meta_op_skipped_and_counted() {
    let root = para("root");
    let root_id = root.id.clone();
    let (doc, first) = tree_sync::CollabDoc::new(1, root);
    assert!(matches!(first, tree_sync::CrdtOp::Insert { parent: None, after: None, .. }));
    let ops = vec![
        insert(&root_id, None, para("a")),
        tree::doc::Op::UpdateDocMeta {
            doc_id: DocId::of("d"),
            patch: json("{\"title\":\"X\"}"),
        },
    ];
    let batch = doc.apply_ops(&ops).unwrap();
    assert_eq!(batch.skipped, 1);
    assert_eq!(batch.ops.len(), 1);
}

#[test]
fn children_of_the_root_hang_at_the_top() {
    let root = BlockId::of("root");
    let other = BlockId::of("other");
    let under_root = tree_sync::translate_op(&insert(&root, None, para("a")), &root);
    match under_root.unwrap().unwrap() {
        tree_sync::CrdtOp::Insert { parent, block, id, .. } => {
            assert_eq!(parent, None);
            assert_eq!(id, block.id);
            assert_eq!(block.content.as_plain_text(), "a");
        }
        _ => panic!("not an insertion"),
    }
    let moved = tree::doc::Op::MoveBlock {
        id: BlockId::of("b"),
        new_parent: other.clone(),
        after: Some(BlockId::of("c")),
    };
    assert_eq!(
        tree_sync::translate_op(&moved, &root).unwrap().unwrap(),
        tree_sync::CrdtOp::Move {
            id: BlockId::of("b"),
            new_parent: Some(other),
            after: Some(BlockId::of("c")),
        }
    );
}

#[test]
fn text_and_meta_skipped() {
    assert!(page_sync::translate_op(&page::doc::Op::TextUpdate {
        patch: "d".to_string(),
        base_version: 0,
    })
    .unwrap()
    .is_none());
    assert!(page_sync::translate_op(&page::doc::Op::UpdateMeta { patch: json("{\"t\":\"x\"}") })
        .unwrap()
        .is_none());
}

#[test]
fn block_ops_translate() {
    let b = custom_block("test");
    let bid = b.id().clone();
    assert!(page_sync::translate_op(&page::doc::Op::InsertBlock { after: None, block: b })
        .unwrap()
        .is_some());
    assert!(page_sync::translate_op(&page::doc::Op::BlockUpdate {
        block_id: bid,
        patch: json("{\"x\":1}"),
    })
    .unwrap()
    .is_some());
}

#[test]
fn finalize_produces_markdown() {
    let wiki_doc = page::doc::Document::new(
        "Test",
        page::doc::ContentType::Article,
        "# Hello\n\nWorld.\n",
        page::doc::SpaceId::default(),
        "alice",
    )
    .unwrap();
    let mut collab = page_sync::CollabDoc::new(1);
    let result = collab.finalize(&wiki_doc, "first commit").unwrap();
    assert!(result.new_raw_markdown.contains("title: Test"));
    assert!(result.new_raw_markdown.contains("# Hello"));
    assert_eq!(result.version, 0);
    assert!(result.new_raw_markdown.starts_with(
        "---\ntitle: Test\ncontent_type: article\nstatus: active\nauthor: alice\n---\n\n"
    ));
    assert_eq!(result.commit_message, "first commit");
    assert_eq!(result.author, "alice");
}

#[test]
fn committed_version_refuses_older_deltas() {
    let mut wiki_doc = page::doc::Document::new(
        "Test",
        page::doc::ContentType::Article,
        "x\n",
        page::doc::SpaceId::default(),
        "alice",
    )
    .unwrap();
    wiki_doc.version = 4;
    let mut collab = page_sync::CollabDoc::new(1);
    assert_eq!(collab.committed_version(), 0);
    assert!(collab.apply_delta(&vec![], 0).is_ok());
    collab.finalize(&wiki_doc, "c").unwrap();
    assert_eq!(collab.committed_version(), 4);
    assert_eq!(
        collab.apply_delta(&vec![], 3).unwrap_err(),
        SyncError::VersionConflict { expected: 4, actual: 3 }
    );
    let ops = vec![page::doc::Op::InsertBlock { after: None, block: custom_block("a") }];
    assert_eq!(collab.apply_delta(&ops, 4).unwrap().ops.len(), 1);
}

#[test]
fn sync_errors_say_why() {
    assert_eq!(SyncError::Serialize("x".to_string()).message(), "serialize: x");
    assert_eq!(SyncError::Crdt("x".to_string()).message(), "crdt: x");
    assert_eq!(SyncError::NotTranslatable("x".to_string()).message(), "not translatable: x");
    assert_eq!(
        SyncError::VersionConflict { expected: 12, actual: 3 }.message(),
        "version conflict: expected 12, got 3"
    );
}
