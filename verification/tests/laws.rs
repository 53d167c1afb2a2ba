//! Promises that span several calls, on concrete values.

use uwu_wiki::collab::page_sync::CollabDoc;
use uwu_wiki::config::LintConfig;
use uwu_wiki::float::F32;
use uwu_wiki::graph::model::{Edge, Graph, GraphNode, NodeId, NodeKind};
use uwu_wiki::graph::store::GraphStore;
use uwu_wiki::ids::{BlockId, DocId};
use uwu_wiki::json::JsonValue;
use uwu_wiki::llm::rag::{extract_citations, strip_citation_line};
use uwu_wiki::page::block::{Block as PageBlock, CustomBlockType};
use uwu_wiki::page::doc::{
    frontmatter_body, frontmatter_yaml, ContentType, Document as Page, Op as PageOp,
    SpaceId as PageSpaceId,
};
use uwu_wiki::page::reach::{is_grounded, is_rooted};
use uwu_wiki::page::space::WikiSpace;
use uwu_wiki::time::Timestamp;
use uwu_wiki::tree::block::{Block, BlockContent, BlockType};
use uwu_wiki::tree::doc::{Document, Op, SpaceId};
use uwu_wiki::tree::space::apply_ops;
use uwu_wiki::workflow::lint::{all_pairs, ContradictionAudit, PagePair, StaleAudit};

fn para(text: &str) -> Block {
    Block::new(BlockType::Paragraph, BlockContent::text(text), "tester")
}

fn node(id: &str) -> NodeId {
    NodeId(id.to_string())
}

/// A diamond whose upper nodes come last, with a node that nothing leads to.
fn diamond() -> Graph {
    let mut g = Graph::new("g");
    for id in ["d", "c", "b", "a", "z"] {
        g.add_node(GraphNode::new(id, NodeKind::Process, id)).unwrap();
    }
    for (from, to) in [("a", "b"), ("a", "c"), ("b", "d"), ("c", "d")] {
        g.add_edge(Edge::new(node(from), node(to))).unwrap();
    }
    g
}

#[test]
fn layers_hold_every_node_below_its_sources() {
    let g = diamond();
    assert_eq!(g.topological_sort().unwrap().len(), 5);
    let slots = g.layered_slots();
    assert_eq!(slots.len(), 5);
    let layer = |id: &str| slots.iter().find(|s| s.id == node(id)).unwrap().layer;
    assert_eq!((layer("a"), layer("b"), layer("c"), layer("d"), layer("z")), (1, 2, 2, 3, 1));
}

#[test]
fn tree_layout_places_what_edges_lead_to_once() {
    let mut g = diamond();
    g.add_edge(Edge::new(node("d"), node("a"))).unwrap();
    let mut ids: Vec<String> = g.tree_slots(&node("b")).into_iter().map(|s| s.id.0).collect();
    ids.sort();
    assert_eq!(ids, vec!["a", "b", "c", "d"]);
    let alone: Vec<String> = g.tree_slots(&node("z")).into_iter().map(|s| s.id.0).collect();
    assert_eq!(alone, vec!["z"]);
}

#[test]
fn stripped_answer_cites_nothing() {
    let answer = "A\n引用: [b1, b2]\nB\n引用: [b3]";
    assert_eq!(extract_citations(answer), vec!["b3"]);
    let stripped = strip_citation_line(answer);
    assert!(stripped.contains('A') && stripped.contains('B'));
    assert!(extract_citations(&stripped).is_empty());
}

#[test]
fn pairs_are_listed_once_each() {
    assert!(all_pairs(0).is_empty());
    assert!(all_pairs(1).is_empty());
    assert_eq!(all_pairs(4), vec![(0, 1), (0, 2), (0, 3), (1, 2), (1, 3), (2, 3)]);
}

#[test]
fn stale_pages_are_sought_with_few_questions() {
    let mut config = LintConfig::default();
    config.stale_check_llm = true;
    config.stale_check_llm_max_candidates = 2;
    let today = Timestamp { secs: 1_700_000_000, nanos: 0 };
    let since = today.minus_days(90);
    let page = |secs: i64| {
        let mut d = Document::new("Page", para("text"), SpaceId::default());
        d.blocks[0].meta.updated_at = Timestamp { secs, nanos: 0 };
        d
    };
    let old = page(1_600_000_000);
    let new = page(1_699_999_999);

    let ids: Vec<DocId> = ["a", "b", "c", "d", "e"].iter().map(|s| DocId::of(s)).collect();
    let mut audit = StaleAudit::new(ids);
    assert_eq!(audit.next_page(), Some(DocId::of("a")));
    assert!(audit.read(Some(&old), &config, since, today).is_some());
    audit.replied(Some("{\"is_stale\": false}".to_string()));
    assert!(audit.read(None, &config, since, today).is_none());
    assert!(audit.read(Some(&new), &config, since, today).is_none());
    assert_eq!(audit.next_page(), Some(DocId::of("d")));
    assert!(audit.read(Some(&old), &config, since, today).is_some());
    audit.replied(Some("{\"is_stale\": true}".to_string()));
    assert!(audit.read(Some(&old), &config, since, today).is_none());
    assert_eq!(audit.next_page(), None);
    assert_eq!(audit.asked, 2);
    let found: Vec<String> = audit.found.iter().map(|p| p.doc_id.0.clone()).collect();
    assert_eq!(found, vec!["d"]);

    let mut audit = StaleAudit::new(vec![DocId::of("a"), DocId::of("b")]);
    assert!(audit.read(Some(&old), &config, since, today).is_some());
    audit.replied(None);
    assert!(audit.read(Some(&old), &config, since, today).is_some());
    audit.replied(Some("{}".to_string()));
    assert!(audit.found.is_empty());

    config.stale_check_llm = false;
    let mut audit = StaleAudit::new(vec![DocId::of("a"), DocId::of("b")]);
    assert!(audit.read(Some(&old), &config, since, today).is_none());
    assert!(audit.read(Some(&new), &config, since, today).is_none());
    assert_eq!(audit.found.len(), 1);
    assert_eq!(audit.found[0].doc_id, DocId::of("a"));
}

#[test]
fn breadth_first_walks_go_by_distance() {
    let mut g = Graph::new("g");
    for id in ["far", "near", "next", "start", "also"] {
        g.add_node(GraphNode::new(id, NodeKind::Process, id)).unwrap();
    }
    for (from, to) in
        [("start", "near"), ("near", "next"), ("next", "far"), ("start", "also"), ("also", "far")]
    {
        g.add_edge(Edge::new(node(from), node(to))).unwrap();
    }
    let ids: Vec<String> = g.bfs(&node("start")).iter().map(|n| n.id.0.clone()).collect();
    assert_eq!(ids, vec!["start", "near", "also", "next", "far"]);
}

#[test]
fn closed_paths_have_no_order() {
    let mut g = diamond();
    assert!(g.topological_sort().is_ok());
    g.add_edge(Edge::new(node("d"), node("a"))).unwrap();
    assert!(g.topological_sort().is_err());
    let mut own = Graph::new("own");
    own.add_node(GraphNode::new("a", NodeKind::Process, "a")).unwrap();
    own.add_edge(Edge::new(node("a"), node("a"))).unwrap();
    assert!(own.topological_sort().is_err());
}

#[test]
fn indexes_of_a_store_follow_its_graphs() {
    let tagged = |id: &str, kind: NodeKind, tags: &[&str]| {
        let mut n = GraphNode::new(id, kind, id);
        n.tags = tags.iter().map(|t| t.to_string()).collect();
        n
    };
    let by_tag = |s: &GraphStore, tag: &str| -> Vec<String> {
        s.by_tag(tag).iter().map(|n| n.id.0.clone()).collect()
    };
    let by_type = |s: &GraphStore, kind: &NodeKind| -> Vec<String> {
        s.by_type(kind).iter().map(|n| n.id.0.clone()).collect()
    };
    let mut g = Graph::new("g");
    g.add_node(tagged("a", NodeKind::Idea, &["x", "y", "x"])).unwrap();
    g.add_node(tagged("b", NodeKind::Note, &["y"])).unwrap();
    let mut s = GraphStore::new();
    s.create(g).unwrap();
    s.create(Graph::new("h")).unwrap();
    s.add_node("h", tagged("c", NodeKind::Note, &["x"])).unwrap();
    assert_eq!(by_tag(&s, "x"), vec!["a", "c"]);
    assert_eq!(by_tag(&s, "y"), vec!["a", "b"]);
    assert_eq!(by_type(&s, &NodeKind::Note), vec!["b", "c"]);
    assert!(by_tag(&s, "z").is_empty());
    assert!(s.find_node(&node("c")).is_some());

    s.remove_node("g", &node("a")).unwrap();
    assert_eq!(by_tag(&s, "x"), vec!["c"]);
    assert!(by_type(&s, &NodeKind::Idea).is_empty());
    assert!(s.find_node(&node("a")).is_none());

    assert!(s.delete("h"));
    assert!(!s.delete("h"));
    assert!(by_tag(&s, "x").is_empty());
    assert_eq!(by_type(&s, &NodeKind::Note), vec!["b"]);
    assert!(s.find_node(&node("c")).is_none());
    assert!(s.find_node(&node("b")).is_some());
}

#[test]
fn documents_with_a_cycle_are_told_apart() {
    let mut doc = Document::new("T", para("root"), SpaceId::default());
    let root = doc.root.clone();
    assert!(doc.is_grounded(&root));
    let delete = Op::DeleteBlock { id: BlockId::of("x") };
    assert!(doc.fits(&delete));
    let mut x = para("x");
    x.id = BlockId::of("x");
    x.children = vec![BlockId::of("x")];
    doc.blocks.push(x);
    assert!(doc.is_grounded(&root));
    assert!(!doc.is_grounded(&BlockId::of("x")));
    assert!(!doc.fits(&delete));
    assert!(apply_ops(&doc, &vec![delete]).is_none());
    doc.version = u64::MAX;
    assert!(!doc.fits(&Op::UpdateBlock { id: root, patch: JsonValue::Null }));
}

fn custom(id: &str, parent: Option<&str>) -> PageBlock {
    let mut b = PageBlock::custom(CustomBlockType::Mindmap, JsonValue::Null, "", "tester");
    if let PageBlock::Custom(c) = &mut b {
        c.id = BlockId::of(id);
        c.parent = parent.map(BlockId::of);
    }
    b
}

#[test]
fn pages_with_a_cycle_stay_as_they_are() {
    let space = WikiSpace::new(PageSpaceId::new("lib", "wiki"));
    let mut page =
        Page::new("T", ContentType::Article, "text\n", PageSpaceId::default(), "a").unwrap();
    let good = vec![
        PageOp::InsertBlock { after: None, block: custom("p", None) },
        PageOp::InsertBlock { after: None, block: custom("q", Some("p")) },
        PageOp::MoveBlock {
            id: BlockId::of("q"),
            new_parent: BlockId::of("p"),
            after: None,
        },
    ];
    assert_eq!(space.try_apply_ops(&mut page, &good), Some(Ok(())));
    assert_eq!(page.version, 3);
    assert!(is_rooted(&page.blocks, &BlockId::of("p")));
    assert!(is_grounded(&page.blocks, &BlockId::of("p")));

    let before = page.clone();
    let bad = vec![
        PageOp::InsertBlock { after: None, block: custom("r", Some("r")) },
        PageOp::MoveBlock {
            id: BlockId::of("r"),
            new_parent: BlockId::of("p"),
            after: None,
        },
    ];
    assert!(space.try_apply_ops(&mut page, &bad).is_none());
    assert_eq!(page, before);

    let refused = vec![
        PageOp::UpdateMeta { patch: JsonValue::Null },
        PageOp::MoveBlock {
            id: BlockId::of("p"),
            new_parent: BlockId::of("q"),
            after: None,
        },
    ];
    let outcome = space.try_apply_ops(&mut page, &refused).unwrap();
    assert_eq!(outcome.unwrap_err().message(), "invalid: cannot move block into its own subtree");
    assert_eq!(page, before);
}

#[test]
fn contradictions_are_sought_pair_by_pair() {
    let mut config = LintConfig::default();
    config.contradiction_max_candidates = 2;
    let pair = |left: &str, right: &str, similarity: f32| PagePair {
        left: DocId::of(left),
        right: DocId::of(right),
        similarity: F32 { bits: similarity.to_bits() },
    };
    let pairs = vec![
        pair("a", "b", 0.99),
        pair("a", "c", 0.91),
        pair("b", "c", 0.9),
        pair("c", "d", 0.89),
        pair("d", "e", 0.1),
    ];
    let page = Document::new("Page", para("text"), SpaceId::default());
    let mut audit = ContradictionAudit::new(&pairs, &config);
    let first = audit.next_pair().unwrap();
    assert_eq!((first.left, first.right), (DocId::of("a"), DocId::of("c")));
    let prompt = audit.read("0.910", Some(&page), Some(&page)).unwrap();
    assert!(prompt.contains("(相似度: 0.910)\ntext\n"));
    audit.replied(Some(
        "{\"has_contradiction\": true, \"description\": \"日期不同\"}".to_string(),
    ));
    assert_eq!(audit.next_pair().unwrap().right, DocId::of("c"));
    assert!(audit.read("0.900", Some(&page), None).is_none());
    assert!(audit.next_pair().is_none());
    assert_eq!(audit.found, vec!["[a ↔ c] 日期不同"]);
}

#[test]
fn written_pages_are_read_back() {
    let mut page =
        Page::new("T", ContentType::Article, "# A\n\nB\n", PageSpaceId::default(), "me").unwrap();
    page.tags = vec!["x".to_string(), "y".to_string()];
    page.path = Some("/p".to_string());
    let text: String = page.blocks.iter().map(|b| b.to_diffable_text()).collect();
    let source = page.to_markdown();
    assert_eq!(frontmatter_body(&source), text);
    assert!(frontmatter_yaml(&source).unwrap().starts_with("title: T\ncontent_type: article\n"));
    let committed = CollabDoc::new(1).finalize(&page, "m").unwrap().new_raw_markdown;
    assert_eq!(frontmatter_body(&committed), text);

    page.title = "T\n---\nrest".to_string();
    assert_ne!(frontmatter_body(&page.to_markdown()), text);
}

#[test]
fn changed_blocks_stand_where_they_should() {
    let mut doc = Document::new("T", para("root"), SpaceId::default());
    let root = doc.root.clone();
    let named = |id: &str| {
        let mut b = para(id);
        b.id = BlockId::of(id);
        b
    };
    let insert = |id: &str, after: Option<&str>| Op::InsertBlock {
        parent: root.clone(),
        after: after.map(BlockId::of),
        block: named(id),
    };
    for op in [insert("a", None), insert("b", Some("a")), insert("c", None)] {
        doc.apply(op).unwrap();
    }
    let order = |d: &Document, id: &BlockId| -> Vec<String> {
        d.block(id).unwrap().children.iter().map(|c| c.0.clone()).collect()
    };
    assert_eq!(order(&doc, &root), vec!["c", "a", "b"]);
    let a = BlockId::of("a");
    doc.apply(Op::MoveBlock { id: BlockId::of("c"), new_parent: a.clone(), after: None }).unwrap();
    assert_eq!(order(&doc, &root), vec!["a", "b"]);
    assert_eq!(order(&doc, &a), vec!["c"]);
    assert_eq!(doc.block(&BlockId::of("c")).unwrap().parent, Some(a.clone()));
    let b = doc.block(&BlockId::of("b")).unwrap().clone();
    doc.apply(Op::UpdateBlock { id: a.clone(), patch: JsonValue::text("new") }).unwrap();
    assert_eq!(doc.block(&a).unwrap().version, 1);
    assert_eq!(doc.block(&a).unwrap().content.as_plain_text(), "new");
    assert_eq!(*doc.block(&BlockId::of("b")).unwrap(), b);
}
