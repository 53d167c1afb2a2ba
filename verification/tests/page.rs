//! Pages whose source is Markdown.

use uwu_wiki::error::WikiError;
use uwu_wiki::float::F32;
use uwu_wiki::ids::BlockId;
use uwu_wiki::json::{parse_json, JsonValue};
use uwu_wiki::page::block::{
    children_of, descendants, find_block, is_descendant_of, Block, CustomBlockType,
};
use uwu_wiki::page::doc::{
    flatten_ast_to_blocks, frontmatter_body, frontmatter_yaml, parse_custom_component,
    parse_frontmatter, ContentType, DerivationChain, DerivationRule, Document, DocumentStatus,
    Frontmatter, Op, SpaceId,
};
use uwu_wiki::page::markdown::{ast_to_string, extract_text, md_to_html, parse_to_ast};
use uwu_wiki::page::registry::{BlockTypeRegistry, MarkdownRenderer, Render};
use uwu_wiki::page::space::WikiSpace;
use uwu_wiki::page::validate::validate_document;
use uwu_wiki::time::Timestamp;

fn json(text: &str) -> JsonValue {
    parse_json(text).unwrap()
}

fn table(text: &str) -> Block {
    Block::custom(
        CustomBlockType::SmartTable,
        JsonValue::object(vec![("text".to_string(), JsonValue::text(text))]),
        "<SmartTable/>",
        "tester",
    )
}

fn table_under(parent: &BlockId, text: &str) -> Block {
    Block::custom_with_parent(
        CustomBlockType::SmartTable,
        JsonValue::object(vec![("text".to_string(), JsonValue::text(text))]),
        "<SmartTable/>",
        "tester",
        parent.clone(),
    )
}

fn article(raw: &str) -> Document {
    Document::new("Test", ContentType::Article, raw, SpaceId::default(), "alice").unwrap()
}

fn space() -> WikiSpace {
    WikiSpace::new(SpaceId::new("lib", "wiki"))
}

#[test]
fn markdown_becomes_blocks() {
    let d = article("# Hello\n\nWorld `x`.\n");
    assert_eq!(d.version, 0);
    let raws: Vec<String> = d.blocks.iter().map(|b| b.to_diffable_text()).collect();
    assert_eq!(raws, vec!["# Hello", "Hello", "World `x`.", "World ", "`x`", "."]);
    assert_eq!(d.blocks[2].as_plain_text(), "World `x`.");
    assert_eq!(d.status, DocumentStatus::Active);
    assert!(d.block(d.blocks[1].id()).is_some());
}

#[test]
fn markdown_renders_as_html() {
    assert_eq!(md_to_html("**a**"), "<p><strong>a</strong></p>");
    let ast = parse_to_ast("a `b` c").unwrap();
    assert_eq!(ast.get_str("type"), Some("root"));
    assert_eq!(extract_text(&ast), "a `b` c");
    assert!(ast_to_string("not json").is_none());
}

#[test]
fn front_matter_is_split_from_the_body() {
    let raw = "---\ntitle: T\n---\n# H\n\nbody\n";
    assert_eq!(frontmatter_yaml(raw).map(|s| s.trim().to_string()), Some("title: T".to_string()));
    assert_eq!(frontmatter_body(raw).trim(), "# H\n\nbody");
    assert_eq!(frontmatter_yaml("# H\n"), None);
    let (front, body) = parse_frontmatter("# Heading\n\ntext", None);
    assert_eq!(front.title.as_deref(), Some("Heading"));
    assert_eq!(body, "# Heading\n\ntext");
}

#[test]
fn parsed_front_matter_fills_the_page() {
    let mut front = Frontmatter::default();
    front.title = Some("From YAML".to_string());
    front.status = Some("frozen".to_string());
    front.tags = Some(vec!["a".to_string(), "b".to_string()]);
    let raw = "---\ntitle: From YAML\n---\n# H\n\nbody\n";
    let d = space().parse_document(raw, Some(front)).unwrap();
    assert_eq!(d.title, "From YAML");
    assert_eq!(d.status, DocumentStatus::Frozen);
    assert_eq!(d.tags, vec!["a", "b"]);
    assert_eq!(d.raw_markdown, raw);
}

#[test]
fn written_page_names_its_fields() {
    let mut d = article("# Hello\n");
    d.created_at = Timestamp { secs: 0, nanos: 0 };
    d.tags = vec!["x".to_string(), "y".to_string()];
    d.path = Some("p/q".to_string());
    let md = d.to_markdown();
    assert!(md.starts_with(
        "---\ntitle: Test\ncontent_type: article\ntags: [x, y]\nstatus: active\npath: p/q\nauthor: alice\ncreated_at: 1970-01-01T00:00:00+00:00\n---\n\n"
    ));
    assert!(md.contains("# Hello"));
}

#[test]
fn components_are_recognised() {
    let (ty, data) = parse_custom_component("<Mermaid code=\"x\" n=\"2\" />").unwrap();
    assert_eq!(ty, CustomBlockType::Mermaid);
    assert_eq!(data.get_str("code"), Some("x"));
    assert!(parse_custom_component("<div>x</div>").is_none());
    assert!(parse_custom_component("<Unknown a=\"b\"/>").is_none());
}

#[test]
fn kinds_and_statuses_have_names() {
    for name in ["article", "smart_table", "workflow", "flowchart", "mindmap", "audio"] {
        assert_eq!(ContentType::from_str(name).unwrap().as_str(), name);
    }
    assert!(ContentType::from_str("none").is_none());
    for name in ["active", "frozen", "hidden", "archived"] {
        assert_eq!(DocumentStatus::from_str(name).unwrap().as_str(), name);
    }
    assert!(DocumentStatus::Active.is_writable());
    assert!(!DocumentStatus::Frozen.is_writable());
    let custom = CustomBlockType::from_str("Weird");
    assert_eq!(custom.as_str(), "Weird");
}

#[test]
fn derivations_go_stale_with_their_source() {
    let chain = DerivationChain::new("text");
    assert!(!chain.is_stale("text"));
    assert!(chain.is_stale("other"));
    assert_eq!(chain.l2_hash.len(), 64);
    let empty = DerivationChain::new_at("", Timestamp { secs: 1, nanos: 0 });
    assert_eq!(
        empty.l2_hash,
        "af1349b9f5f9a1a6a0404dea36dcc9499bcb25c9adc112b7cc9a93cae41f3262"
    );
    assert_eq!(empty.last_derived, Timestamp { secs: 1, nanos: 0 });
}

#[test]
fn operations_change_a_page() {
    let s = space();
    let mut d = article("# Hello\n");
    let root = table("root");
    let root_id = root.id().clone();
    let child = table_under(&root_id, "child");
    let child_id = child.id().clone();
    s.apply_ops(
        &mut d,
        &vec![
            Op::InsertBlock { after: None, block: root },
            Op::InsertBlock { after: None, block: child },
            Op::BlockUpdate { block_id: child_id.clone(), patch: json("{\"x\": 1}") },
        ],
    )
    .unwrap();
    assert_eq!(d.version, 3);
    assert_eq!(d.descendants(&root_id), vec![root_id.clone(), child_id.clone()]);
    assert_eq!(d.children_of(&root_id).len(), 1);
    assert!(is_descendant_of(&d.blocks, &child_id, &root_id));
    assert_eq!(d.block(&child_id).unwrap().version(), 1);
    assert_eq!(d.walk(&root_id).len(), 2);
    s.apply_ops(&mut d, &vec![Op::DeleteBlock { block_id: root_id.clone() }]).unwrap();
    assert!(find_block(&d.blocks, &child_id).is_none());
    assert!(children_of(&d.blocks, &root_id).is_empty());
    assert!(descendants(&d.blocks, &root_id).len() <= 1);
}

#[test]
fn moving_into_the_own_subtree_is_refused() {
    let s = space();
    let mut d = article("x\n");
    let a = table("a");
    let a_id = a.id().clone();
    let b = table_under(&a_id, "b");
    let b_id = b.id().clone();
    s.apply_ops(
        &mut d,
        &vec![
            Op::InsertBlock { after: None, block: a },
            Op::InsertBlock { after: None, block: b },
        ],
    )
    .unwrap();
    let before = d.clone();
    let e = s
        .apply_ops(&mut d, &vec![Op::MoveBlock { id: a_id, new_parent: b_id, after: None }])
        .unwrap_err();
    assert_eq!(e.message(), "invalid: cannot move block into its own subtree");
    assert_eq!(d, before);
}

#[test]
fn one_refused_operation_aborts_the_batch() {
    let s = space();
    let mut d = article("text\n");
    let before = d.clone();
    let ops = vec![
        Op::UpdateMeta { patch: json("{\"title\": \"New\"}") },
        Op::InsertBlock { after: None, block: table("t") },
        Op::BlockUpdate { block_id: BlockId::of("no"), patch: json("{}") },
        Op::UpdateMeta { patch: json("{\"title\": \"Newer\"}") },
    ];
    let times = vec![Timestamp { secs: 9, nanos: 0 }; 4];
    let e = s.apply_ops(&mut d, &ops).unwrap_err();
    assert_eq!(e.message(), "not found: block no");
    assert_eq!(d, before);
    assert!(s.apply_ops_at(&mut d, &ops, &times).is_err());
    assert_eq!(d, before);
    assert!(s.try_apply_ops(&mut d, &ops).unwrap().is_err());
    assert_eq!(d, before);
    assert!(s.try_apply_ops_at(&mut d, &ops, &times).unwrap().is_err());
    assert_eq!(d, before);
    s.apply_ops_at(&mut d, &ops[..2].to_vec(), &times).unwrap();
    assert_eq!((d.version, d.title.as_str()), (2, "New"));
    assert_eq!(d.updated_at, Timestamp { secs: 9, nanos: 0 });
}

#[test]
fn refused_page_operations_say_why() {
    let s = space();
    let mut d = article("text\n");
    let id = d.blocks[0].id().clone();
    let errors: Vec<String> = vec![
        Op::TextUpdate { patch: "p".to_string(), base_version: 7 },
        Op::BlockUpdate { block_id: BlockId::of("no"), patch: json("{}") },
        Op::BlockUpdate { block_id: id, patch: json("{}") },
    ]
    .into_iter()
    .map(|op| s.apply_ops(&mut d, &vec![op]).unwrap_err().message())
    .collect();
    assert_eq!(
        errors,
        vec![
            "invalid: version conflict: expected 7 got 0",
            "not found: block no",
            "invalid: BlockUpdate only for custom blocks",
        ]
    );
    assert_eq!(d.version, 0);
}

#[test]
fn page_meta_is_patched() {
    let s = space();
    let mut d = article("text\n");
    let patch = json("{\"title\": \"N\", \"tags\": [\"a\", 1], \"status\": \"hidden\", \"path\": \"x\"}");
    s.apply_op(&mut d, &Op::UpdateMeta { patch }, Timestamp { secs: 9, nanos: 0 }).unwrap();
    assert_eq!(d.title, "N");
    assert_eq!(d.tags, vec!["a"]);
    assert_eq!(d.status, DocumentStatus::Hidden);
    assert_eq!(d.path.as_deref(), Some("x"));
    assert_eq!(d.updated_at, Timestamp { secs: 9, nanos: 0 });
}

#[test]
fn pages_are_validated() {
    let mut d = article("text\n");
    assert!(validate_document(&d).is_ok());
    d.title = String::new();
    assert_eq!(
        validate_document(&d).unwrap_err(),
        WikiError::Invalid("title cannot be empty".to_string())
    );
    d.title = "T".to_string();
    d.raw_markdown = String::new();
    d.blocks = vec![];
    assert_eq!(
        validate_document(&d).unwrap_err(),
        WikiError::Invalid("document cannot be empty".to_string())
    );
}

#[test]
fn embedding_of_a_block_goes_stale() {
    let mut b = table("x");
    assert!(!b.is_embedding_stale());
    if let Block::Custom(c) = &mut b {
        c.embedding = Some(vec![F32 { bits: 0 }]);
    }
    b.bump_version();
    assert!(b.is_embedding_stale());
    assert_eq!(b.version(), 1);
}

enum Renderer {
    Markdown(MarkdownRenderer),
    Fixed(String),
}

impl Render for Renderer {
    fn render(&self, block: &Block) -> Result<String, WikiError> {
        match self {
            Renderer::Markdown(m) => m.render(block),
            Renderer::Fixed(s) => Ok(s.clone()),
        }
    }
}

#[test]
fn registry_picks_the_renderer() {
    let mut reg = BlockTypeRegistry::new(Renderer::Markdown(MarkdownRenderer {}));
    let d = article("**a**\n");
    assert_eq!(reg.render(&d.blocks[0]).unwrap(), "<p><strong>a</strong></p>");
    let t = table("x");
    assert_eq!(
        reg.render(&t).unwrap_err().message(),
        "invalid: no renderer for SmartTable"
    );
    reg.register("SmartTable", Renderer::Fixed("<table/>".to_string()));
    assert_eq!(reg.render(&t).unwrap(), "<table/>");
    reg.register("SmartTable", Renderer::Fixed("<t2/>".to_string()));
    assert_eq!(reg.render(&t).unwrap(), "<t2/>");
    assert!(reg.get("markdown").is_some());
    assert!(reg.get("Mermaid").is_none());
    let none: BlockTypeRegistry<Renderer> = BlockTypeRegistry { renderers: vec![] };
    assert_eq!(none.render(&d.blocks[0]).unwrap_err().message(), "invalid: no markdown renderer");
    assert_eq!(MarkdownRenderer {}.render(&t).unwrap(), "");
}

#[test]
fn summaries_note_how_they_were_made() {
    let mut d = article("Body\n");
    assert!(!d.is_derivation_stale());
    d.set_summary("s".to_string(), DerivationRule::Manual);
    d.set_overview("o".to_string(), DerivationRule::Extractive { algorithm: "lead".to_string() });
    assert_eq!(d.summary, Some("s".to_string()));
    assert_eq!(d.overview, Some("o".to_string()));
    let chain = d.derivation.clone().unwrap();
    assert_eq!(chain.l0_rule, Some(DerivationRule::Manual));
    assert_eq!(
        chain.l1_rule,
        Some(DerivationRule::Extractive { algorithm: "lead".to_string() })
    );
    d.raw_markdown = "Other\n".to_string();
    assert!(d.is_derivation_stale());
    d.derivation = None;
    assert!(d.is_derivation_stale());
}

#[test]
fn status_decides_who_sees_a_page() {
    let all = [
        DocumentStatus::Active,
        DocumentStatus::Frozen,
        DocumentStatus::Hidden,
        DocumentStatus::Archived,
    ];
    let readable: Vec<bool> = all.iter().map(|s| s.is_readable()).collect();
    let writable: Vec<bool> = all.iter().map(|s| s.is_writable()).collect();
    let searchable: Vec<bool> = all.iter().map(|s| s.is_searchable()).collect();
    assert_eq!(readable, vec![true, true, false, false]);
    assert_eq!(writable, vec![true, false, false, false]);
    assert_eq!(searchable, vec![true, true, false, false]);
}

#[test]
fn spaces_make_pages() {
    let d = space().create_document("T", ContentType::Mindmap, "# A\n", "bob").unwrap();
    assert_eq!(d.space_id, SpaceId::new("lib", "wiki"));
    assert_eq!((d.title.as_str(), d.author.as_str()), ("T", "bob"));
    assert_eq!(d.content_type, ContentType::Mindmap);
    assert_eq!(d.blocks.len(), 2);
}

#[test]
fn blocks_are_changed_in_their_place() {
    let mut d = article("text\n");
    let id = d.blocks[0].id().clone();
    d.block_mut(&id).unwrap().bump_version();
    assert_eq!(d.block(&id).unwrap().version(), 1);
    assert!(d.block_mut(&BlockId::of("no")).is_none());

    let mut list = table("x");
    list.add_child(BlockId::of("a"));
    list.add_child(BlockId::of("b"));
    list.remove_child(&BlockId::of("a"));
    assert_eq!(list.children(), vec![BlockId::of("b")]);
    let mut text = d.blocks[0].clone();
    text.add_child(BlockId::of("a"));
    assert!(text.children().is_empty());
}

#[test]
fn nodes_become_blocks_with_their_source() {
    let source = "字 `x`";
    let ast = json(
        "{\"type\":\"root\",\"children\":[{\"type\":\"text\",\"value\":\"字\",\"position\":\
         {\"start\":{\"offset\":0},\"end\":{\"offset\":3}}},{\"type\":\"html\",\
         \"value\":\"<Mindmap depth='2'/>\"},{\"type\":\"yaml\"}]}",
    );
    let blocks = flatten_ast_to_blocks(&ast, source, "me");
    assert_eq!(blocks.len(), 2);
    assert_eq!(blocks[0].to_diffable_text(), "字");
    match &blocks[1] {
        Block::Custom(c) => {
            assert_eq!(c.ty, CustomBlockType::Mindmap);
            assert_eq!(c.data.get_str("depth"), Some("2"));
        }
        Block::Markdown(_) => panic!("no structured block"),
    }
}
