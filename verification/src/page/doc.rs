//! The page: its front matter, its blocks and the chain that its summaries
//! were derived by.

use vstd::prelude::*;

use crate::error::{WikiError, WikiErrorM};
use crate::ids::{uuid_text, BlockId, DocId};
use crate::json::{
    entries_put, lemma_member_below, lemma_object_model, member, put_entry, text_of, Json,
    JsonValue,
};
use crate::page::block::{
    block_at, block_of, children_of, descendants, find_block, find_block_mut, fresh_custom,
    grounded, hangs_on, named_type, position, subtree, Block, BlockM, CustomBlockType,
    CustomBlockTypeM,
};
use crate::page::law::{law_written_page_read_back, plain_fields};
use crate::page::markdown::{ast_outcome, parse_to_ast};
use crate::seqs::keep;
use crate::text::{
    begins, cat3, copy_range, ends, find, find_char, find_from, find_one, from_chars, join, joined,
    lemma_find_char, lemma_find_from, lines_of, match_here, same, split_lines, split_words,
    to_chars, trim, trim_chars, trim_end_of, trim_end_of_chars, trim_of, trim_of_chars, trim_start,
    trim_start_chars, trim_start_of, trim_start_of_chars, words, word_len,
};
use crate::time::{rfc3339, Timestamp};
use vstd::string::StringSliceAdditionalSpecFns;

verus! {

broadcast use vstd::std_specs::vec::group_vec_axioms;

/// The space of a page: a wiki in a library.
#[derive(Debug, PartialEq)]
pub struct SpaceId {
    pub library: String,
    pub wiki: String,
}

/// What a `SpaceId` holds.
#[verifier::ext_equal]
pub struct SpaceIdM {
    pub library: Seq<char>,
    pub wiki: Seq<char>,
}

impl DeepView for SpaceId {
    type V = SpaceIdM;

    open spec fn deep_view(&self) -> SpaceIdM {
        SpaceIdM {
            library: self.library.deep_view(),
            wiki: self.wiki.deep_view(),
        }
    }
}

impl Clone for SpaceId {
    fn clone(&self) -> (r: Self)
        ensures
            r.deep_view() == self.deep_view(),
    {
        SpaceId {
            library: self.library.clone(),
            wiki: self.wiki.clone(),
        }
    }
}

impl SpaceId {
    pub fn new(library: &str, wiki: &str) -> (r: SpaceId)
        ensures
            r.deep_view() == (SpaceIdM { library: library@, wiki: wiki@ }),
    {
        SpaceId { library: library.to_owned(), wiki: wiki.to_owned() }
    }

    /// The space of pages that name none.
    pub fn default() -> (r: SpaceId)
        ensures
            r.deep_view() == (SpaceIdM { library: "default"@, wiki: "default"@ }),
    {
        SpaceId { library: "default".to_owned(), wiki: "default".to_owned() }
    }

    /// Library and wiki with a slash between.
    pub fn message(&self) -> (r: String)
        ensures
            r@ == self.library@ + "/"@ + self.wiki@,
    {
        cat3(self.library.as_str(), "/", self.wiki.as_str())
    }
}

/// What a page is.
#[derive(Clone, Copy, Debug, PartialEq, Eq, Structural)]
pub enum ContentType {
    Article,
    SmartTable,
    Workflow,
    Flowchart,
    Mindmap,
    Audio,
    Video,
    Artwork,
    Playlist,
}

impl DeepView for ContentType {
    type V = ContentType;

    open spec fn deep_view(&self) -> ContentType {
        *self
    }
}

/// The name of a content type.
pub open spec fn content_name(t: ContentType) -> Seq<char> {
    match t {
        ContentType::Article => "article"@,
        ContentType::SmartTable => "smart_table"@,
        ContentType::Workflow => "workflow"@,
        ContentType::Flowchart => "flowchart"@,
        ContentType::Mindmap => "mindmap"@,
        ContentType::Audio => "audio"@,
        ContentType::Video => "video"@,
        ContentType::Artwork => "artwork"@,
        ContentType::Playlist => "playlist"@,
    }
}

/// The content type with a name.
pub open spec fn content_named(s: Seq<char>) -> Option<ContentType> {
    if s == "article"@ {
        Some(ContentType::Article)
    } else if s == "smart_table"@ {
        Some(ContentType::SmartTable)
    } else if s == "workflow"@ {
        Some(ContentType::Workflow)
    } else if s == "flowchart"@ {
        Some(ContentType::Flowchart)
    } else if s == "mindmap"@ {
        Some(ContentType::Mindmap)
    } else if s == "audio"@ {
        Some(ContentType::Audio)
    } else if s == "video"@ {
        Some(ContentType::Video)
    } else if s == "artwork"@ {
        Some(ContentType::Artwork)
    } else if s == "playlist"@ {
        Some(ContentType::Playlist)
    } else {
        None
    }
}

impl ContentType {
    pub fn as_str(&self) -> (r: &'static str)
        ensures
            r@ == content_name(*self),
    {
        match self {
            ContentType::Article => "article",
            ContentType::SmartTable => "smart_table",
            ContentType::Workflow => "workflow",
            ContentType::Flowchart => "flowchart",
            ContentType::Mindmap => "mindmap",
            ContentType::Audio => "audio",
            ContentType::Video => "video",
            ContentType::Artwork => "artwork",
            ContentType::Playlist => "playlist",
        }
    }

    pub fn from_str(s: &str) -> (r: Option<ContentType>)
        ensures
            r == content_named(s@),
    {
        if same(s, "article") {
            Some(ContentType::Article)
        } else if same(s, "smart_table") {
            Some(ContentType::SmartTable)
        } else if same(s, "workflow") {
            Some(ContentType::Workflow)
        } else if same(s, "flowchart") {
            Some(ContentType::Flowchart)
        } else if same(s, "mindmap") {
            Some(ContentType::Mindmap)
        } else if same(s, "audio") {
            Some(ContentType::Audio)
        } else if same(s, "video") {
            Some(ContentType::Video)
        } else if same(s, "artwork") {
            Some(ContentType::Artwork)
        } else if same(s, "playlist") {
            Some(ContentType::Playlist)
        } else {
            None
        }
    }
}

/// A content type is the one with its name.
pub proof fn law_content_round_trip(t: ContentType)
    ensures
        content_named(content_name(t)) == Some(t),
{
    reveal_strlit("article");
    reveal_strlit("smart_table");
    reveal_strlit("workflow");
    reveal_strlit("flowchart");
    reveal_strlit("mindmap");
    reveal_strlit("audio");
    reveal_strlit("video");
    reveal_strlit("artwork");
    reveal_strlit("playlist");
    assert("article"@.len() == 7);
    assert("smart_table"@.len() == 11);
    assert("workflow"@.len() == 8);
    assert("flowchart"@.len() == 9);
    assert("mindmap"@.len() == 7);
    assert("audio"@.len() == 5);
    assert("video"@.len() == 5);
    assert("artwork"@.len() == 7);
    assert("playlist"@.len() == 8);
    assert("article"@[0] != "mindmap"@[0]);
    assert("article"@[3] != "artwork"@[3]);
    assert("workflow"@[0] != "playlist"@[0]);
    assert("mindmap"@[0] != "artwork"@[0]);
    assert("audio"@[0] != "video"@[0]);
}

/// The life of a page.
#[derive(Clone, Copy, Debug, PartialEq, Eq, Structural)]
pub enum DocumentStatus {
    Active,
    Frozen,
    Hidden,
    Archived,
}

impl DeepView for DocumentStatus {
    type V = DocumentStatus;

    open spec fn deep_view(&self) -> DocumentStatus {
        *self
    }
}

/// The name of a status.
pub open spec fn status_name(s: DocumentStatus) -> Seq<char> {
    match s {
        DocumentStatus::Active => "active"@,
        DocumentStatus::Frozen => "frozen"@,
        DocumentStatus::Hidden => "hidden"@,
        DocumentStatus::Archived => "archived"@,
    }
}

/// The status with a name.
pub open spec fn status_named(s: Seq<char>) -> Option<DocumentStatus> {
    if s == "active"@ {
        Some(DocumentStatus::Active)
    } else if s == "frozen"@ {
        Some(DocumentStatus::Frozen)
    } else if s == "hidden"@ {
        Some(DocumentStatus::Hidden)
    } else if s == "archived"@ {
        Some(DocumentStatus::Archived)
    } else {
        None
    }
}

impl DocumentStatus {
    pub fn is_readable(&self) -> (r: bool)
        ensures
            r == (*self == DocumentStatus::Active || *self == DocumentStatus::Frozen),
    {
        matches!(self, DocumentStatus::Active | DocumentStatus::Frozen)
    }

    pub fn is_writable(&self) -> (r: bool)
        ensures
            r == (*self == DocumentStatus::Active),
    {
        matches!(self, DocumentStatus::Active)
    }

    pub fn is_searchable(&self) -> (r: bool)
        ensures
            r == (*self == DocumentStatus::Active || *self == DocumentStatus::Frozen),
    {
        matches!(self, DocumentStatus::Active | DocumentStatus::Frozen)
    }

    pub fn from_str(s: &str) -> (r: Option<DocumentStatus>)
        ensures
            r == status_named(s@),
    {
        if same(s, "active") {
            Some(DocumentStatus::Active)
        } else if same(s, "frozen") {
            Some(DocumentStatus::Frozen)
        } else if same(s, "hidden") {
            Some(DocumentStatus::Hidden)
        } else if same(s, "archived") {
            Some(DocumentStatus::Archived)
        } else {
            None
        }
    }

    pub fn as_str(&self) -> (r: &'static str)
        ensures
            r@ == status_name(*self),
    {
        match self {
            DocumentStatus::Active => "active",
            DocumentStatus::Frozen => "frozen",
            DocumentStatus::Hidden => "hidden",
            DocumentStatus::Archived => "archived",
        }
    }
}

/// A status is the one with its name.
pub proof fn law_status_round_trip(s: DocumentStatus)
    ensures
        status_named(status_name(s)) == Some(s),
{
    reveal_strlit("active");
    reveal_strlit("frozen");
    reveal_strlit("hidden");
    reveal_strlit("archived");
    assert("active"@.len() == 6);
    assert("frozen"@.len() == 6);
    assert("hidden"@.len() == 6);
    assert("archived"@.len() == 8);
    assert("active"@[0] != "frozen"@[0]);
    assert("active"@[0] != "hidden"@[0]);
    assert("frozen"@[0] != "hidden"@[0]);
}

// ---- Front matter ----------------------------------------------------------

/// The fields that a page may set in its front matter.
#[derive(Debug, PartialEq)]
pub struct Frontmatter {
    pub title: Option<String>,
    pub content_type: Option<String>,
    pub tags: Option<Vec<String>>,
    pub status: Option<String>,
    pub path: Option<String>,
    pub author: Option<String>,
    pub icon: Option<String>,
    pub cover: Option<String>,
}

/// What a `Frontmatter` holds.
#[verifier::ext_equal]
pub struct FrontmatterM {
    pub title: Option<Seq<char>>,
    pub content_type: Option<Seq<char>>,
    pub tags: Option<Seq<Seq<char>>>,
    pub status: Option<Seq<char>>,
    pub path: Option<Seq<char>>,
    pub author: Option<Seq<char>>,
    pub icon: Option<Seq<char>>,
    pub cover: Option<Seq<char>>,
}

impl DeepView for Frontmatter {
    type V = FrontmatterM;

    open spec fn deep_view(&self) -> FrontmatterM {
        FrontmatterM {
            title: self.title.deep_view(),
            content_type: self.content_type.deep_view(),
            tags: self.tags.deep_view(),
            status: self.status.deep_view(),
            path: self.path.deep_view(),
            author: self.author.deep_view(),
            icon: self.icon.deep_view(),
            cover: self.cover.deep_view(),
        }
    }
}

impl Clone for Frontmatter {
    fn clone(&self) -> (r: Self)
        ensures
            r.deep_view() == self.deep_view(),
    {
        Frontmatter {
            title: self.title.clone(),
            content_type: self.content_type.clone(),
            tags: self.tags.clone(),
            status: self.status.clone(),
            path: self.path.clone(),
            author: self.author.clone(),
            icon: self.icon.clone(),
            cover: self.cover.clone(),
        }
    }
}

/// Front matter that sets nothing but, maybe, a title.
pub open spec fn title_only(title: Option<Seq<char>>) -> FrontmatterM {
    FrontmatterM {
        title,
        content_type: None,
        tags: None,
        status: None,
        path: None,
        author: None,
        icon: None,
        cover: None,
    }
}

impl Frontmatter {
    fn titled(title: Option<String>) -> (r: Frontmatter)
        ensures
            r.deep_view() == title_only(title.deep_view()),
    {
        Frontmatter {
            title,
            content_type: None,
            tags: None,
            status: None,
            path: None,
            author: None,
            icon: None,
            cover: None,
        }
    }

    /// Front matter that sets nothing.
    pub fn default() -> (r: Frontmatter)
        ensures
            r.deep_view() == title_only(None),
    {
        Frontmatter::titled(None)
    }
}

/// The parts of a page source.
#[verifier::ext_equal]
pub enum SourceM {
    /// No front matter.
    Plain,
    /// Front matter that is opened and never closed.
    Open,
    Closed { yaml: Seq<char>, body: Seq<char> },
}

/// Takes a page source apart. Front matter stands between a first line of
/// three hyphens and the next line that begins with three hyphens.
pub open spec fn source_parts(raw: Seq<char>) -> SourceM {
    let t = trim_start(raw);
    if !begins(t, "---\n"@) && !begins(t, "---\r\n"@) {
        SourceM::Plain
    } else {
        let rest = trim_start(t.skip(3));
        match find_from(rest, "\n---"@, 0) {
            Some(i) => SourceM::Closed { yaml: rest.take(i), body: trim_start(rest.skip(i + 4)) },
            None => SourceM::Open,
        }
    }
}

/// What stands behind the front matter; the whole source where there is none.
pub open spec fn body_of(raw: Seq<char>) -> Seq<char> {
    match source_parts(raw) {
        SourceM::Closed { body, .. } => body,
        _ => raw,
    }
}

/// The first line that begins with a hash sign, without its leading hash
/// signs and the blanks around.
pub open spec fn first_heading(lines: Seq<Seq<char>>) -> Option<Seq<char>>
    decreases lines.len(),
{
    if lines.len() == 0 {
        None
    } else if lines[0].len() > 0 && lines[0][0] == '#' {
        Some(trim(trim_start_of(lines[0], '#')))
    } else {
        first_heading(lines.drop_first())
    }
}

/// The front matter of a page, where `parsed` is what the YAML text between
/// the hyphens was read as.
pub open spec fn front_of(raw: Seq<char>, parsed: Option<FrontmatterM>) -> FrontmatterM {
    match source_parts(raw) {
        SourceM::Plain => title_only(first_heading(lines_of(raw))),
        SourceM::Open => title_only(None),
        SourceM::Closed { .. } => match parsed {
            Some(f) => f,
            None => title_only(None),
        },
    }
}

enum Source {
    Plain,
    Open,
    Closed { yaml: String, body: String },
}

fn split_source(raw: &str) -> (r: Source)
    ensures
        match r {
            Source::Plain => source_parts(raw@) == SourceM::Plain,
            Source::Open => source_parts(raw@) == SourceM::Open,
            Source::Closed { yaml, body } => source_parts(raw@) == (SourceM::Closed {
                yaml: yaml@,
                body: body@,
            }),
        },
{
    let cs = to_chars(raw);
    let t = trim_start_chars(&cs);
    let open_a = to_chars("---\n");
    let open_b = to_chars("---\r\n");
    if !match_here(&t, &open_a, 0) && !match_here(&t, &open_b, 0) {
        return Source::Plain;
    }
    proof {
        reveal_strlit("---\n");
        reveal_strlit("---\r\n");
        reveal_strlit("\n---");
    }
    let cut = copy_range(&t, 3, t.len());
    assert(cut@ =~= t@.skip(3));
    let rest = trim_start_chars(&cut);
    let close = to_chars("\n---");
    match find(&rest, &close, 0) {
        Some(i) => {
            proof {
                lemma_find_from(rest@, "\n---"@, 0);
                assert("\n---"@.len() == 4);
            }
            let yaml = copy_range(&rest, 0, i);
            let tail = copy_range(&rest, i + 4, rest.len());
            assert(yaml@ =~= rest@.take(i as int));
            assert(tail@ =~= rest@.skip(i + 4));
            let body = trim_start_chars(&tail);
            Source::Closed { yaml: from_chars(&yaml), body: from_chars(&body) }
        },
        None => Source::Open,
    }
}

fn heading_title(raw: &str) -> (r: Option<String>)
    ensures
        r.deep_view() == first_heading(lines_of(raw@)),
{
    let lines = split_lines(raw);
    let ghost all = lines.deep_view();
    let mut i: usize = 0;
    assert(all.skip(0) =~= all);
    while i < lines.len()
        invariant
            i <= lines.len(),
            all == lines.deep_view(),
            all == lines_of(raw@),
            first_heading(all) == first_heading(all.skip(i as int)),
        decreases lines.len() - i,
    {
        let cs = to_chars(lines[i].as_str());
        assert(all.skip(i as int)[0] == cs@);
        if cs.len() > 0 && cs[0] == '#' {
            let bare = trim_start_of_chars(&cs, '#');
            return Some(from_chars(&trim_chars(&bare)));
        }
        assert(all.skip(i as int).drop_first() =~= all.skip(i + 1));
        i = i + 1;
    }
    None
}

/// The YAML text of the front matter, if the source has closed front matter.
pub fn frontmatter_yaml(raw: &str) -> (r: Option<String>)
    ensures
        r.deep_view() == (match source_parts(raw@) {
            SourceM::Closed { yaml, .. } => Some(yaml),
            _ => None,
        }),
{
    match split_source(raw) {
        Source::Closed { yaml, .. } => Some(yaml),
        _ => None,
    }
}

/// The front matter and the body of a page. `parsed` is what the text given by
/// `frontmatter_yaml` was read as, or nothing if that failed.
pub fn parse_frontmatter(raw: &str, parsed: Option<Frontmatter>) -> (r: (Frontmatter, String))
    ensures
        r.0.deep_view() == front_of(raw@, parsed.deep_view()),
        r.1@ == body_of(raw@),
{
    match split_source(raw) {
        Source::Plain => (Frontmatter::titled(heading_title(raw)), raw.to_owned()),
        Source::Open => (Frontmatter::default(), raw.to_owned()),
        Source::Closed { body, .. } => match parsed {
            Some(f) => (f, body),
            None => (Frontmatter::default(), body),
        },
    }
}

/// What stands behind the front matter.
pub fn frontmatter_body(raw: &str) -> (r: String)
    ensures
        r@ == body_of(raw@),
{
    match split_source(raw) {
        Source::Closed { body, .. } => body,
        _ => raw.to_owned(),
    }
}

// ---- Derivation ------------------------------------------------------------

/// The BLAKE3 hash of a text, in hexadecimal.
pub uninterp spec fn blake3_hex(text: Seq<char>) -> Seq<char>;

/// `blake3::hash` on the UTF-8 bytes of a text, `to_hex`; named `blake3_hex`.
#[verifier::external_body]
pub(crate) fn hash_text(text: &str) -> (r: String)
    ensures
        r@ == blake3_hex(text@),
        r@.len() == 64,
{
    blake3::hash(text.as_bytes()).to_hex().to_string()
}

/// How a summary was made.
#[derive(Debug, PartialEq)]
pub enum DerivationRule {
    Llm { prompt_template: String, model: String },
    Extractive { algorithm: String },
    Manual,
}

/// What a `DerivationRule` holds.
#[verifier::ext_equal]
pub enum DerivationRuleM {
    Llm { prompt_template: Seq<char>, model: Seq<char> },
    Extractive { algorithm: Seq<char> },
    Manual,
}

impl DeepView for DerivationRule {
    type V = DerivationRuleM;

    open spec fn deep_view(&self) -> DerivationRuleM {
        match self {
            DerivationRule::Llm { prompt_template, model } => DerivationRuleM::Llm {
                prompt_template: prompt_template.deep_view(),
                model: model.deep_view(),
            },
            DerivationRule::Extractive { algorithm } => DerivationRuleM::Extractive {
                algorithm: algorithm.deep_view(),
            },
            DerivationRule::Manual => DerivationRuleM::Manual,
        }
    }
}

impl Clone for DerivationRule {
    fn clone(&self) -> (r: Self)
        ensures
            r.deep_view() == self.deep_view(),
    {
        match self {
            DerivationRule::Llm { prompt_template, model } => DerivationRule::Llm {
                prompt_template: prompt_template.clone(),
                model: model.clone(),
            },
            DerivationRule::Extractive { algorithm } => DerivationRule::Extractive {
                algorithm: algorithm.clone(),
            },
            DerivationRule::Manual => DerivationRule::Manual,
        }
    }
}

/// From which text, and how, the summaries of a page were derived.
#[derive(Debug, PartialEq)]
pub struct DerivationChain {
    pub l2_hash: String,
    pub l1_rule: Option<DerivationRule>,
    pub l0_rule: Option<DerivationRule>,
    pub last_derived: Timestamp,
}

/// What a `DerivationChain` holds.
#[verifier::ext_equal]
pub struct DerivationChainM {
    pub l2_hash: Seq<char>,
    pub l1_rule: Option<DerivationRuleM>,
    pub l0_rule: Option<DerivationRuleM>,
    pub last_derived: Timestamp,
}

impl DeepView for DerivationChain {
    type V = DerivationChainM;

    open spec fn deep_view(&self) -> DerivationChainM {
        DerivationChainM {
            l2_hash: self.l2_hash.deep_view(),
            l1_rule: self.l1_rule.deep_view(),
            l0_rule: self.l0_rule.deep_view(),
            last_derived: self.last_derived,
        }
    }
}

impl Clone for DerivationChain {
    fn clone(&self) -> (r: Self)
        ensures
            r.deep_view() == self.deep_view(),
    {
        DerivationChain {
            l2_hash: self.l2_hash.clone(),
            l1_rule: self.l1_rule.clone(),
            l0_rule: self.l0_rule.clone(),
            last_derived: self.last_derived,
        }
    }
}

/// A chain without derivations for a text.
pub open spec fn new_chain(content: Seq<char>, now: Timestamp) -> DerivationChainM {
    DerivationChainM {
        l2_hash: blake3_hex(content),
        l1_rule: None,
        l0_rule: None,
        last_derived: now,
    }
}

impl DerivationChain {
    pub fn new_at(l2_content: &str, now: Timestamp) -> (r: DerivationChain)
        ensures
            r.deep_view() == new_chain(l2_content@, now),
    {
        DerivationChain {
            l2_hash: hash_text(l2_content),
            l1_rule: None,
            l0_rule: None,
            last_derived: now,
        }
    }

    pub fn new(l2_content: &str) -> (r: DerivationChain)
        ensures
            r.deep_view() == new_chain(l2_content@, r.last_derived),
    {
        DerivationChain::new_at(l2_content, Timestamp::now())
    }

    /// Whether the text is another than the chain was made for.
    pub fn is_stale(&self, current_l2: &str) -> (r: bool)
        ensures
            r == (blake3_hex(current_l2@) != self.l2_hash@),
    {
        self.is_stale_for(hash_text(current_l2).as_str())
    }

    /// Whether the text with a hash is another than the chain was made for.
    pub fn is_stale_for(&self, hash: &str) -> (r: bool)
        ensures
            r == (hash@ != self.l2_hash@),
    {
        !same(hash, self.l2_hash.as_str())
    }

    pub fn set_l1(&mut self, rule: DerivationRule)
        ensures
            final(self).deep_view() == (DerivationChainM {
                l1_rule: Some(rule.deep_view()),
                last_derived: final(self).last_derived,
                ..old(self).deep_view()
            }),
    {
        self.l1_rule = Some(rule);
        self.last_derived = Timestamp::now();
    }

    pub fn set_l0(&mut self, rule: DerivationRule)
        ensures
            final(self).deep_view() == (DerivationChainM {
                l0_rule: Some(rule.deep_view()),
                last_derived: final(self).last_derived,
                ..old(self).deep_view()
            }),
    {
        self.l0_rule = Some(rule);
        self.last_derived = Timestamp::now();
    }
}


// ---- Components ------------------------------------------------------------

/// The attributes that words of the form `key=value` give, the quotes around a
/// value and a slash behind it dropped.
pub open spec fn attr_entries(ws: Seq<Seq<char>>) -> Seq<(Seq<char>, Json)>
    decreases ws.len(),
{
    if ws.len() == 0 {
        seq![]
    } else {
        let front = attr_entries(ws.drop_last());
        match find_char(ws.last(), '=', 0) {
            Some(eq) => front.push(
                (
                    ws.last().take(eq),
                    Json::Str(
                        trim_end_of(
                            trim_of(trim_of(ws.last().skip(eq + 1), '"'), '\''),
                            '/',
                        ),
                    ),
                ),
            ),
            None => front,
        }
    }
}

/// The object of the attributes in a text.
pub open spec fn attrs_of(a: Seq<char>) -> Json {
    Json::Object(entries_put(seq![], attr_entries(words(a))))
}

/// The structured block that a piece of HTML stands for: a self-closing tag
/// whose name is that of a kind.
pub open spec fn component_of(html: Seq<char>) -> Option<(CustomBlockTypeM, Json)> {
    let h = trim(html);
    if h.len() == 0 || h[0] != '<' || !ends(h, "/>"@) {
        None
    } else {
        let inner = trim(h.subrange(1, h.len() - 2));
        let n = word_len(inner) as int;
        let rest = if n < inner.len() {
            inner.skip(n + 1)
        } else {
            seq![]
        };
        match named_type(inner.take(n)) {
            CustomBlockTypeM::Custom(_) => None,
            ty => Some((ty, attrs_of(rest))),
        }
    }
}

fn parse_attrs(a: &str) -> (r: JsonValue)
    ensures
        r.deep_view() == attrs_of(a@),
{
    let ws = split_words(a);
    let ghost all = ws.deep_view();
    let mut o: Vec<(String, JsonValue)> = Vec::new();
    let mut i: usize = 0;
    assert(o.deep_view() =~= entries_put(seq![], attr_entries(all.take(0))));
    while i < ws.len()
        invariant
            i <= ws.len(),
            all == ws.deep_view(),
            o.deep_view() == entries_put(seq![], attr_entries(all.take(i as int))),
        decreases ws.len() - i,
    {
        let w = to_chars(ws[i].as_str());
        assert(all.take(i + 1).drop_last() =~= all.take(i as int));
        assert(all.take(i + 1).last() == w@);
        if let Some(eq) = find_one(&w, '=', 0) {
            proof {
                lemma_find_char(w@, '=', 0);
                assert(find_char(w@, '=', 0) == Some(eq as int));
                assert(eq < w.len());
            }
            let key = copy_range(&w, 0, eq);
            let val = copy_range(&w, eq + 1, w.len());
            assert(key@ =~= w@.take(eq as int));
            assert(val@ =~= w@.skip(eq + 1));
            let bare = trim_end_of_chars(&trim_of_chars(&trim_of_chars(&val, '"'), '\''), '/');
            let key_text = from_chars(&key);
            let ghost front = attr_entries(all.take(i as int));
            put_entry(&mut o, key_text.as_str(), JsonValue::Str(from_chars(&bare)));
            assert(attr_entries(all.take(i + 1)).drop_last() =~= front);
        }
        i = i + 1;
    }
    assert(all.take(i as int) =~= all);
    proof {
        lemma_object_model(o);
    }
    JsonValue::Object(o)
}

/// The structured block that a piece of HTML stands for.
pub fn parse_custom_component(html: &str) -> (r: Option<(CustomBlockType, JsonValue)>)
    ensures
        r.deep_view() == component_of(html@),
{
    let h = trim_chars(&to_chars(html));
    if h.len() == 0 || h[0] != '<' {
        return None;
    }
    proof {
        reveal_strlit("/>");
    }
    let close = to_chars("/>");
    if h.len() < 2 || !match_here(&h, &close, h.len() - 2) {
        return None;
    }
    assert(h@.subrange(h.len() - 2, h@.len() as int)[0] == '/');
    assert(h@.len() >= 3);
    let cut = copy_range(&h, 1, h.len() - 2);
    let inner = trim_chars(&cut);
    let n = crate::text::skip_word(&inner, 0);
    assert(inner@.skip(0) =~= inner@);
    let tag = copy_range(&inner, 0, n);
    assert(tag@ =~= inner@.take(n as int));
    let rest = if n < inner.len() {
        copy_range(&inner, n + 1, inner.len())
    } else {
        Vec::new()
    };
    assert(rest@ =~= if n < inner@.len() {
        inner@.skip(n + 1)
    } else {
        seq![]
    });
    let tag_text = from_chars(&tag);
    let ty = CustomBlockType::from_str(tag_text.as_str());
    let rest_text = from_chars(&rest);
    match ty {
        CustomBlockType::Custom(_) => None,
        _ => Some((ty, parse_attrs(rest_text.as_str()))),
    }
}

// ---- From the syntax tree to blocks ----------------------------------------

/// The kinds of node that become a block.
pub open spec fn is_block_node(t: Seq<char>) -> bool {
    ||| t == "heading"@
    ||| t == "paragraph"@
    ||| t == "code"@
    ||| t == "list"@
    ||| t == "listItem"@
    ||| t == "blockquote"@
    ||| t == "thematicBreak"@
    ||| t == "table"@
    ||| t == "tableRow"@
    ||| t == "tableCell"@
    ||| t == "image"@
    ||| t == "link"@
    ||| t == "emphasis"@
    ||| t == "strong"@
    ||| t == "inlineCode"@
    ||| t == "text"@
    ||| t == "break"@
    ||| t == "delete"@
    ||| t == "definition"@
    ||| t == "footnoteDefinition"@
    ||| t == "footnoteReference"@
}

fn block_node(t: &str) -> (r: bool)
    ensures
        r == is_block_node(t@),
{
    same(t, "heading") || same(t, "paragraph") || same(t, "code") || same(t, "list") || same(
        t,
        "listItem",
    ) || same(t, "blockquote") || same(t, "thematicBreak") || same(t, "table") || same(
        t,
        "tableRow",
    ) || same(t, "tableCell") || same(t, "image") || same(t, "link") || same(t, "emphasis")
        || same(t, "strong") || same(t, "inlineCode") || same(t, "text") || same(t, "break")
        || same(t, "delete") || same(t, "definition") || same(t, "footnoteDefinition") || same(
        t,
        "footnoteReference",
    )
}

/// One end of the position of a node.
pub open spec fn offset_of(node: Json, end: Seq<char>) -> Option<u64> {
    match member(node, "position"@) {
        Some(p) => match member(p, end) {
            Some(x) => match member(x, "offset"@) {
                Some(v) => crate::json::as_unsigned(v),
                None => None,
            },
            None => None,
        },
        None => None,
    }
}

/// The bytes of the source that a node stands for, where its position gives a
/// part of the source.
pub open spec fn span_of(node: Json, source: Seq<u8>) -> Option<(int, int)> {
    match (offset_of(node, "start"@), offset_of(node, "end"@)) {
        (Some(s), Some(e)) => if s < e && e <= source.len() {
            Some((s as int, e as int))
        } else {
            None
        },
        _ => None,
    }
}

/// The bytes of the source at the position of a node.
pub open spec fn raw_of(node: Json, source: Seq<u8>) -> Seq<u8> {
    match span_of(node, source) {
        Some((s, e)) => source.subrange(s, e),
        None => seq![],
    }
}

/// The position of a node does not cut a character in two.
pub open spec fn cuts_well(node: Json, source: Seq<u8>) -> bool {
    match span_of(node, source) {
        Some((s, e)) => {
            &&& vstd::utf8::is_char_boundary(source, e)
            &&& vstd::utf8::is_char_boundary(source.subrange(0, e), s)
        },
        None => true,
    }
}

/// The kind of a node.
pub open spec fn node_type(node: Json) -> Seq<char> {
    match text_of(member(node, "type"@)) {
        Some(t) => t,
        None => "unknown"@,
    }
}

/// The value of a node.
pub open spec fn node_value(node: Json) -> Seq<char> {
    match text_of(member(node, "value"@)) {
        Some(t) => t,
        None => ""@,
    }
}

/// What a node becomes a block from.
#[verifier::ext_equal]
pub enum DraftM {
    Markdown { ast: Json, node_type: Seq<char>, raw: Seq<u8> },
    Custom { ty: CustomBlockTypeM, data: Json, raw: Seq<char> },
}

/// The block that a node becomes, if any.
pub open spec fn draft_of(node: Json, source: Seq<u8>) -> Option<DraftM> {
    if node_type(node) == "html"@ {
        match component_of(node_value(node)) {
            Some((ty, data)) => Some(DraftM::Custom { ty, data, raw: node_value(node) }),
            None => Some(
                DraftM::Markdown { ast: node, node_type: "html"@, raw: raw_of(node, source) },
            ),
        }
    } else if is_block_node(node_type(node)) {
        Some(DraftM::Markdown { ast: node, node_type: node_type(node), raw: raw_of(node, source) })
    } else {
        None
    }
}

/// The children of a node.
pub open spec fn node_children(node: Json) -> Option<Seq<Json>> {
    match member(node, "children"@) {
        Some(Json::Array(a)) => Some(a),
        _ => None,
    }
}

/// The blocks of a tree: that of its root, then those of its children.
pub open spec fn drafts_of(node: Json, source: Seq<u8>) -> Seq<DraftM>
    decreases node,
{
    let own = match draft_of(node, source) {
        Some(d) => seq![d],
        None => seq![],
    };
    match node_children(node) {
        Some(a) => {
            proof {
                lemma_member_below(node, "children"@);
            }
            own + drafts_in(a, source)
        },
        None => own,
    }
}

/// The blocks of several trees, one after the other.
pub open spec fn drafts_in(nodes: Seq<Json>, source: Seq<u8>) -> Seq<DraftM>
    decreases nodes,
{
    if nodes.len() == 0 {
        seq![]
    } else {
        drafts_in(nodes.drop_last(), source) + drafts_of(nodes[nodes.len() - 1], source)
    }
}

/// No position that becomes the source of a block cuts a character in two.
pub open spec fn tree_cuts_well(node: Json, source: Seq<u8>) -> bool
    decreases node,
{
    &&& draft_of(node, source) is Some && !(draft_of(node, source)->0 is Custom) ==> cuts_well(
        node,
        source,
    )
    &&& match node_children(node) {
        Some(a) => {
            proof {
                lemma_member_below(node, "children"@);
            }
            trees_cut_well(a, source)
        },
        None => true,
    }
}

pub open spec fn trees_cut_well(nodes: Seq<Json>, source: Seq<u8>) -> bool
    decreases nodes,
{
    nodes.len() == 0 || trees_cut_well(nodes.drop_last(), source) && tree_cuts_well(
        nodes[nodes.len() - 1],
        source,
    )
}

/// A block was made from a draft.
pub open spec fn drafted(b: Block, d: DraftM, author: Seq<char>) -> bool {
    match d {
        DraftM::Markdown { ast, node_type, raw } => b matches Block::Markdown(m) && {
            &&& uuid_text(m.id.deep_view(), '7')
            &&& m.ast.deep_view() == ast
            &&& m.node_type@ == node_type
            &&& vstd::utf8::encode_utf8(m.raw@) == raw
            &&& m.version == 0
            &&& m.embedding is None
            &&& m.embedding_version == 0
            &&& m.meta.created_by@ == author
            &&& m.meta.updated_at == m.meta.created_at
        },
        DraftM::Custom { ty, data, raw } => fresh_custom(b, ty, data, raw, author, None),
    }
}

/// Blocks were made from drafts.
pub open spec fn all_drafted(bs: Seq<Block>, ds: Seq<DraftM>, author: Seq<char>) -> bool {
    bs.len() == ds.len() && forall|i: int|
        0 <= i < bs.len() ==> drafted(#[trigger] bs[i], ds[i], author)
}

fn node_offset(node: &JsonValue, end: &str) -> (r: Option<u64>)
    ensures
        r == offset_of(node.deep_view(), end@),
{
    match node.get("position") {
        Some(p) => match p.get(end) {
            Some(x) => match x.get("offset") {
                Some(v) => v.as_u64(),
                None => None,
            },
            None => None,
        },
        None => None,
    }
}

/// The part of the source that a node stands for; `None` where its position
/// cuts a character in two.
fn cut_source(source: &str, node: &JsonValue) -> (r: Option<String>)
    ensures
        match r {
            Some(t) => cuts_well(node.deep_view(), source.spec_bytes()) && vstd::utf8::encode_utf8(
                t@,
            ) == raw_of(node.deep_view(), source.spec_bytes()),
            None => !cuts_well(node.deep_view(), source.spec_bytes()),
        },
{
    let len: usize = source.as_bytes().len();
    match (node_offset(node, "start"), node_offset(node, "end")) {
        (Some(s), Some(e)) => {
            if s < e && e <= len as u64 {
                let s = s as usize;
                let e = e as usize;
                if !source.is_char_boundary(e) {
                    return None;
                }
                let (front, _) = source.split_at(e);
                assert(front.spec_bytes() == source.spec_bytes().subrange(0, e as int));
                if !front.is_char_boundary(s) {
                    return None;
                }
                let (_, piece) = front.split_at(s);
                assert(piece.spec_bytes() =~= source.spec_bytes().subrange(s as int, e as int));
                Some(piece.to_owned())
            } else {
                Some(String::new())
            }
        },
        _ => Some(String::new()),
    }
}

/// Adds the blocks of a tree; `false` where a position cuts a character in
/// two.
fn flatten_into(
    node: &JsonValue,
    raw_source: &str,
    out: &mut Vec<Block>,
    author: &str,
) -> (r: bool)
    ensures
        r == tree_cuts_well(node.deep_view(), raw_source.spec_bytes()),
        r ==> {
            let ds = drafts_of(node.deep_view(), raw_source.spec_bytes());
            &&& final(out)@.len() == old(out)@.len() + ds.len()
            &&& forall|k: int| 0 <= k < old(out)@.len() ==> final(out)@[k] == old(out)@[k]
            &&& forall|k: int| #![trigger final(out)@[k]]
                old(out)@.len() <= k < final(out)@.len() ==> drafted(
                    final(out)@[k],
                    ds[k - old(out)@.len()],
                    author@,
                )
        },
    decreases node.deep_view(),
{
    let ghost j = node.deep_view();
    let ghost src = raw_source.spec_bytes();
    let ghost start = out@;
    let nt = match node.get_str("type") {
        Some(t) => t,
        None => "unknown",
    };
    assert(nt@ == node_type(j));
    if same(nt, "html") {
        let hv = match node.get_str("value") {
            Some(t) => t,
            None => "",
        };
        assert(hv@ == node_value(j));
        match parse_custom_component(hv) {
            Some((ty, data)) => {
                out.push(Block::custom(ty, data, hv, author));
            },
            None => match cut_source(raw_source, node) {
                Some(raw) => {
                    out.push(Block::markdown(node.clone(), "html", raw.as_str(), author));
                },
                None => {
                    return false;
                },
            },
        }
    } else if block_node(nt) {
        match cut_source(raw_source, node) {
            Some(raw) => {
                out.push(Block::markdown(node.clone(), nt, raw.as_str(), author));
            },
            None => {
                return false;
            },
        }
    }
    let ghost own: Seq<DraftM> = match draft_of(j, src) {
        Some(d) => seq![d],
        None => seq![],
    };
    let ghost n0 = start.len() as int;
    assert(out@.len() == n0 + own.len());
    assert(forall|k: int| n0 <= k < out@.len() ==> drafted(#[trigger] out@[k], own[k - n0], author@));
    if let Some(v) = node.get("children") {
        if let Some(a) = v.as_array() {
            let ghost all = a.deep_view();
            proof {
                lemma_member_below(j, "children"@);
            }
            let mut i: usize = 0;
            assert(own + drafts_in(all.take(0), src) =~= own);
            while i < a.len()
                invariant
                    i <= a.len(),
                    j == node.deep_view(),
                    src == raw_source.spec_bytes(),
                    all == a.deep_view(),
                    node_children(j) == Some(all),
                    decreases_to!(j => all),
                    n0 == start.len(),
                    trees_cut_well(all.take(i as int), src),
                    out@.len() == n0 + (own + drafts_in(all.take(i as int), src)).len(),
                    forall|k: int| 0 <= k < n0 ==> out@[k] == start[k],
                    forall|k: int| #![trigger out@[k]]
                        n0 <= k < out@.len() ==> drafted(
                            out@[k],
                            (own + drafts_in(all.take(i as int), src))[k - n0],
                            author@,
                        ),
                decreases a.len() - i,
            {
                assert(all[i as int] == a@[i as int].deep_view());
                assert(decreases_to!(all => all[i as int]));
                assert(all.take(i + 1).drop_last() =~= all.take(i as int));
                let ghost mid = out@;
                let ok = flatten_into(&a[i], raw_source, out, author);
                if !ok {
                    proof {
                        lemma_trees_stop(all, src, i + 1);
                    }
                    return false;
                }
                let ghost ds = drafts_of(all[i as int], src);
                let ghost sofar = own + drafts_in(all.take(i as int), src);
                assert(own + drafts_in(all.take(i + 1), src) =~= sofar + ds);
                assert forall|k: int| #![trigger out@[k]]
                    n0 <= k < out@.len() implies drafted(out@[k], (sofar + ds)[k - n0], author@) by {
                    if k < mid.len() {
                        assert(out@[k] == mid[k]);
                    }
                }
                i = i + 1;
            }
            assert(all.take(i as int) =~= all);
        }
    }
    true
}

proof fn lemma_trees_stop(nodes: Seq<Json>, source: Seq<u8>, n: int)
    requires
        0 <= n <= nodes.len(),
        !trees_cut_well(nodes.take(n), source),
    ensures
        !trees_cut_well(nodes, source),
    decreases nodes.len() - n,
{
    if n < nodes.len() {
        assert(nodes.take(n + 1).drop_last() =~= nodes.take(n));
        lemma_trees_stop(nodes, source, n + 1);
    } else {
        assert(nodes.take(n) =~= nodes);
    }
}

/// Adds the blocks of a tree to a list.
pub fn flatten_ast_to_blocks(
    node: &JsonValue,
    raw_source: &str,
    author: &str,
) -> (r: Vec<Block>)
    requires
        tree_cuts_well(node.deep_view(), raw_source.spec_bytes()),
    ensures
        all_drafted(
            r@,
            drafts_of(node.deep_view(), raw_source.spec_bytes()),
            author@,
        ),
{
    let mut out: Vec<Block> = Vec::new();
    let _ok = flatten_into(node, raw_source, &mut out, author);
    out
}

/// The outcome of turning the syntax tree of a source into blocks.
pub open spec fn tree_read(tree: Json, source: Seq<u8>, r: Result<Vec<Block>, WikiError>) -> bool {
    if tree_cuts_well(tree, source) {
        r matches Ok(bs) && all_drafted(bs@, drafts_of(tree, source), "system"@)
    } else {
        r matches Err(x) && x.deep_view() == WikiErrorM::Invalid(
            "markdown position inside a character"@,
        )
    }
}

/// The outcome of reading Markdown into blocks.
pub open spec fn blocks_read(md: Seq<char>, r: Result<Vec<Block>, WikiError>) -> bool {
    match ast_outcome(md) {
        Err(e) => r matches Err(x) && x.deep_view() == e,
        Ok(tree) => tree_read(tree, vstd::utf8::encode_utf8(md), r),
    }
}

/// Turns the syntax tree of a source into blocks.
pub fn read_tree(tree: &JsonValue, md: &str) -> (r: Result<Vec<Block>, WikiError>)
    ensures
        tree_read(tree.deep_view(), md.spec_bytes(), r),
{
    let mut out: Vec<Block> = Vec::new();
    if flatten_into(tree, md, &mut out, "system") {
        assert(all_drafted(out@, drafts_of(tree.deep_view(), md.spec_bytes()), "system"@));
        Ok(out)
    } else {
        Err(WikiError::Invalid("markdown position inside a character".to_owned()))
    }
}

/// Reads Markdown into blocks.
pub fn parse_markdown_to_blocks(md: &str) -> (r: Result<Vec<Block>, WikiError>)
    ensures
        blocks_read(md@, r),
{
    match parse_to_ast(md) {
        Err(e) => Err(e),
        Ok(tree) => read_tree(&tree, md),
    }
}


// ---- The page --------------------------------------------------------------

/// A page.
#[derive(Debug, PartialEq)]
pub struct Document {
    pub id: DocId,
    pub title: String,
    pub space_id: SpaceId,
    pub content_type: ContentType,
    pub status: DocumentStatus,
    pub path: Option<String>,
    /// Counts the operations applied.
    pub version: u64,
    pub tags: Vec<String>,
    pub icon: Option<String>,
    pub cover: Option<String>,
    pub author: String,
    pub created_at: Timestamp,
    pub updated_at: Timestamp,
    /// The source, front matter and all.
    pub raw_markdown: String,
    pub blocks: Vec<Block>,
    pub summary: Option<String>,
    pub overview: Option<String>,
    pub derivation: Option<DerivationChain>,
}

/// What a `Document` holds.
#[verifier::ext_equal]
pub struct DocumentM {
    pub id: Seq<char>,
    pub title: Seq<char>,
    pub space_id: SpaceIdM,
    pub content_type: ContentType,
    pub status: DocumentStatus,
    pub path: Option<Seq<char>>,
    pub version: u64,
    pub tags: Seq<Seq<char>>,
    pub icon: Option<Seq<char>>,
    pub cover: Option<Seq<char>>,
    pub author: Seq<char>,
    pub created_at: Timestamp,
    pub updated_at: Timestamp,
    pub raw_markdown: Seq<char>,
    pub blocks: Seq<BlockM>,
    pub summary: Option<Seq<char>>,
    pub overview: Option<Seq<char>>,
    pub derivation: Option<DerivationChainM>,
}

impl DeepView for Document {
    type V = DocumentM;

    open spec fn deep_view(&self) -> DocumentM {
        DocumentM {
            id: self.id.deep_view(),
            title: self.title.deep_view(),
            space_id: self.space_id.deep_view(),
            content_type: self.content_type,
            status: self.status,
            path: self.path.deep_view(),
            version: self.version,
            tags: self.tags.deep_view(),
            icon: self.icon.deep_view(),
            cover: self.cover.deep_view(),
            author: self.author.deep_view(),
            created_at: self.created_at,
            updated_at: self.updated_at,
            raw_markdown: self.raw_markdown.deep_view(),
            blocks: self.blocks.deep_view(),
            summary: self.summary.deep_view(),
            overview: self.overview.deep_view(),
            derivation: self.derivation.deep_view(),
        }
    }
}

impl Clone for Document {
    fn clone(&self) -> (r: Self)
        ensures
            r.deep_view() == self.deep_view(),
    {
        Document {
            id: self.id.clone(),
            title: self.title.clone(),
            space_id: self.space_id.clone(),
            content_type: self.content_type,
            status: self.status,
            path: self.path.clone(),
            version: self.version,
            tags: self.tags.clone(),
            icon: self.icon.clone(),
            cover: self.cover.clone(),
            author: self.author.clone(),
            created_at: self.created_at,
            updated_at: self.updated_at,
            raw_markdown: self.raw_markdown.clone(),
            blocks: self.blocks.clone(),
            summary: self.summary.clone(),
            overview: self.overview.clone(),
            derivation: self.derivation.clone(),
        }
    }
}

/// A change of a page.
#[derive(Debug, PartialEq)]
pub enum Op {
    /// The text was edited elsewhere, starting from a version.
    TextUpdate { patch: String, base_version: u64 },
    /// Merges a patch into the data of a structured block.
    BlockUpdate { block_id: BlockId, patch: JsonValue },
    /// Adds a block, behind a sibling where it has a parent.
    InsertBlock { after: Option<BlockId>, block: Block },
    /// Removes a block with all that hangs under it.
    DeleteBlock { block_id: BlockId },
    /// Hangs a block elsewhere.
    MoveBlock { id: BlockId, new_parent: BlockId, after: Option<BlockId> },
    /// Changes title, tags, status or path.
    UpdateMeta { patch: JsonValue },
}

/// What a `Op` holds.
#[verifier::ext_equal]
pub enum OpM {
    TextUpdate { patch: Seq<char>, base_version: u64 },
    BlockUpdate { block_id: Seq<char>, patch: Json },
    InsertBlock { after: Option<Seq<char>>, block: BlockM },
    DeleteBlock { block_id: Seq<char> },
    MoveBlock { id: Seq<char>, new_parent: Seq<char>, after: Option<Seq<char>> },
    UpdateMeta { patch: Json },
}

impl DeepView for Op {
    type V = OpM;

    open spec fn deep_view(&self) -> OpM {
        match self {
            Op::TextUpdate { patch, base_version } => OpM::TextUpdate {
                patch: patch.deep_view(),
                base_version: *base_version,
            },
            Op::BlockUpdate { block_id, patch } => OpM::BlockUpdate {
                block_id: block_id.deep_view(),
                patch: patch.deep_view(),
            },
            Op::InsertBlock { after, block } => OpM::InsertBlock {
                after: after.deep_view(),
                block: block.deep_view(),
            },
            Op::DeleteBlock { block_id } => OpM::DeleteBlock { block_id: block_id.deep_view() },
            Op::MoveBlock { id, new_parent, after } => OpM::MoveBlock {
                id: id.deep_view(),
                new_parent: new_parent.deep_view(),
                after: after.deep_view(),
            },
            Op::UpdateMeta { patch } => OpM::UpdateMeta { patch: patch.deep_view() },
        }
    }
}

impl Clone for Op {
    fn clone(&self) -> (r: Self)
        ensures
            r.deep_view() == self.deep_view(),
    {
        match self {
            Op::TextUpdate { patch, base_version } => Op::TextUpdate {
                patch: patch.clone(),
                base_version: *base_version,
            },
            Op::BlockUpdate { block_id, patch } => Op::BlockUpdate {
                block_id: block_id.clone(),
                patch: patch.clone(),
            },
            Op::InsertBlock { after, block } => Op::InsertBlock {
                after: after.clone(),
                block: block.clone(),
            },
            Op::DeleteBlock { block_id } => Op::DeleteBlock { block_id: block_id.clone() },
            Op::MoveBlock { id, new_parent, after } => Op::MoveBlock {
                id: id.clone(),
                new_parent: new_parent.clone(),
                after: after.clone(),
            },
            Op::UpdateMeta { patch } => Op::UpdateMeta { patch: patch.clone() },
        }
    }
}

/// The fields of a page that are its own, apart from its blocks, its identity
/// and its times.
pub open spec fn fresh_page(
    d: DocumentM,
    front: FrontmatterM,
    content_type: ContentType,
    status: DocumentStatus,
    raw: Seq<char>,
    body: Seq<char>,
    space_id: SpaceIdM,
) -> bool {
    &&& uuid_text(d.id, '7')
    &&& d.derivation is Some
    &&& d == DocumentM {
        id: d.id,
        title: match front.title {
            Some(t) => t,
            None => "Untitled"@,
        },
        space_id,
        content_type,
        status,
        path: front.path,
        version: 0,
        tags: match front.tags {
            Some(t) => t,
            None => seq![],
        },
        icon: front.icon,
        cover: front.cover,
        author: match front.author {
            Some(a) => a,
            None => "unknown"@,
        },
        created_at: d.created_at,
        updated_at: d.created_at,
        raw_markdown: raw,
        blocks: d.blocks,
        summary: None,
        overview: None,
        derivation: Some(new_chain(body, d.derivation->0.last_derived)),
    }
}

/// The front matter that a page made by hand stands for.
pub open spec fn hand_made(title: Seq<char>, author: Seq<char>) -> FrontmatterM {
    FrontmatterM { author: Some(author), ..title_only(Some(title)) }
}

/// The page source that `to_markdown` writes.
pub open spec fn markdown_of(d: DocumentM, created: Seq<char>) -> Seq<char> {
    "---\n"@ + ("title: "@ + d.title + "\n"@) + ("content_type: "@ + content_name(d.content_type)
        + "\n"@) + (if d.tags.len() > 0 {
        "tags: ["@ + joined(d.tags, ", "@) + "]\n"@
    } else {
        seq![]
    }) + ("status: "@ + status_name(d.status) + "\n"@) + (match d.path {
        Some(p) => "path: "@ + p + "\n"@,
        None => seq![],
    }) + ("author: "@ + d.author + "\n"@) + ("created_at: "@ + created + "\n"@)
        + "---\n\n"@ + texts_of(d.blocks)
}

/// The texts of blocks as they are written into a page, one after the other.
pub open spec fn texts_of(bs: Seq<BlockM>) -> Seq<char>
    decreases bs.len(),
{
    if bs.len() == 0 {
        seq![]
    } else {
        texts_of(bs.drop_last()) + bs.last().diffable_text()
    }
}

/// The blocks that identities belong to, in order.
pub open spec fn found_blocks(bs: Seq<BlockM>, ids: Seq<Seq<char>>) -> Seq<BlockM>
    decreases ids.len(),
{
    if ids.len() == 0 {
        seq![]
    } else {
        let front = found_blocks(bs, ids.drop_last());
        match block_of(bs, ids.last()) {
            Some(b) => front.push(b),
            None => front,
        }
    }
}

impl Document {
    fn assemble(
        front: Frontmatter,
        content_type: ContentType,
        status: DocumentStatus,
        raw: &str,
        body: &str,
        blocks: Vec<Block>,
        space_id: SpaceId,
    ) -> (r: Document)
        ensures
            fresh_page(
                r.deep_view(),
                front.deep_view(),
                content_type,
                status,
                raw@,
                body@,
                space_id.deep_view(),
            ),
            r.blocks == blocks,
    {
        let derivation = DerivationChain::new(body);
        let now = Timestamp::now();
        let title = match front.title {
            Some(t) => t,
            None => "Untitled".to_owned(),
        };
        let tags = match front.tags {
            Some(t) => t,
            None => Vec::new(),
        };
        let author = match front.author {
            Some(a) => a,
            None => "unknown".to_owned(),
        };
        let r = Document {
            id: DocId::new(),
            title,
            space_id,
            content_type,
            status,
            path: front.path,
            version: 0,
            tags,
            icon: front.icon,
            cover: front.cover,
            author,
            created_at: now,
            updated_at: now,
            raw_markdown: raw.to_owned(),
            blocks,
            summary: None,
            overview: None,
            derivation: Some(derivation),
        };
        assert(front.tags is None ==> r.deep_view().tags =~= seq![]);
        r
    }

    /// Reads a page. `parsed` is what the text given by `frontmatter_yaml` was
    /// read as, or nothing if that failed.
    pub fn parse(raw: &str, parsed: Option<Frontmatter>, space_id: SpaceId) -> (r: Result<
        Document,
        WikiError,
    >)
        ensures
            match r {
                Ok(d) => {
                    let front = front_of(raw@, parsed.deep_view());
                    &&& blocks_read(body_of(raw@), Ok(d.blocks))
                    &&& fresh_page(
                        d.deep_view(),
                        front,
                        match front.content_type {
                            Some(s) => match content_named(s) {
                                Some(t) => t,
                                None => ContentType::Article,
                            },
                            None => ContentType::Article,
                        },
                        match front.status {
                            Some(s) => match status_named(s) {
                                Some(t) => t,
                                None => DocumentStatus::Active,
                            },
                            None => DocumentStatus::Active,
                        },
                        raw@,
                        body_of(raw@),
                        space_id.deep_view(),
                    )
                },
                Err(e) => blocks_read(body_of(raw@), Err(e)),
            },
    {
        let (front, body) = parse_frontmatter(raw, parsed);
        let content_type = match &front.content_type {
            Some(s) => match ContentType::from_str(s.as_str()) {
                Some(t) => t,
                None => ContentType::Article,
            },
            None => ContentType::Article,
        };
        let status = match &front.status {
            Some(s) => match DocumentStatus::from_str(s.as_str()) {
                Some(t) => t,
                None => DocumentStatus::Active,
            },
            None => DocumentStatus::Active,
        };
        match parse_markdown_to_blocks(body.as_str()) {
            Err(e) => Err(e),
            Ok(blocks) => Ok(
                Document::assemble(
                    front,
                    content_type,
                    status,
                    raw,
                    body.as_str(),
                    blocks,
                    space_id,
                ),
            ),
        }
    }

    /// A new page with a source that has no front matter.
    pub fn new(
        title: &str,
        content_type: ContentType,
        raw_markdown: &str,
        space_id: SpaceId,
        author: &str,
    ) -> (r: Result<Document, WikiError>)
        ensures
            match r {
                Ok(d) => {
                    &&& blocks_read(raw_markdown@, Ok(d.blocks))
                    &&& fresh_page(
                        d.deep_view(),
                        hand_made(title@, author@),
                        content_type,
                        DocumentStatus::Active,
                        raw_markdown@,
                        raw_markdown@,
                        space_id.deep_view(),
                    )
                },
                Err(e) => blocks_read(raw_markdown@, Err(e)),
            },
    {
        match parse_markdown_to_blocks(raw_markdown) {
            Err(e) => Err(e),
            Ok(blocks) => {
                let mut front = Frontmatter::titled(Some(title.to_owned()));
                front.author = Some(author.to_owned());
                Ok(
                    Document::assemble(
                        front,
                        content_type,
                        DocumentStatus::Active,
                        raw_markdown,
                        raw_markdown,
                        blocks,
                        space_id,
                    ),
                )
            },
        }
    }

    /// Writes the page: front matter, then the blocks.
    pub fn to_markdown(&self) -> (r: String)
        ensures
            r@ == markdown_of(self.deep_view(), rfc3339(self.created_at)),
            plain_fields(self.deep_view()) ==> body_of(r@) == trim_start(
                texts_of(self.deep_view().blocks),
            ),
    {
        let created = self.created_at.to_rfc3339();
        proof {
            if plain_fields(self.deep_view()) {
                law_written_page_read_back(self.deep_view(), created@);
            }
        }
        self.to_markdown_dated(created.as_str())
    }

    /// The page as Markdown with front matter, where `created` is the time of
    /// its making in words.
    pub fn to_markdown_dated(&self, created: &str) -> (r: String)
        ensures
            r@ == markdown_of(self.deep_view(), created@),
    {
        let ghost d = self.deep_view();
        let mut out = "---\n".to_owned();
        let title = cat3("title: ", self.title.as_str(), "\n");
        out.push_str(title.as_str());
        let kind = cat3("content_type: ", self.content_type.as_str(), "\n");
        out.push_str(kind.as_str());
        if self.tags.len() > 0 {
            let tags = join(&self.tags, ", ");
            let line = cat3("tags: [", tags.as_str(), "]\n");
            out.push_str(line.as_str());
        } else {
            assert(out@ + Seq::<char>::empty() =~= out@);
        }
        let status = cat3("status: ", self.status.as_str(), "\n");
        out.push_str(status.as_str());
        match &self.path {
            Some(p) => {
                let line = cat3("path: ", p.as_str(), "\n");
                out.push_str(line.as_str());
            },
            None => {
                assert(out@ + Seq::<char>::empty() =~= out@);
            },
        }
        let author = cat3("author: ", self.author.as_str(), "\n");
        out.push_str(author.as_str());
        let line = cat3("created_at: ", created, "\n");
        out.push_str(line.as_str());
        out.push_str("---\n\n");
        let ghost head = out@;
        let mut i: usize = 0;
        assert(head + texts_of(d.blocks.take(0)) =~= head);
        while i < self.blocks.len()
            invariant
                i <= self.blocks.len(),
                d == self.deep_view(),
                out@ == head + texts_of(d.blocks.take(i as int)),
            decreases self.blocks.len() - i,
        {
            let text = self.blocks[i].to_diffable_text();
            out.push_str(text.as_str());
            assert(d.blocks.take(i + 1).drop_last() =~= d.blocks.take(i as int));
            assert(d.blocks.take(i + 1).last() == self.blocks@[i as int].deep_view());
            assert(out@ =~= head + texts_of(d.blocks.take(i + 1)));
            i = i + 1;
        }
        assert(d.blocks.take(i as int) =~= d.blocks);
        out
    }

    /// Reads the blocks of the page anew from its source.
    pub fn reparse(&mut self) -> (r: Result<(), WikiError>)
        ensures
            match r {
                Ok(_) => {
                    &&& blocks_read(body_of(old(self).raw_markdown@), Ok(final(self).blocks))
                    &&& final(self).deep_view() == (DocumentM {
                        blocks: final(self).deep_view().blocks,
                        updated_at: final(self).updated_at,
                        ..old(self).deep_view()
                    })
                },
                Err(e) => blocks_read(body_of(old(self).raw_markdown@), Err(e)) && *final(self)
                    == *old(self),
            },
    {
        let body = frontmatter_body(self.raw_markdown.as_str());
        match parse_markdown_to_blocks(body.as_str()) {
            Err(e) => Err(e),
            Ok(blocks) => {
                self.blocks = blocks;
                self.updated_at = Timestamp::now();
                Ok(())
            },
        }
    }

    pub fn block(&self, id: &BlockId) -> (r: Option<&Block>)
        ensures
            match r {
                Some(b) => block_of(self.deep_view().blocks, id.deep_view()) == Some(b.deep_view()),
                None => block_of(self.deep_view().blocks, id.deep_view()) is None,
            },
    {
        find_block(&self.blocks, id)
    }

    /// The block with the identity, to be changed in its place.
    pub fn block_mut(&mut self, id: &BlockId) -> (r: Option<&mut Block>)
        ensures
            match r {
                Some(b) => {
                    let at = block_at(old(self).deep_view().blocks, id.deep_view());
                    &&& at is Some
                    &&& 0 <= at->0 < old(self).blocks@.len()
                    &&& *b == old(self).blocks@[at->0]
                    &&& final(self).blocks@ == old(self).blocks@.update(at->0, *final(b))
                    &&& final(self).deep_view() == (DocumentM {
                        blocks: final(self).deep_view().blocks,
                        ..old(self).deep_view()
                    })
                },
                None => block_at(old(self).deep_view().blocks, id.deep_view()) is None
                    && *final(self) == *old(self),
            },
    {
        find_block_mut(&mut self.blocks, id)
    }

    pub fn children_of(&self, parent: &BlockId) -> (r: Vec<&Block>)
        ensures
            r@.len() == keep(self.deep_view().blocks, hangs_on(parent.deep_view())).len(),
            forall|i: int|
                0 <= i < r@.len() ==> (#[trigger] r@[i]).deep_view() == keep(
                    self.deep_view().blocks,
                    hangs_on(parent.deep_view()),
                )[i],
    {
        children_of(&self.blocks, parent)
    }

    pub fn descendants(&self, root: &BlockId) -> (r: Vec<BlockId>)
        requires
            grounded(self.deep_view().blocks, root.deep_view()),
        ensures
            r.deep_view() == subtree(self.deep_view().blocks, root.deep_view()),
    {
        descendants(&self.blocks, root)
    }

    /// The blocks under `root` with itself, each before its children and these
    /// in order.
    pub fn walk(&self, root: &BlockId) -> (r: Vec<&Block>)
        requires
            grounded(self.deep_view().blocks, root.deep_view()),
        ensures
            ({
                let bs = self.deep_view().blocks;
                let found = found_blocks(bs, subtree(bs, root.deep_view()));
                r@.len() == found.len() && forall|i: int|
                    0 <= i < r@.len() ==> (#[trigger] r@[i]).deep_view() == found[i]
            }),
    {
        let ids = descendants(&self.blocks, root);
        let ghost bs = self.deep_view().blocks;
        let ghost all = ids.deep_view();
        let mut r: Vec<&Block> = Vec::new();
        let mut i: usize = 0;
        while i < ids.len()
            invariant
                i <= ids.len(),
                bs == self.deep_view().blocks,
                all == ids.deep_view(),
                r@.len() == found_blocks(bs, all.take(i as int)).len(),
                forall|k: int|
                    0 <= k < r@.len() ==> (#[trigger] r@[k]).deep_view() == found_blocks(
                        bs,
                        all.take(i as int),
                    )[k],
            decreases ids.len() - i,
        {
            assert(all.take(i + 1).drop_last() =~= all.take(i as int));
            assert(all.take(i + 1).last() == ids@[i as int].deep_view());
            if let Some(b) = self.block(&ids[i]) {
                r.push(b);
            }
            i = i + 1;
        }
        assert(all.take(i as int) =~= all);
        r
    }

    /// The source without its front matter.
    pub fn body_owned(&self) -> (r: String)
        ensures
            r@ == body_of(self.raw_markdown@),
    {
        frontmatter_body(self.raw_markdown.as_str())
    }

    /// Sets the summary and records how it was made.
    pub fn set_summary(&mut self, text: String, rule: DerivationRule)
        ensures
            final(self).deep_view() == (DocumentM {
                summary: Some(text@),
                derivation: match old(self).deep_view().derivation {
                    Some(c) => Some(
                        DerivationChainM {
                            l0_rule: Some(rule.deep_view()),
                            last_derived: final(self).deep_view().derivation->0.last_derived,
                            ..c
                        },
                    ),
                    None => None,
                },
                ..old(self).deep_view()
            }),
    {
        self.summary = Some(text);
        if let Some(chain) = &self.derivation {
            let mut chain = chain.clone();
            chain.set_l0(rule);
            self.derivation = Some(chain);
        }
    }

    /// Sets the overview and records how it was made.
    pub fn set_overview(&mut self, text: String, rule: DerivationRule)
        ensures
            final(self).deep_view() == (DocumentM {
                overview: Some(text@),
                derivation: match old(self).deep_view().derivation {
                    Some(c) => Some(
                        DerivationChainM {
                            l1_rule: Some(rule.deep_view()),
                            last_derived: final(self).deep_view().derivation->0.last_derived,
                            ..c
                        },
                    ),
                    None => None,
                },
                ..old(self).deep_view()
            }),
    {
        self.overview = Some(text);
        if let Some(chain) = &self.derivation {
            let mut chain = chain.clone();
            chain.set_l1(rule);
            self.derivation = Some(chain);
        }
    }

    /// Whether the source has changed since the summaries were derived.
    pub fn is_derivation_stale(&self) -> (r: bool)
        ensures
            r == derivation_stale(self.deep_view()),
    {
        let body = self.body_owned();
        match &self.derivation {
            Some(chain) => chain.is_stale(body.as_str()),
            None => true,
        }
    }
}

/// The source has changed since the summaries were derived, or no record of a
/// derivation exists.
pub open spec fn derivation_stale(d: DocumentM) -> bool {
    match d.derivation {
        Some(c) => blake3_hex(body_of(d.raw_markdown)) != c.l2_hash,
        None => true,
    }
}

/// A page just read is not stale.
pub proof fn law_fresh_page_not_stale(
    d: DocumentM,
    front: FrontmatterM,
    content_type: ContentType,
    status: DocumentStatus,
    space_id: SpaceIdM,
)
    requires
        fresh_page(
            d,
            front,
            content_type,
            status,
            d.raw_markdown,
            body_of(d.raw_markdown),
            space_id,
        ),
    ensures
        !derivation_stale(d),
{
}

} // verus!
