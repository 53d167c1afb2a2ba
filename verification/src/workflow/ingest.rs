//! Taking in a source: what the language model is asked about it, which pages
//! it touches, and what is written.

use vstd::prelude::*;

use crate::ids::DocId;
use crate::llm::engine::at_most;
use crate::llm::unit::{TextUnit, TextUnitM};
use crate::text::{cat, cat3, first_chars, join, joined, same, take_chars};
use crate::tree::block::{Block, BlockM, BlockType};
use crate::tree::doc::{kids, Document, DocumentM, Op, OpM};
use crate::workflow::reply::{fresh_text_block, json_payload, payload, slug_of, slugify, text_block};

verus! {

broadcast use vstd::std_specs::vec::group_vec_axioms;

/// What is taken in.
#[derive(Debug, PartialEq)]
pub struct IngestSource {
    pub content: String,
    pub title: Option<String>,
    pub source_url: Option<String>,
}

/// What a `IngestSource` holds.
#[verifier::ext_equal]
pub struct IngestSourceM {
    pub content: Seq<char>,
    pub title: Option<Seq<char>>,
    pub source_url: Option<Seq<char>>,
}

impl DeepView for IngestSource {
    type V = IngestSourceM;

    open spec fn deep_view(&self) -> IngestSourceM {
        IngestSourceM {
            content: self.content.deep_view(),
            title: self.title.deep_view(),
            source_url: self.source_url.deep_view(),
        }
    }
}

impl Clone for IngestSource {
    fn clone(&self) -> (r: Self)
        ensures
            r.deep_view() == self.deep_view(),
    {
        IngestSource {
            content: self.content.clone(),
            title: self.title.clone(),
            source_url: self.source_url.clone(),
        }
    }
}

/// How grave a contradiction is.
#[derive(Clone, Copy, Debug, PartialEq, Eq, Structural)]
pub enum ContradictionSeverity {
    Minor,
    Major,
    Critical,
}

impl DeepView for ContradictionSeverity {
    type V = ContradictionSeverity;

    open spec fn deep_view(&self) -> ContradictionSeverity {
        *self
    }
}

impl ContradictionSeverity {
    pub fn as_str(&self) -> (r: &'static str)
        ensures
            r@ == (match *self {
                ContradictionSeverity::Minor => "minor"@,
                ContradictionSeverity::Major => "major"@,
                ContradictionSeverity::Critical => "critical"@,
            }),
    {
        match self {
            ContradictionSeverity::Minor => "minor",
            ContradictionSeverity::Major => "major",
            ContradictionSeverity::Critical => "critical",
        }
    }
}

/// A claim of a source that a page contradicts.
#[derive(Debug, PartialEq)]
pub struct Contradiction {
    pub doc_id: DocId,
    pub block_id: Option<String>,
    pub existing_claim: String,
    pub incoming_claim: String,
    pub severity: ContradictionSeverity,
}

/// What a `Contradiction` holds.
#[verifier::ext_equal]
pub struct ContradictionM {
    pub doc_id: Seq<char>,
    pub block_id: Option<Seq<char>>,
    pub existing_claim: Seq<char>,
    pub incoming_claim: Seq<char>,
    pub severity: ContradictionSeverity,
}

impl DeepView for Contradiction {
    type V = ContradictionM;

    open spec fn deep_view(&self) -> ContradictionM {
        ContradictionM {
            doc_id: self.doc_id.deep_view(),
            block_id: self.block_id.deep_view(),
            existing_claim: self.existing_claim.deep_view(),
            incoming_claim: self.incoming_claim.deep_view(),
            severity: self.severity,
        }
    }
}

impl Clone for Contradiction {
    fn clone(&self) -> (r: Self)
        ensures
            r.deep_view() == self.deep_view(),
    {
        Contradiction {
            doc_id: self.doc_id.clone(),
            block_id: self.block_id.clone(),
            existing_claim: self.existing_claim.clone(),
            incoming_claim: self.incoming_claim.clone(),
            severity: self.severity,
        }
    }
}

/// What taking in a source did.
#[derive(Debug, PartialEq)]
pub struct IngestResult {
    pub summary_doc_id: Option<DocId>,
    pub touched_docs: Vec<DocId>,
    pub created_docs: Vec<DocId>,
    pub contradictions: Vec<Contradiction>,
}

/// What a `IngestResult` holds.
#[verifier::ext_equal]
pub struct IngestResultM {
    pub summary_doc_id: Option<Seq<char>>,
    pub touched_docs: Seq<Seq<char>>,
    pub created_docs: Seq<Seq<char>>,
    pub contradictions: Seq<ContradictionM>,
}

impl DeepView for IngestResult {
    type V = IngestResultM;

    open spec fn deep_view(&self) -> IngestResultM {
        IngestResultM {
            summary_doc_id: self.summary_doc_id.deep_view(),
            touched_docs: self.touched_docs.deep_view(),
            created_docs: self.created_docs.deep_view(),
            contradictions: self.contradictions.deep_view(),
        }
    }
}

impl Clone for IngestResult {
    fn clone(&self) -> (r: Self)
        ensures
            r.deep_view() == self.deep_view(),
    {
        IngestResult {
            summary_doc_id: self.summary_doc_id.clone(),
            touched_docs: self.touched_docs.clone(),
            created_docs: self.created_docs.clone(),
            contradictions: self.contradictions.clone(),
        }
    }
}

/// What the language model found in a source.
#[derive(Debug, PartialEq)]
pub struct SourceAnalysis {
    pub entities: Vec<String>,
    pub concepts: Vec<String>,
    pub claims: Vec<String>,
    pub summary: String,
}

/// What a `SourceAnalysis` holds.
#[verifier::ext_equal]
pub struct SourceAnalysisM {
    pub entities: Seq<Seq<char>>,
    pub concepts: Seq<Seq<char>>,
    pub claims: Seq<Seq<char>>,
    pub summary: Seq<char>,
}

impl DeepView for SourceAnalysis {
    type V = SourceAnalysisM;

    open spec fn deep_view(&self) -> SourceAnalysisM {
        SourceAnalysisM {
            entities: self.entities.deep_view(),
            concepts: self.concepts.deep_view(),
            claims: self.claims.deep_view(),
            summary: self.summary.deep_view(),
        }
    }
}

impl Clone for SourceAnalysis {
    fn clone(&self) -> (r: Self)
        ensures
            r.deep_view() == self.deep_view(),
    {
        SourceAnalysis {
            entities: self.entities.clone(),
            concepts: self.concepts.clone(),
            claims: self.claims.clone(),
            summary: self.summary.clone(),
        }
    }
}

/// How new knowledge enters the wiki.
#[derive(Clone, Copy, Debug, PartialEq, Eq, Structural)]
pub enum UpdateAction {
    /// At the end of a page.
    AppendToExisting,
    /// As a page of its own.
    CreateNew,
    /// Not at all: it contradicts a page.
    FlagContradiction,
}

impl DeepView for UpdateAction {
    type V = UpdateAction;

    open spec fn deep_view(&self) -> UpdateAction {
        *self
    }
}

/// What is to be done to a page.
#[derive(Debug, PartialEq)]
pub struct PageUpdatePlan {
    pub doc_id: Option<String>,
    pub title: String,
    pub action: UpdateAction,
    pub content: String,
    pub reason: String,
}

/// What a `PageUpdatePlan` holds.
#[verifier::ext_equal]
pub struct PageUpdatePlanM {
    pub doc_id: Option<Seq<char>>,
    pub title: Seq<char>,
    pub action: UpdateAction,
    pub content: Seq<char>,
    pub reason: Seq<char>,
}

impl DeepView for PageUpdatePlan {
    type V = PageUpdatePlanM;

    open spec fn deep_view(&self) -> PageUpdatePlanM {
        PageUpdatePlanM {
            doc_id: self.doc_id.deep_view(),
            title: self.title.deep_view(),
            action: self.action,
            content: self.content.deep_view(),
            reason: self.reason.deep_view(),
        }
    }
}

impl Clone for PageUpdatePlan {
    fn clone(&self) -> (r: Self)
        ensures
            r.deep_view() == self.deep_view(),
    {
        PageUpdatePlan {
            doc_id: self.doc_id.clone(),
            title: self.title.clone(),
            action: self.action,
            content: self.content.clone(),
            reason: self.reason.clone(),
        }
    }
}

// ---- Analysis --------------------------------------------------------------

/// The prompt that asks what is in a source.
pub open spec fn analysis_prompt(content: Seq<char>) -> Seq<char> {
    "你是一个知识库编辑。请分析以下原料，提取关键信息。\n\n## 原料\n"@ + content
        + "\n\n## 任务\n请以 JSON 格式输出分析结果（只输出 JSON，不要其他文字）：\n```json\n{\n\"entities\": [\"实体名称1\", \"实体名称2\"],\n\"concepts\": [\"概念/主题1\", \"概念/主题2\"],\n\"claims\": [\"关键声明1\", \"关键声明2\"],\n\"summary\": \"原料的 1-2 段中文摘要\"\n}\n```"@
}

/// The prompt that asks what is in a source.
pub fn analyze_prompt(source: &IngestSource) -> (r: String)
    ensures
        r@ == analysis_prompt(source.deep_view().content),
{
    cat3(
        "你是一个知识库编辑。请分析以下原料，提取关键信息。\n\n## 原料\n",
        source.content.as_str(),
        "\n\n## 任务\n请以 JSON 格式输出分析结果（只输出 JSON，不要其他文字）：\n```json\n{\n\"entities\": [\"实体名称1\", \"实体名称2\"],\n\"concepts\": [\"概念/主题1\", \"概念/主题2\"],\n\"claims\": [\"关键声明1\", \"关键声明2\"],\n\"summary\": \"原料的 1-2 段中文摘要\"\n}\n```",
    )
}

/// The JSON to read an analysis from: that of the reply, or an empty analysis
/// where there was no reply.
pub open spec fn analysis_json(reply: Option<Seq<char>>) -> Seq<char> {
    match reply {
        Some(a) => payload(a),
        None => payload("{\"entities\":[],\"concepts\":[],\"claims\":[],\"summary\":\"\"}"@),
    }
}

/// The JSON to read an analysis from.
pub fn analysis_payload(reply: Option<String>) -> (r: String)
    ensures
        r@ == analysis_json(reply.deep_view()),
{
    match reply {
        Some(a) => json_payload(a.as_str()),
        None => json_payload(
            "{\"entities\":[],\"concepts\":[],\"claims\":[],\"summary\":\"\"}",
        ),
    }
}

/// The analysis of a source: what was read, or nothing but the beginning of
/// the source as its summary.
pub open spec fn analysis_of(parsed: Option<SourceAnalysisM>, content: Seq<char>) -> SourceAnalysisM {
    match parsed {
        Some(a) => a,
        None => SourceAnalysisM {
            entities: seq![],
            concepts: seq![],
            claims: seq![],
            summary: first_chars(content, 200),
        },
    }
}

/// The analysis of a source: what was read, or nothing but the beginning of
/// the source as its summary.
pub fn settle_analysis(parsed: Option<SourceAnalysis>, source: &IngestSource) -> (r: SourceAnalysis)
    ensures
        r.deep_view() == analysis_of(parsed.deep_view(), source.deep_view().content),
{
    match parsed {
        Some(a) => a,
        None => {
            let r = SourceAnalysis {
                entities: Vec::new(),
                concepts: Vec::new(),
                claims: Vec::new(),
                summary: take_chars(source.content.as_str(), 200),
            };
            assert(r.deep_view().entities =~= seq![]);
            assert(r.deep_view().concepts =~= seq![]);
            assert(r.deep_view().claims =~= seq![]);
            r
        },
    }
}

// ---- Related pages ---------------------------------------------------------

/// The names that are searched for: at most ten, entities first.
pub open spec fn names_of(a: SourceAnalysisM) -> Seq<Seq<char>> {
    at_most(a.entities + a.concepts, 10)
}

/// The names that are searched for: at most ten, entities first.
pub fn search_names(analysis: &SourceAnalysis) -> (r: Vec<String>)
    ensures
        r.deep_view() == names_of(analysis.deep_view()),
{
    let mut r = analysis.entities.clone();
    let ghost front = r.deep_view();
    let mut more = analysis.concepts.clone();
    let ghost back = more.deep_view();
    r.append(&mut more);
    assert(r.deep_view() =~= front + back);
    let ghost whole = r.deep_view();
    if r.len() > 10 {
        r.truncate(10);
    }
    assert(r.deep_view() =~= at_most(whole, 10));
    r
}

/// A page that a name was found on.
#[derive(Debug, PartialEq)]
pub struct RelatedPage {
    pub name: String,
    pub doc_id: DocId,
}

/// What a `RelatedPage` holds.
#[verifier::ext_equal]
pub struct RelatedPageM {
    pub name: Seq<char>,
    pub doc_id: Seq<char>,
}

impl DeepView for RelatedPage {
    type V = RelatedPageM;

    open spec fn deep_view(&self) -> RelatedPageM {
        RelatedPageM {
            name: self.name.deep_view(),
            doc_id: self.doc_id.deep_view(),
        }
    }
}

impl Clone for RelatedPage {
    fn clone(&self) -> (r: Self)
        ensures
            r.deep_view() == self.deep_view(),
    {
        RelatedPage {
            name: self.name.clone(),
            doc_id: self.doc_id.clone(),
        }
    }
}

/// The page of a hit: the first step of its path, or a page named after the
/// query.
pub open spec fn page_of(u: TextUnitM, query: Seq<char>) -> Seq<char> {
    if u.path.len() > 0 {
        u.path[0]
    } else {
        "auto-"@ + slug_of(query)
    }
}

/// The page of a hit.
pub fn hit_page(unit: &TextUnit, query: &str) -> (r: DocId)
    ensures
        r.deep_view() == page_of(unit.deep_view(), query@),
{
    if unit.path.len() > 0 {
        assert(unit.deep_view().path[0] == unit.path@[0]@);
        DocId(unit.path[0].clone())
    } else {
        DocId(cat("auto-", slugify(query).as_str()))
    }
}

/// Whether a page is listed.
pub open spec fn lists(related: Seq<RelatedPageM>, id: Seq<char>) -> bool {
    exists|i: int| 0 <= i < related.len() && (#[trigger] related[i]).doc_id == id
}

/// The pages with those of more hits, none twice.
pub open spec fn with_hits(
    related: Seq<RelatedPageM>,
    query: Seq<char>,
    hits: Seq<TextUnitM>,
) -> Seq<RelatedPageM>
    decreases hits.len(),
{
    if hits.len() == 0 {
        related
    } else {
        let front = with_hits(related, query, hits.drop_last());
        let id = page_of(hits.last(), query);
        if lists(front, id) {
            front
        } else {
            front.push(RelatedPageM { name: query, doc_id: id })
        }
    }
}

fn is_listed(related: &Vec<RelatedPage>, id: &DocId) -> (r: bool)
    ensures
        r == lists(related.deep_view(), id.deep_view()),
{
    let ghost all = related.deep_view();
    let mut i: usize = 0;
    while i < related.len()
        invariant
            i <= related.len(),
            all == related.deep_view(),
            forall|k: int| 0 <= k < i ==> (#[trigger] all[k]).doc_id != id.deep_view(),
        decreases related.len() - i,
    {
        assert(all[i as int] == related@[i as int].deep_view());
        if related[i].doc_id.same(id) {
            return true;
        }
        i = i + 1;
    }
    false
}

/// Adds the pages of the hits for a name, none twice.
pub fn add_related(related: &mut Vec<RelatedPage>, query: &str, hits: &Vec<TextUnit>)
    ensures
        final(related).deep_view() == with_hits(
            old(related).deep_view(),
            query@,
            hits.deep_view(),
        ),
{
    let ghost start = related.deep_view();
    let ghost all = hits.deep_view();
    let mut i: usize = 0;
    assert(all.take(0) =~= seq![]);
    while i < hits.len()
        invariant
            i <= hits.len(),
            all == hits.deep_view(),
            related.deep_view() == with_hits(start, query@, all.take(i as int)),
        decreases hits.len() - i,
    {
        assert(all.take(i + 1).drop_last() =~= all.take(i as int));
        assert(all.take(i + 1).last() == hits@[i as int].deep_view());
        let ghost done = related.deep_view();
        let id = hit_page(&hits[i], query);
        if !is_listed(related, &id) {
            let page = RelatedPage { name: query.to_owned(), doc_id: id };
            related.push(page);
            assert(related.deep_view() =~= done.push(page.deep_view()));
        }
        i = i + 1;
    }
    assert(all.take(i as int) =~= all);
}

/// No page is listed twice.
pub open spec fn pages_differ(related: Seq<RelatedPageM>) -> bool {
    forall|i: int, j: int|
        0 <= i < j < related.len() ==> (#[trigger] related[i]).doc_id != (
        #[trigger] related[j]).doc_id
}

/// However many hits there are, no page is listed twice.
pub proof fn law_related_differ(related: Seq<RelatedPageM>, query: Seq<char>, hits: Seq<TextUnitM>)
    requires
        pages_differ(related),
    ensures
        pages_differ(with_hits(related, query, hits)),
    decreases hits.len(),
{
    if hits.len() > 0 {
        law_related_differ(related, query, hits.drop_last());
    }
}

// ---- Plan ------------------------------------------------------------------

/// How a page stands in the prompt for a plan.
pub open spec fn related_entry(p: RelatedPageM) -> Seq<char> {
    "- "@ + p.name + " (doc: "@ + p.doc_id + ")"@
}

/// The prompt that asks for a plan.
pub open spec fn plan_prompt_of(a: SourceAnalysisM, related: Seq<RelatedPageM>) -> Seq<char> {
    "你是一个知识库编辑。新旧知识对比如下：\n\n## 已有页面\n"@ + joined(
        Seq::new(related.len(), |i: int| related_entry(related[i])),
        "\n"@,
    ) + "\n\n## 新原料摘要\n"@ + a.summary + "\n\n## 新原料关键声明\n"@ + joined(a.claims, "\n- "@)
        + "\n\n## 任务\n判断新知识应如何整合到已有页面。以 JSON 数组输出（只输出 JSON）：\n```json\n[{\n\"doc_id\": \"已有页面 ID（创建新页面则为 null）\",\n\"title\": \"页面标题\",\n\"action\": \"AppendToExisting | CreateNew | FlagContradiction\",\n\"content\": \"要追加的 Markdown 内容\",\n\"reason\": \"操作理由\"\n}]\n```\n\n规则：\n- 新增内容用 AppendToExisting\n- 实体无对应页面用 CreateNew\n- 与已有内容矛盾用 FlagContradiction（不覆盖）"@
}

/// The prompt that asks for a plan.
pub fn plan_prompt(analysis: &SourceAnalysis, related: &Vec<RelatedPage>) -> (r: String)
    ensures
        r@ == plan_prompt_of(analysis.deep_view(), related.deep_view()),
{
    let ghost rs = related.deep_view();
    let ghost want = Seq::new(rs.len(), |i: int| related_entry(rs[i]));
    let mut parts: Vec<String> = Vec::new();
    let mut i: usize = 0;
    assert(parts.deep_view() =~= want.take(0));
    while i < related.len()
        invariant
            i <= related.len(),
            rs == related.deep_view(),
            want == Seq::new(rs.len(), |i: int| related_entry(rs[i])),
            parts.deep_view() == want.take(i as int),
        decreases related.len() - i,
    {
        assert(rs[i as int] == related@[i as int].deep_view());
        let ghost done = parts.deep_view();
        let mut part = cat3("- ", related[i].name.as_str(), " (doc: ");
        part.push_str(related[i].doc_id.as_str());
        part.push_str(")");
        parts.push(part);
        assert(parts.deep_view() =~= done.push(part@));
        assert(want.take(i + 1) =~= want.take(i as int).push(want[i as int]));
        i = i + 1;
    }
    assert(want.take(i as int) =~= want);
    let mut r = cat(
        "你是一个知识库编辑。新旧知识对比如下：\n\n## 已有页面\n",
        join(&parts, "\n").as_str(),
    );
    r.push_str("\n\n## 新原料摘要\n");
    r.push_str(analysis.summary.as_str());
    r.push_str("\n\n## 新原料关键声明\n");
    r.push_str(join(&analysis.claims, "\n- ").as_str());
    r.push_str(
        "\n\n## 任务\n判断新知识应如何整合到已有页面。以 JSON 数组输出（只输出 JSON）：\n```json\n[{\n\"doc_id\": \"已有页面 ID（创建新页面则为 null）\",\n\"title\": \"页面标题\",\n\"action\": \"AppendToExisting | CreateNew | FlagContradiction\",\n\"content\": \"要追加的 Markdown 内容\",\n\"reason\": \"操作理由\"\n}]\n```\n\n规则：\n- 新增内容用 AppendToExisting\n- 实体无对应页面用 CreateNew\n- 与已有内容矛盾用 FlagContradiction（不覆盖）",
    );
    r
}

/// The JSON to read a plan from: that of the reply, or an empty plan where
/// there was no reply.
pub open spec fn plan_json(reply: Option<Seq<char>>) -> Seq<char> {
    match reply {
        Some(a) => payload(a),
        None => payload("[]"@),
    }
}

/// The JSON to read a plan from.
pub fn plan_payload(reply: Option<String>) -> (r: String)
    ensures
        r@ == plan_json(reply.deep_view()),
{
    match reply {
        Some(a) => json_payload(a.as_str()),
        None => json_payload("[]"),
    }
}

// ---- Execution -------------------------------------------------------------

/// The page that has to be read before a step of a plan.
pub open spec fn reads(p: PageUpdatePlanM) -> Option<Seq<char>> {
    if p.action == UpdateAction::AppendToExisting {
        p.doc_id
    } else {
        None
    }
}

/// The page that has to be read before a step of a plan.
pub fn page_to_read(p: &PageUpdatePlan) -> (r: Option<DocId>)
    ensures
        r.deep_view() == reads(p.deep_view()),
{
    match p.action {
        UpdateAction::AppendToExisting => match &p.doc_id {
            Some(id) => Some(DocId(id.clone())),
            None => None,
        },
        _ => None,
    }
}

/// What is to be written for a step of a plan.
#[derive(Debug, PartialEq)]
pub enum PlanAction {
    Skip,
    /// An operation on a page.
    Append { doc_id: DocId, op: Op },
    /// A new page.
    Create { title: String, root: Block },
    /// Nothing; the contradiction is reported.
    Flag(Contradiction),
}

/// What a `PlanAction` holds.
#[verifier::ext_equal]
pub enum PlanActionM {
    Skip,
    Append { doc_id: Seq<char>, op: OpM },
    Create { title: Seq<char>, root: BlockM },
    Flag(ContradictionM),
}

impl DeepView for PlanAction {
    type V = PlanActionM;

    open spec fn deep_view(&self) -> PlanActionM {
        match self {
            PlanAction::Skip => PlanActionM::Skip,
            PlanAction::Append { doc_id, op } => PlanActionM::Append {
                doc_id: doc_id.deep_view(),
                op: op.deep_view(),
            },
            PlanAction::Create { title, root } => PlanActionM::Create {
                title: title.deep_view(),
                root: root.deep_view(),
            },
            PlanAction::Flag(x) => PlanActionM::Flag(x.deep_view()),
        }
    }
}

impl Clone for PlanAction {
    fn clone(&self) -> (r: Self)
        ensures
            r.deep_view() == self.deep_view(),
    {
        match self {
            PlanAction::Skip => PlanAction::Skip,
            PlanAction::Append { doc_id, op } => PlanAction::Append {
                doc_id: doc_id.clone(),
                op: op.clone(),
            },
            PlanAction::Create { title, root } => PlanAction::Create {
                title: title.clone(),
                root: root.clone(),
            },
            PlanAction::Flag(x) => PlanAction::Flag(x.clone()),
        }
    }
}

/// The last child of a block, if it has one.
pub open spec fn last_kid(d: DocumentM, id: Seq<char>) -> Option<Seq<char>> {
    let ids = kids(d.blocks, id);
    if ids.len() > 0 {
        Some(ids.last())
    } else {
        None
    }
}

/// The operation puts a block behind everything under the root of a page.
pub open spec fn appends(op: OpM, d: DocumentM, block: BlockM) -> bool {
    op == (OpM::InsertBlock { parent: d.root, after: last_kid(d, d.root), block })
}

/// An operation that puts a block behind everything under the root of a page.
pub fn append_op(doc: &Document, block: Block) -> (r: Op)
    ensures
        appends(r.deep_view(), doc.deep_view(), block.deep_view()),
{
    Op::InsertBlock { parent: doc.root.clone(), after: doc.last_child(&doc.root), block }
}

/// The contradiction that a step reports.
pub open spec fn flagged(doc_id: Seq<char>, claim: Seq<char>) -> ContradictionM {
    ContradictionM {
        doc_id,
        block_id: None,
        existing_claim: seq![],
        incoming_claim: claim,
        severity: ContradictionSeverity::Major,
    }
}

/// What a step of a plan comes to: an addition to the page, if it names one
/// that there is; a new page; or a report, if it names a page.
pub open spec fn step_of(p: PageUpdatePlanM, doc: Option<DocumentM>, r: PlanActionM) -> bool {
    match p.action {
        UpdateAction::AppendToExisting => match (p.doc_id, doc) {
            (Some(id), Some(d)) => exists|b: BlockM|
                #[trigger] fresh_text_block(b, BlockType::Paragraph, p.content, "ingest"@) && (
                r matches PlanActionM::Append { doc_id, op } && doc_id == id && appends(op, d, b)),
            _ => r is Skip,
        },
        UpdateAction::CreateNew => r matches PlanActionM::Create { title, root } && title == p.title
            && fresh_text_block(root, BlockType::Paragraph, p.content, "ingest"@),
        UpdateAction::FlagContradiction => match p.doc_id {
            Some(id) => r == PlanActionM::Flag(flagged(id, p.content)),
            None => r is Skip,
        },
    }
}

/// What a step of a plan comes to; `doc` is the page that it names, if there
/// is one.
pub fn plan_step(p: &PageUpdatePlan, doc: Option<&Document>) -> (r: PlanAction)
    ensures
        step_of(
            p.deep_view(),
            (match doc {
                Some(d) => Some(d.deep_view()),
                None => None,
            }),
            r.deep_view(),
        ),
{
    match p.action {
        UpdateAction::AppendToExisting => match (&p.doc_id, doc) {
            (Some(id), Some(d)) => {
                let block = text_block(BlockType::Paragraph, p.content.as_str(), "ingest");
                assert(fresh_text_block(
                    block.deep_view(),
                    BlockType::Paragraph,
                    p.deep_view().content,
                    "ingest"@,
                ));
                PlanAction::Append { doc_id: DocId(id.clone()), op: append_op(d, block) }
            },
            _ => PlanAction::Skip,
        },
        UpdateAction::CreateNew => PlanAction::Create {
            title: p.title.clone(),
            root: text_block(BlockType::Paragraph, p.content.as_str(), "ingest"),
        },
        UpdateAction::FlagContradiction => match &p.doc_id {
            Some(id) => {
                let c = Contradiction {
                    doc_id: DocId(id.clone()),
                    block_id: None,
                    existing_claim: String::new(),
                    incoming_claim: p.content.clone(),
                    severity: ContradictionSeverity::Major,
                };
                assert(c.deep_view().existing_claim =~= seq![]);
                PlanAction::Flag(c)
            },
            None => PlanAction::Skip,
        },
    }
}

/// What the steps of a plan did so far.
#[derive(Debug, PartialEq)]
pub struct PlanOutcome {
    pub touched: Vec<DocId>,
    pub created: Vec<DocId>,
    pub contradictions: Vec<Contradiction>,
}

/// What a `PlanOutcome` holds.
#[verifier::ext_equal]
pub struct PlanOutcomeM {
    pub touched: Seq<Seq<char>>,
    pub created: Seq<Seq<char>>,
    pub contradictions: Seq<ContradictionM>,
}

impl DeepView for PlanOutcome {
    type V = PlanOutcomeM;

    open spec fn deep_view(&self) -> PlanOutcomeM {
        PlanOutcomeM {
            touched: self.touched.deep_view(),
            created: self.created.deep_view(),
            contradictions: self.contradictions.deep_view(),
        }
    }
}

impl Clone for PlanOutcome {
    fn clone(&self) -> (r: Self)
        ensures
            r.deep_view() == self.deep_view(),
    {
        PlanOutcome {
            touched: self.touched.clone(),
            created: self.created.clone(),
            contradictions: self.contradictions.clone(),
        }
    }
}

/// What the steps did, with one more: a write counts only if it was stored,
/// under the page that it was stored as.
pub open spec fn recorded(o: PlanOutcomeM, a: PlanActionM, stored: Option<Seq<char>>) -> PlanOutcomeM {
    match (a, stored) {
        (PlanActionM::Append { doc_id, .. }, Some(_)) => PlanOutcomeM {
            touched: o.touched.push(doc_id),
            ..o
        },
        (PlanActionM::Create { .. }, Some(id)) => PlanOutcomeM { created: o.created.push(id), ..o },
        (PlanActionM::Flag(c), _) => PlanOutcomeM {
            contradictions: o.contradictions.push(c),
            ..o
        },
        _ => o,
    }
}

impl PlanOutcome {
    pub fn new() -> (r: PlanOutcome)
        ensures
            r.deep_view() == (PlanOutcomeM {
                touched: seq![],
                created: seq![],
                contradictions: seq![],
            }),
    {
        let r = PlanOutcome {
            touched: Vec::new(),
            created: Vec::new(),
            contradictions: Vec::new(),
        };
        assert(r.deep_view().touched =~= seq![]);
        assert(r.deep_view().created =~= seq![]);
        assert(r.deep_view().contradictions =~= seq![]);
        r
    }

    /// Counts a step; `stored` is the page that was written, if it was.
    pub fn record(&mut self, action: PlanAction, stored: Option<DocId>)
        ensures
            final(self).deep_view() == recorded(
                old(self).deep_view(),
                action.deep_view(),
                stored.deep_view(),
            ),
    {
        let ghost o = self.deep_view();
        match (action, stored) {
            (PlanAction::Append { doc_id, op: _ }, Some(_)) => {
                let ghost id = doc_id.deep_view();
                self.touched.push(doc_id);
                assert(self.deep_view().touched =~= o.touched.push(id));
            },
            (PlanAction::Create { .. }, Some(id)) => {
                let ghost i = id.deep_view();
                self.created.push(id);
                assert(self.deep_view().created =~= o.created.push(i));
            },
            (PlanAction::Flag(c), _) => {
                let ghost m = c.deep_view();
                self.contradictions.push(c);
                assert(self.deep_view().contradictions =~= o.contradictions.push(m));
            },
            _ => {},
        }
    }
}

/// New knowledge that contradicts a page is reported and never written: such a
/// step touches and creates no page.
pub proof fn law_contradiction_never_writes(
    p: PageUpdatePlanM,
    doc: Option<DocumentM>,
    a: PlanActionM,
    o: PlanOutcomeM,
    stored: Option<Seq<char>>,
)
    requires
        p.action == UpdateAction::FlagContradiction,
        step_of(p, doc, a),
    ensures
        !(a is Append),
        !(a is Create),
        recorded(o, a, stored).touched == o.touched,
        recorded(o, a, stored).created == o.created,
{
}

// ---- Summary ---------------------------------------------------------------

/// The title of the summary page.
pub open spec fn summary_title(s: IngestSourceM, a: SourceAnalysisM) -> Seq<char> {
    match s.title {
        Some(t) => t,
        None => "Ingest: "@ + first_chars(a.summary, 40),
    }
}

/// One line for each page.
pub open spec fn page_lines(mark: Seq<char>, ids: Seq<Seq<char>>) -> Seq<char>
    decreases ids.len(),
{
    if ids.len() == 0 {
        seq![]
    } else {
        page_lines(mark, ids.drop_last()) + (mark + ids.last() + "\n"@)
    }
}

/// The text of the summary page.
pub open spec fn summary_text(
    s: IngestSourceM,
    a: SourceAnalysisM,
    touched: Seq<Seq<char>>,
    created: Seq<Seq<char>>,
) -> Seq<char> {
    "# "@ + summary_title(s, a) + "\n\n## 摘要\n\n"@ + a.summary + "\n\n## 关联页面\n\n"@ + page_lines(
        "- (新) "@,
        created,
    ) + "## 触动页面\n\n"@ + page_lines("- (更新) "@, touched) + "\n"@ + (match s.source_url {
        Some(url) => "\n\n> 来源: "@ + url,
        None => seq![],
    })
}

fn list_pages(mark: &str, ids: &Vec<DocId>) -> (r: String)
    ensures
        r@ == page_lines(mark@, ids.deep_view()),
{
    let ghost all = ids.deep_view();
    let mut r = String::new();
    let mut i: usize = 0;
    assert(r@ =~= page_lines(mark@, all.take(0)));
    while i < ids.len()
        invariant
            i <= ids.len(),
            all == ids.deep_view(),
            r@ == page_lines(mark@, all.take(i as int)),
        decreases ids.len() - i,
    {
        assert(all.take(i + 1).drop_last() =~= all.take(i as int));
        assert(all.take(i + 1).last() == ids@[i as int].deep_view());
        r.push_str(cat3(mark, ids[i].as_str(), "\n").as_str());
        i = i + 1;
    }
    assert(all.take(i as int) =~= all);
    r
}

/// The page that records what was taken in: its title and its root block.
pub fn summary_page(
    source: &IngestSource,
    analysis: &SourceAnalysis,
    touched: &Vec<DocId>,
    created: &Vec<DocId>,
) -> (r: (String, Block))
    ensures
        r.0@ == summary_title(source.deep_view(), analysis.deep_view()),
        fresh_text_block(
            r.1.deep_view(),
            BlockType::Heading,
            summary_text(
                source.deep_view(),
                analysis.deep_view(),
                touched.deep_view(),
                created.deep_view(),
            ),
            "ingest"@,
        ),
{
    let title = match &source.title {
        Some(t) => t.clone(),
        None => cat("Ingest: ", take_chars(analysis.summary.as_str(), 40).as_str()),
    };
    let mut text = cat3("# ", title.as_str(), "\n\n## 摘要\n\n");
    text.push_str(analysis.summary.as_str());
    text.push_str("\n\n## 关联页面\n\n");
    text.push_str(list_pages("- (新) ", created).as_str());
    text.push_str("## 触动页面\n\n");
    text.push_str(list_pages("- (更新) ", touched).as_str());
    text.push_str("\n");
    match &source.source_url {
        Some(url) => {
            text.push_str(cat("\n\n> 来源: ", url.as_str()).as_str());
        },
        None => {},
    }
    assert(text@ =~= summary_text(
        source.deep_view(),
        analysis.deep_view(),
        touched.deep_view(),
        created.deep_view(),
    ));
    (title, text_block(BlockType::Heading, text.as_str(), "ingest"))
}

/// What taking in a source did.
pub fn ingest_result(outcome: PlanOutcome, summary_doc_id: Option<DocId>) -> (r: IngestResult)
    ensures
        r.deep_view() == (IngestResultM {
            summary_doc_id: summary_doc_id.deep_view(),
            touched_docs: outcome.deep_view().touched,
            created_docs: outcome.deep_view().created,
            contradictions: outcome.deep_view().contradictions,
        }),
{
    IngestResult {
        summary_doc_id,
        touched_docs: outcome.touched,
        created_docs: outcome.created,
        contradictions: outcome.contradictions,
    }
}

} // verus!
