//! Answering questions, and writing what was learnt back.

use vstd::prelude::*;

use crate::config::{ONE, SEVEN_TENTHS};
use crate::float::F32;
use crate::ids::{BlockId, DocId};
use crate::llm::engine::{QaAnswer, QaAnswerM};
use crate::llm::unit::{TextUnit, TextUnitM};
use crate::text::{cat, join, joined};
use crate::tree::block::{Block, BlockM, BlockType};
use crate::tree::doc::{new_document, Document, OpM};
use crate::workflow::ingest::{appends, hit_page, page_of};
use crate::workflow::reply::{fresh_text_block, json_payload, payload, slug_of, slugify, text_block};

verus! {

broadcast use vstd::std_specs::vec::group_vec_axioms;

/// When an answer is written back.
#[derive(Debug, PartialEq)]
pub enum WriteBackPolicy {
    Never,
    /// Whenever the evaluation is sure enough.
    Auto { confidence_threshold: F32 },
    /// Never by itself; the write is proposed to the one who asked.
    AskFirst,
}

/// What a `WriteBackPolicy` holds.
#[verifier::ext_equal]
pub enum WriteBackPolicyM {
    Never,
    Auto { confidence_threshold: F32 },
    AskFirst,
}

impl DeepView for WriteBackPolicy {
    type V = WriteBackPolicyM;

    open spec fn deep_view(&self) -> WriteBackPolicyM {
        match self {
            WriteBackPolicy::Never => WriteBackPolicyM::Never,
            WriteBackPolicy::Auto { confidence_threshold } => WriteBackPolicyM::Auto {
                confidence_threshold: *confidence_threshold,
            },
            WriteBackPolicy::AskFirst => WriteBackPolicyM::AskFirst,
        }
    }
}

impl Clone for WriteBackPolicy {
    fn clone(&self) -> (r: Self)
        ensures
            r.deep_view() == self.deep_view(),
    {
        match self {
            WriteBackPolicy::Never => WriteBackPolicy::Never,
            WriteBackPolicy::Auto { confidence_threshold } => WriteBackPolicy::Auto {
                confidence_threshold: *confidence_threshold,
            },
            WriteBackPolicy::AskFirst => WriteBackPolicy::AskFirst,
        }
    }
}

impl Default for WriteBackPolicy {
    fn default() -> (r: WriteBackPolicy)
        ensures
            r.deep_view() == WriteBackPolicyM::AskFirst,
    {
        WriteBackPolicy::AskFirst
    }
}

/// Where an answer was written, or is proposed to be.
#[derive(Debug, PartialEq)]
pub struct WriteBackResult {
    pub target_doc_id: DocId,
    pub new_block_id: String,
    pub reason: String,
}

/// What a `WriteBackResult` holds.
#[verifier::ext_equal]
pub struct WriteBackResultM {
    pub target_doc_id: Seq<char>,
    pub new_block_id: Seq<char>,
    pub reason: Seq<char>,
}

impl DeepView for WriteBackResult {
    type V = WriteBackResultM;

    open spec fn deep_view(&self) -> WriteBackResultM {
        WriteBackResultM {
            target_doc_id: self.target_doc_id.deep_view(),
            new_block_id: self.new_block_id.deep_view(),
            reason: self.reason.deep_view(),
        }
    }
}

impl Clone for WriteBackResult {
    fn clone(&self) -> (r: Self)
        ensures
            r.deep_view() == self.deep_view(),
    {
        WriteBackResult {
            target_doc_id: self.target_doc_id.clone(),
            new_block_id: self.new_block_id.clone(),
            reason: self.reason.clone(),
        }
    }
}

/// An answer, the blocks that it cites, and what was written back.
#[derive(Debug, PartialEq)]
pub struct QueryResult {
    pub answer: String,
    pub cited_blocks: Vec<(String, F32)>,
    pub write_back: Option<WriteBackResult>,
}

/// What a `QueryResult` holds.
#[verifier::ext_equal]
pub struct QueryResultM {
    pub answer: Seq<char>,
    pub cited_blocks: Seq<(Seq<char>, F32)>,
    pub write_back: Option<WriteBackResultM>,
}

impl DeepView for QueryResult {
    type V = QueryResultM;

    open spec fn deep_view(&self) -> QueryResultM {
        QueryResultM {
            answer: self.answer.deep_view(),
            cited_blocks: self.cited_blocks.deep_view(),
            write_back: self.write_back.deep_view(),
        }
    }
}


/// Whether an answer holds new knowledge, and where it belongs.
#[derive(Debug, PartialEq)]
pub struct WriteBackEval {
    pub has_new_knowledge: bool,
    pub target_page: Option<String>,
    pub content_to_write: Option<String>,
    pub confidence: F32,
    pub reason: String,
}

/// What a `WriteBackEval` holds.
#[verifier::ext_equal]
pub struct WriteBackEvalM {
    pub has_new_knowledge: bool,
    pub target_page: Option<Seq<char>>,
    pub content_to_write: Option<Seq<char>>,
    pub confidence: F32,
    pub reason: Seq<char>,
}

impl DeepView for WriteBackEval {
    type V = WriteBackEvalM;

    open spec fn deep_view(&self) -> WriteBackEvalM {
        WriteBackEvalM {
            has_new_knowledge: self.has_new_knowledge,
            target_page: self.target_page.deep_view(),
            content_to_write: self.content_to_write.deep_view(),
            confidence: self.confidence,
            reason: self.reason.deep_view(),
        }
    }
}

impl Clone for WriteBackEval {
    fn clone(&self) -> (r: Self)
        ensures
            r.deep_view() == self.deep_view(),
    {
        WriteBackEval {
            has_new_knowledge: self.has_new_knowledge,
            target_page: self.target_page.clone(),
            content_to_write: self.content_to_write.clone(),
            confidence: self.confidence,
            reason: self.reason.clone(),
        }
    }
}

/// The blocks of citations, each fully relevant.
pub open spec fn cited(citations: Seq<Seq<char>>) -> Seq<(Seq<char>, F32)> {
    Seq::new(citations.len(), |i: int| (citations[i], F32 { bits: ONE }))
}

/// The result for an answer before anything is written back.
pub fn query_result(qa: &QaAnswer) -> (r: QueryResult)
    ensures
        r.deep_view() == (QueryResultM {
            answer: qa.deep_view().answer,
            cited_blocks: cited(qa.deep_view().citations),
            write_back: None,
        }),
{
    let ghost cs = qa.deep_view().citations;
    let ghost want = cited(cs);
    let mut out: Vec<(String, F32)> = Vec::new();
    let mut i: usize = 0;
    assert(out.deep_view() =~= want.take(0));
    while i < qa.citations.len()
        invariant
            i <= qa.citations.len(),
            cs == qa.citations.deep_view(),
            want == cited(cs),
            out.deep_view() == want.take(i as int),
        decreases qa.citations.len() - i,
    {
        assert(cs[i as int] == qa.citations@[i as int]@);
        let ghost done = out.deep_view();
        let item = (qa.citations[i].clone(), F32 { bits: ONE });
        out.push(item);
        assert(item.deep_view() == want[i as int]);
        assert(out.deep_view() =~= done.push(item.deep_view()));
        assert(want.take(i + 1) =~= done.push(want[i as int]));
        i = i + 1;
    }
    assert(want.take(i as int) =~= want);
    QueryResult { answer: qa.answer.clone(), cited_blocks: out, write_back: None }
}

/// Whether a policy wants answers evaluated.
pub fn needs_evaluation(policy: &WriteBackPolicy) -> (r: bool)
    ensures
        r == !(policy.deep_view() is Never),
{
    match policy {
        WriteBackPolicy::Never => false,
        _ => true,
    }
}

/// The prompt that asks whether an answer holds new knowledge.
pub open spec fn evaluation_prompt_of(question: Seq<char>, qa: QaAnswerM) -> Seq<char> {
    "你是一个知识库质量评估器。判断以下答案是否包含 wiki 中未记录的新知识。\n\n## 问题\n"@ + question
        + "\n\n## 答案\n"@ + qa.answer + "\n\n## 引用来源\n"@ + joined(qa.citations, ", "@)
        + "\n\n## 任务\n以 JSON 格式评估（只输出 JSON）：\n```json\n{\n\"has_new_knowledge\": true/false,\n\"target_page\": \"适合写回的页面标题（无则 null）\",\n\"content_to_write\": \"要写回的 Markdown 内容（无则 null）\",\n\"confidence\": 0.0-1.0,\n\"reason\": \"评估理由\"\n}\n```"@
}

/// The prompt that asks whether an answer holds new knowledge.
pub fn evaluation_prompt(question: &str, qa: &QaAnswer) -> (r: String)
    ensures
        r@ == evaluation_prompt_of(question@, qa.deep_view()),
{
    let mut r =
        "你是一个知识库质量评估器。判断以下答案是否包含 wiki 中未记录的新知识。\n\n## 问题\n".to_owned();
    r.push_str(question);
    r.push_str("\n\n## 答案\n");
    r.push_str(qa.answer.as_str());
    r.push_str("\n\n## 引用来源\n");
    r.push_str(join(&qa.citations, ", ").as_str());
    r.push_str(
        "\n\n## 任务\n以 JSON 格式评估（只输出 JSON）：\n```json\n{\n\"has_new_knowledge\": true/false,\n\"target_page\": \"适合写回的页面标题（无则 null）\",\n\"content_to_write\": \"要写回的 Markdown 内容（无则 null）\",\n\"confidence\": 0.0-1.0,\n\"reason\": \"评估理由\"\n}\n```",
    );
    r
}

/// The JSON to read an evaluation from: that of the reply, or an evaluation
/// that finds nothing where there was no reply.
pub open spec fn evaluation_json(reply: Option<Seq<char>>) -> Seq<char> {
    match reply {
        Some(a) => payload(a),
        None => payload(
            "{\"has_new_knowledge\":false,\"target_page\":null,\"content_to_write\":null,\"confidence\":0.0,\"reason\":\"eval failed\"}"@,
        ),
    }
}

/// The JSON to read an evaluation from.
pub fn evaluation_payload(reply: Option<String>) -> (r: String)
    ensures
        r@ == evaluation_json(reply.deep_view()),
{
    match reply {
        Some(a) => json_payload(a.as_str()),
        None => json_payload(
            "{\"has_new_knowledge\":false,\"target_page\":null,\"content_to_write\":null,\"confidence\":0.0,\"reason\":\"eval failed\"}",
        ),
    }
}

/// An evaluation: what was read, or one that finds nothing.
pub open spec fn evaluation_of(parsed: Option<WriteBackEvalM>) -> WriteBackEvalM {
    match parsed {
        Some(e) => e,
        None => WriteBackEvalM {
            has_new_knowledge: false,
            target_page: None,
            content_to_write: None,
            confidence: F32 { bits: 0 },
            reason: "parse error"@,
        },
    }
}

/// An evaluation: what was read, or one that finds nothing.
pub fn settle_evaluation(parsed: Option<WriteBackEval>) -> (r: WriteBackEval)
    ensures
        r.deep_view() == evaluation_of(parsed.deep_view()),
{
    match parsed {
        Some(e) => e,
        None => WriteBackEval {
            has_new_knowledge: false,
            target_page: None,
            content_to_write: None,
            confidence: F32::zero(),
            reason: "parse error".to_owned(),
        },
    }
}

/// What is done about an answer.
#[derive(Debug, PartialEq)]
pub enum WriteBackDecision {
    Nothing,
    /// The write is proposed, not done.
    Propose { title: String, content: String },
    Write { title: String, content: String },
}

/// What a `WriteBackDecision` holds.
#[verifier::ext_equal]
pub enum WriteBackDecisionM {
    Nothing,
    Propose { title: Seq<char>, content: Seq<char> },
    Write { title: Seq<char>, content: Seq<char> },
}

impl DeepView for WriteBackDecision {
    type V = WriteBackDecisionM;

    open spec fn deep_view(&self) -> WriteBackDecisionM {
        match self {
            WriteBackDecision::Nothing => WriteBackDecisionM::Nothing,
            WriteBackDecision::Propose { title, content } => WriteBackDecisionM::Propose {
                title: title.deep_view(),
                content: content.deep_view(),
            },
            WriteBackDecision::Write { title, content } => WriteBackDecisionM::Write {
                title: title.deep_view(),
                content: content.deep_view(),
            },
        }
    }
}

impl Clone for WriteBackDecision {
    fn clone(&self) -> (r: Self)
        ensures
            r.deep_view() == self.deep_view(),
    {
        match self {
            WriteBackDecision::Nothing => WriteBackDecision::Nothing,
            WriteBackDecision::Propose { title, content } => WriteBackDecision::Propose {
                title: title.clone(),
                content: content.clone(),
            },
            WriteBackDecision::Write { title, content } => WriteBackDecision::Write {
                title: title.clone(),
                content: content.clone(),
            },
        }
    }
}

/// Whether an evaluation found new knowledge and is sure enough.
pub open spec fn sure(e: WriteBackEvalM, threshold: F32) -> bool {
    e.has_new_knowledge && (threshold.below(e.confidence) || threshold.level(e.confidence))
}

/// What is done about an answer: an automatic write asks for the confidence
/// that the policy names, a proposal for seven tenths, and either for a page
/// and a content.
pub open spec fn decision_of(p: WriteBackPolicyM, e: WriteBackEvalM) -> WriteBackDecisionM {
    match (e.target_page, e.content_to_write) {
        (Some(title), Some(content)) => match p {
            WriteBackPolicyM::Never => WriteBackDecisionM::Nothing,
            WriteBackPolicyM::Auto { confidence_threshold } => if sure(e, confidence_threshold) {
                WriteBackDecisionM::Write { title, content }
            } else {
                WriteBackDecisionM::Nothing
            },
            WriteBackPolicyM::AskFirst => if sure(e, F32 { bits: SEVEN_TENTHS }) {
                WriteBackDecisionM::Propose { title, content }
            } else {
                WriteBackDecisionM::Nothing
            },
        },
        _ => WriteBackDecisionM::Nothing,
    }
}

/// What is done about an answer.
pub fn decide(policy: &WriteBackPolicy, eval: &WriteBackEval) -> (r: WriteBackDecision)
    ensures
        r.deep_view() == decision_of(policy.deep_view(), eval.deep_view()),
{
    match (&eval.target_page, &eval.content_to_write) {
        (Some(title), Some(content)) => match policy {
            WriteBackPolicy::Never => WriteBackDecision::Nothing,
            WriteBackPolicy::Auto { confidence_threshold } => if eval.has_new_knowledge
                && eval.confidence.at_least(*confidence_threshold) {
                WriteBackDecision::Write { title: title.clone(), content: content.clone() }
            } else {
                WriteBackDecision::Nothing
            },
            WriteBackPolicy::AskFirst => if eval.has_new_knowledge && eval.confidence.at_least(
                F32 { bits: SEVEN_TENTHS },
            ) {
                WriteBackDecision::Propose { title: title.clone(), content: content.clone() }
            } else {
                WriteBackDecision::Nothing
            },
        },
        _ => WriteBackDecision::Nothing,
    }
}

/// Only the automatic policy writes by itself, and only what the evaluation
/// found to be new with the confidence asked for.
pub proof fn law_only_auto_writes(p: WriteBackPolicyM, e: WriteBackEvalM)
    ensures
        decision_of(p, e) is Write <==> (p matches WriteBackPolicyM::Auto { confidence_threshold }
            && sure(e, confidence_threshold) && e.target_page is Some && e.content_to_write is Some),
{
}

/// An evaluation whose confidence is no number writes nothing.
pub proof fn law_undefined_confidence_writes_nothing(p: WriteBackPolicyM, e: WriteBackEvalM)
    requires
        e.confidence.nan(),
    ensures
        decision_of(p, e) is Nothing,
{
}

/// The page that an answer belongs to: that of the first hit for its title, or
/// one named after the title.
pub open spec fn target_of(title: Seq<char>, hits: Seq<TextUnitM>) -> Seq<char> {
    if hits.len() > 0 {
        page_of(hits[0], title)
    } else {
        "auto-"@ + slug_of(title)
    }
}

/// The page that an answer belongs to.
pub fn target_page(title: &str, hits: &Vec<TextUnit>) -> (r: DocId)
    ensures
        r.deep_view() == target_of(title@, hits.deep_view()),
{
    if hits.len() > 0 {
        assert(hits.deep_view()[0] == hits@[0].deep_view());
        hit_page(&hits[0], title)
    } else {
        DocId(cat("auto-", slugify(title).as_str()))
    }
}

/// How an answer is written.
#[derive(Debug, PartialEq)]
pub enum WriteBackAction {
    /// A block behind everything under the root of a page.
    Append { parent: BlockId, after: Option<BlockId>, block: Block },
    /// A new page.
    Create { title: String, root: Block },
}

/// What a `WriteBackAction` holds.
#[verifier::ext_equal]
pub enum WriteBackActionM {
    Append { parent: Seq<char>, after: Option<Seq<char>>, block: BlockM },
    Create { title: Seq<char>, root: BlockM },
}

impl DeepView for WriteBackAction {
    type V = WriteBackActionM;

    open spec fn deep_view(&self) -> WriteBackActionM {
        match self {
            WriteBackAction::Append { parent, after, block } => WriteBackActionM::Append {
                parent: parent.deep_view(),
                after: after.deep_view(),
                block: block.deep_view(),
            },
            WriteBackAction::Create { title, root } => WriteBackActionM::Create {
                title: title.deep_view(),
                root: root.deep_view(),
            },
        }
    }
}

impl Clone for WriteBackAction {
    fn clone(&self) -> (r: Self)
        ensures
            r.deep_view() == self.deep_view(),
    {
        match self {
            WriteBackAction::Append { parent, after, block } => WriteBackAction::Append {
                parent: parent.clone(),
                after: after.clone(),
                block: block.clone(),
            },
            WriteBackAction::Create { title, root } => WriteBackAction::Create {
                title: title.clone(),
                root: root.clone(),
            },
        }
    }
}

/// The block of a write, whichever way it is written.
pub open spec fn written_block(a: WriteBackActionM) -> BlockM {
    match a {
        WriteBackActionM::Append { block, .. } => block,
        WriteBackActionM::Create { root, .. } => root,
    }
}

/// How an answer is written: at the end of the page if there is one, else as a
/// new page.
pub fn write_back(title: &str, content: &str, doc: Option<&Document>) -> (r: WriteBackAction)
    ensures
        fresh_text_block(
            written_block(r.deep_view()),
            BlockType::Paragraph,
            content@,
            "query-write-back"@,
        ),
        match doc {
            Some(d) => r.deep_view() matches WriteBackActionM::Append { parent, after, block }
                && appends(OpM::InsertBlock { parent, after, block }, d.deep_view(), block),
            None => r.deep_view() matches WriteBackActionM::Create { title: t, .. } && t == title@,
        },
{
    let block = text_block(BlockType::Paragraph, content, "query-write-back");
    match doc {
        Some(d) => WriteBackAction::Append {
            parent: d.root.clone(),
            after: d.last_child(&d.root),
            block,
        },
        None => WriteBackAction::Create { title: title.to_owned(), root: block },
    }
}

/// The record of a write: the page that was written to, which is the one that
/// was searched for where the answer is appended, and the one that was made
/// where it makes a page. Of a write that is only proposed no page was made:
/// its record names the page that was searched for, whether or not there is
/// one.
pub open spec fn record_of(
    a: WriteBackActionM,
    target: Seq<char>,
    created: Option<Seq<char>>,
    reason: Seq<char>,
) -> WriteBackResultM {
    WriteBackResultM {
        target_doc_id: match (a, created) {
            (WriteBackActionM::Create { .. }, Some(id)) => id,
            _ => target,
        },
        new_block_id: written_block(a).id,
        reason,
    }
}

/// The record of a write. `target` is the page that was searched for, and
/// `created` the page that was made, if one was.
pub fn write_back_result(
    action: &WriteBackAction,
    target: DocId,
    created: Option<DocId>,
    reason: &str,
) -> (r: WriteBackResult)
    ensures
        r.deep_view() == record_of(
            action.deep_view(),
            target.deep_view(),
            created.deep_view(),
            reason@,
        ),
{
    let reason = reason.to_owned();
    match action {
        WriteBackAction::Append { block, .. } => WriteBackResult {
            target_doc_id: target,
            new_block_id: block.id.0.clone(),
            reason,
        },
        WriteBackAction::Create { root, .. } => WriteBackResult {
            target_doc_id: match created {
                Some(id) => id,
                None => target,
            },
            new_block_id: root.id.0.clone(),
            reason,
        },
    }
}

/// The record of a write that makes a page names that page, and the root of the
/// page as the new block.
pub proof fn law_created_page_recorded(
    id: Seq<char>,
    title: Seq<char>,
    root: BlockM,
    space_id: Seq<char>,
    target: Seq<char>,
    reason: Seq<char>,
)
    ensures
        ({
            let d = new_document(id, title, root, space_id);
            let r = record_of(WriteBackActionM::Create { title, root }, target, Some(d.id), reason);
            r.target_doc_id == d.id && r.new_block_id == d.root && d.title == title && d.blocks
                == seq![root]
        }),
{
}

/// The record of a write that is appended names the page that was searched for,
/// and the block that the operation inserts.
pub proof fn law_appended_block_recorded(
    parent: Seq<char>,
    after: Option<Seq<char>>,
    block: BlockM,
    target: Seq<char>,
    created: Option<Seq<char>>,
    reason: Seq<char>,
)
    ensures
        ({
            let a = WriteBackActionM::Append { parent, after, block };
            let r = record_of(a, target, created, reason);
            r.target_doc_id == target && r.new_block_id == block.id && r.reason == reason
        }),
{
}

} // verus!
