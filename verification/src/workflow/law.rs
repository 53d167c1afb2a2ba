//! What the workflows record, decide, ask for and write.

use vstd::prelude::*;

use crate::float::F32;
use crate::ids::DocId;
use crate::llm::engine::{QaAnswer, QaAnswerM};
use crate::llm::unit::TextUnitM;
use crate::text::{letter, find_char, find_from, joined, lemma_find_char, lemma_find_from, trim};
use crate::text_law::{law_first_chars, law_first_place, law_joined};
use crate::config::{ingest_defaults, query_defaults};
use crate::tree::block::{BlockM, BlockType};
use crate::tree::doc::{block_of, Document, DocumentM, OpM};
use crate::workflow::ingest::{
    analysis_of, analysis_prompt, flagged, ingest_result, lists, names_of, page_lines, page_of, plan_prompt_of,
    reads, recorded, related_entry, step_of, summary_text, summary_title, with_hits,
    ContradictionM, ContradictionSeverity, IngestResult, IngestSourceM, PageUpdatePlanM,
    PlanAction, PlanActionM, PlanOutcome, PlanOutcomeM,
    RelatedPageM, SourceAnalysisM, UpdateAction,
};
use crate::workflow::query::{
    cited, decide, decision_of, evaluation_of, evaluation_prompt_of, needs_evaluation,
    query_result, sure, target_of, write_back, QueryResult, WriteBackAction, WriteBackActionM,
    WriteBackDecision, WriteBackDecisionM, WriteBackEval, WriteBackEvalM, WriteBackPolicy,
    WriteBackPolicyM,
};
use crate::workflow::reply::{
    fenced_json, fresh_text_block, from_bracket, hyphenated, json_block, payload, slug_char,
    slug_of,
};

verus! {

// ---- Recording a plan ------------------------------------------------------

/// A step of a plan that was carried out, with the page that was stored.
pub type Done = (PlanActionM, Option<Seq<char>>);

/// The steps recorded one after the other.
pub open spec fn recorded_all(o: PlanOutcomeM, steps: Seq<Done>) -> PlanOutcomeM {
    steps.fold_left(o, |o: PlanOutcomeM, s: Done| recorded(o, s.0, s.1))
}

/// Recording a step drops nothing that was listed before: every old list is the
/// beginning of the new one.
pub proof fn law_recording_keeps(o: PlanOutcomeM, a: PlanActionM, stored: Option<Seq<char>>)
    ensures
        o.touched.is_prefix_of(recorded(o, a, stored).touched),
        o.created.is_prefix_of(recorded(o, a, stored).created),
        o.contradictions.is_prefix_of(recorded(o, a, stored).contradictions),
        recorded(o, a, stored).touched.len() + recorded(o, a, stored).created.len() + recorded(
            o,
            a,
            stored,
        ).contradictions.len() <= o.touched.len() + o.created.len() + o.contradictions.len() + 1,
{
}

/// After the steps of a plan, the touched pages are exactly the pages of the
/// appending steps that were stored, the created pages those of the creating steps
/// that were stored, and the contradictions those that were flagged, each in the
/// order of the steps.
pub proof fn law_recorded_plan(o: PlanOutcomeM, steps: Seq<Done>)
    ensures
        recorded_all(o, steps).touched == o.touched + steps.filter(
            |s: Done| s.0 is Append && s.1 is Some,
        ).map_values(|s: Done| s.0->Append_doc_id),
        recorded_all(o, steps).created == o.created + steps.filter(
            |s: Done| s.0 is Create && s.1 is Some,
        ).map_values(|s: Done| s.1->0),
        recorded_all(o, steps).contradictions == o.contradictions + steps.filter(
            |s: Done| s.0 is Flag,
        ).map_values(|s: Done| s.0->Flag_0),
    decreases steps.len(),
{
    reveal(Seq::filter);
    let f = |s: Done| s.0 is Append && s.1 is Some;
    let g = |s: Done| s.0 is Create && s.1 is Some;
    let h = |s: Done| s.0 is Flag;
    let ft = |s: Done| s.0->Append_doc_id;
    let gt = |s: Done| s.1->0;
    let ht = |s: Done| s.0->Flag_0;
    let end = recorded_all(o, steps);
    if steps.len() == 0 {
        assert(steps.filter(f).map_values(ft) =~= seq![]);
        assert(steps.filter(g).map_values(gt) =~= seq![]);
        assert(steps.filter(h).map_values(ht) =~= seq![]);
    } else {
        let front = steps.drop_last();
        let last = steps.last();
        law_recorded_plan(o, front);
        let mid = recorded_all(o, front);
        assert(end == recorded(mid, last.0, last.1));
        if f(last) {
            assert(steps.filter(f).map_values(ft) =~= front.filter(f).map_values(ft).push(ft(last)));
        }
        if g(last) {
            assert(steps.filter(g).map_values(gt) =~= front.filter(g).map_values(gt).push(gt(last)));
        }
        if h(last) {
            assert(steps.filter(h).map_values(ht) =~= front.filter(h).map_values(ht).push(ht(last)));
        }
        assert(end.touched =~= o.touched + steps.filter(f).map_values(ft));
        assert(end.created =~= o.created + steps.filter(g).map_values(gt));
        assert(end.contradictions =~= o.contradictions + steps.filter(h).map_values(ht));
    }
}

/// What a step of a plan does: it reads the page that it appends to, and no
/// other; it appends its content to that page behind all that hangs on the root;
/// it makes a page of its title and content; it flags its content against the page
/// it names.
pub proof fn law_plan_step(p: PageUpdatePlanM, doc: Option<DocumentM>, a: PlanActionM)
    requires
        step_of(p, doc, a),
    ensures
        reads(p) is Some <==> p.action == UpdateAction::AppendToExisting && p.doc_id is Some,
        reads(p) matches Some(id) ==> p.doc_id == Some(id),
        a is Append <==> p.action == UpdateAction::AppendToExisting && p.doc_id is Some && doc
            is Some,
        a matches PlanActionM::Append { doc_id, op } ==> p.doc_id == Some(doc_id) && (
        op matches OpM::InsertBlock { parent, after, block } && parent == doc->0.root
            && block.content == crate::tree::block::text_content(p.content) && match block_of(
            doc->0.blocks,
            parent,
        ) {
            Some(b) => if b.children.len() > 0 {
                after == Some(b.children.last())
            } else {
                after is None
            },
            None => after is None,
        }),
        a is Create <==> p.action == UpdateAction::CreateNew,
        a matches PlanActionM::Create { title, root } ==> title == p.title && root.content
            == crate::tree::block::text_content(p.content) && root.children.len() == 0,
        a is Flag <==> p.action == UpdateAction::FlagContradiction && p.doc_id is Some,
        a matches PlanActionM::Flag(c) ==> p.doc_id == Some(c.doc_id) && c.incoming_claim
            == p.content && c.block_id is None && c.existing_claim.len() == 0 && c.severity
            == ContradictionSeverity::Major,
{
}

// ---- Finding related pages -------------------------------------------------

/// Collecting pages keeps those that are there, in their order, and goes hit by
/// hit: what two lists of hits add is what the second adds to what the first left.
pub proof fn law_related_grow(
    related: Seq<RelatedPageM>,
    query: Seq<char>,
    a: Seq<TextUnitM>,
    b: Seq<TextUnitM>,
)
    ensures
        related.is_prefix_of(with_hits(related, query, a)),
        with_hits(related, query, a + b) == with_hits(with_hits(related, query, a), query, b),
    decreases a.len() + b.len(),
{
    if a.len() > 0 && b.len() == 0 {
        law_related_grow(related, query, a.drop_last(), b);
    }
    if b.len() > 0 {
        assert((a + b).drop_last() =~= a + b.drop_last());
        law_related_grow(related, query, a, b.drop_last());
    } else {
        assert(a + b =~= a);
    }
}

/// A page is listed after collecting exactly if it was before or a hit lies on
/// it, and what was added carries the name that was searched for.
pub proof fn law_related_exact(
    related: Seq<RelatedPageM>,
    query: Seq<char>,
    hits: Seq<TextUnitM>,
    id: Seq<char>,
)
    ensures
        lists(with_hits(related, query, hits), id) <==> lists(related, id) || exists|i: int|
            0 <= i < hits.len() && page_of(#[trigger] hits[i], query) == id,
        forall|i: int|
            related.len() <= i < with_hits(related, query, hits).len() ==> (#[trigger] with_hits(
                related,
                query,
                hits,
            )[i]).name == query,
    decreases hits.len(),
{
    let all = with_hits(related, query, hits);
    law_related_grow(related, query, hits, seq![]);
    if hits.len() > 0 {
        let rest = hits.drop_last();
        let front = with_hits(related, query, rest);
        let last = page_of(hits.last(), query);
        law_related_exact(related, query, rest, id);
        law_related_grow(related, query, rest, seq![]);
        if exists|i: int| 0 <= i < rest.len() && page_of(#[trigger] rest[i], query) == id {
            let i = choose|i: int| 0 <= i < rest.len() && page_of(#[trigger] rest[i], query) == id;
            assert(page_of(hits[i], query) == id);
        }
        if exists|i: int| 0 <= i < hits.len() && page_of(#[trigger] hits[i], query) == id {
            let i = choose|i: int| 0 <= i < hits.len() && page_of(#[trigger] hits[i], query) == id;
            if i < rest.len() {
                assert(page_of(rest[i], query) == id);
            }
        }
        if last == id {
            assert(page_of(hits[hits.len() - 1], query) == id);
        }
        if lists(front, id) {
            let i = choose|i: int| 0 <= i < front.len() && (#[trigger] front[i]).doc_id == id;
            assert(all[i].doc_id == id);
        }
        if all.len() > front.len() {
            assert(all[front.len() as int].doc_id == last);
        }
        if lists(all, id) {
            let i = choose|i: int| 0 <= i < all.len() && (#[trigger] all[i]).doc_id == id;
            if i < front.len() {
                assert(front[i].doc_id == id);
            }
        }
    }
}

/// The page of a hit is the first part of its path. A hit without a path, and a
/// title without a hit, have a page that is named after them; a title with hits
/// has that of the first.
pub proof fn law_page_of(u: TextUnitM, query: Seq<char>, hits: Seq<TextUnitM>)
    ensures
        u.path.len() > 0 ==> page_of(u, query) == u.path.first(),
        u.path.len() == 0 ==> page_of(u, query) == "auto-"@ + crate::workflow::reply::slug_of(query),
        hits.len() > 0 ==> target_of(query, hits) == page_of(hits.first(), query),
        hits.len() == 0 ==> target_of(query, hits) == "auto-"@ + crate::workflow::reply::slug_of(
            query,
        ),
{
}

/// The names searched for are the entities and then the concepts, no more than
/// ten of them; an analysis that was not read is empty, but for the beginning of
/// the source.
pub proof fn law_analysis(a: SourceAnalysisM, content: Seq<char>)
    ensures
        names_of(a).is_prefix_of(a.entities + a.concepts),
        names_of(a).len() <= 10,
        names_of(a).len() < 10 ==> names_of(a).len() == a.entities.len() + a.concepts.len(),
        analysis_of(Some(a), content) == a,
        ({
            let n = analysis_of(None, content);
            &&& n.entities.len() == 0
            &&& n.concepts.len() == 0
            &&& n.claims.len() == 0
            &&& n.summary.is_prefix_of(content)
            &&& n.summary.len() <= 200
            &&& n.summary.len() < 200 ==> n.summary == content
        }),
{
    law_first_chars(content, 200);
}

// ---- Prompts ---------------------------------------------------------------

/// The prompt for an analysis holds the source directly behind its heading, and
/// what stands around does not depend on it.
pub proof fn law_analysis_prompt() -> (r: (Seq<char>, Seq<char>))
    ensures
        forall|content: Seq<char>| #[trigger] analysis_prompt(content) == r.0 + content + r.1,
        "\n\n## 原料\n"@.is_suffix_of(r.0),
        "\n\n## 任务\n"@.is_prefix_of(r.1),
{
    let head = "你是一个知识库编辑。请分析以下原料，提取关键信息。\n\n## 原料\n"@;
    let tail =
        "\n\n## 任务\n请以 JSON 格式输出分析结果（只输出 JSON，不要其他文字）：\n```json\n{\n\"entities\": [\"实体名称1\", \"实体名称2\"],\n\"concepts\": [\"概念/主题1\", \"概念/主题2\"],\n\"claims\": [\"关键声明1\", \"关键声明2\"],\n\"summary\": \"原料的 1-2 段中文摘要\"\n}\n```"@;
    reveal_strlit("你是一个知识库编辑。请分析以下原料，提取关键信息。\n\n## 原料\n");
    reveal_strlit(
        "\n\n## 任务\n请以 JSON 格式输出分析结果（只输出 JSON，不要其他文字）：\n```json\n{\n\"entities\": [\"实体名称1\", \"实体名称2\"],\n\"concepts\": [\"概念/主题1\", \"概念/主题2\"],\n\"claims\": [\"关键声明1\", \"关键声明2\"],\n\"summary\": \"原料的 1-2 段中文摘要\"\n}\n```",
    );
    reveal_strlit("\n\n## 原料\n");
    reveal_strlit("\n\n## 任务\n");
    assert("\n\n## 原料\n"@.is_suffix_of(head));
    assert("\n\n## 任务\n"@.is_prefix_of(tail));
    (head, tail)
}

/// The prompt for a plan holds, each directly behind its heading, the related
/// pages with their names and identities, the summary and the claims of the
/// source; what stands around depends on none of them.
pub proof fn law_plan_prompt() -> (r: (Seq<char>, Seq<char>))
    ensures
        forall|a: SourceAnalysisM, related: Seq<RelatedPageM>| #[trigger]
            plan_prompt_of(a, related) == r.0 + joined(
                related.map_values(
                    |p: RelatedPageM| "- "@ + p.name + " (doc: "@ + p.doc_id + ")"@,
                ),
                "\n"@,
            ) + "\n\n## 新原料摘要\n"@ + a.summary + "\n\n## 新原料关键声明\n"@ + joined(
                a.claims,
                "\n- "@,
            ) + r.1,
        "\n\n## 已有页面\n"@.is_suffix_of(r.0),
        "\n\n## 任务\n"@.is_prefix_of(r.1),
{
    let head = "你是一个知识库编辑。新旧知识对比如下：\n\n## 已有页面\n"@;
    let tail =
        "\n\n## 任务\n判断新知识应如何整合到已有页面。以 JSON 数组输出（只输出 JSON）：\n```json\n[{\n\"doc_id\": \"已有页面 ID（创建新页面则为 null）\",\n\"title\": \"页面标题\",\n\"action\": \"AppendToExisting | CreateNew | FlagContradiction\",\n\"content\": \"要追加的 Markdown 内容\",\n\"reason\": \"操作理由\"\n}]\n```\n\n规则：\n- 新增内容用 AppendToExisting\n- 实体无对应页面用 CreateNew\n- 与已有内容矛盾用 FlagContradiction（不覆盖）"@;
    reveal_strlit("你是一个知识库编辑。新旧知识对比如下：\n\n## 已有页面\n");
    reveal_strlit(
        "\n\n## 任务\n判断新知识应如何整合到已有页面。以 JSON 数组输出（只输出 JSON）：\n```json\n[{\n\"doc_id\": \"已有页面 ID（创建新页面则为 null）\",\n\"title\": \"页面标题\",\n\"action\": \"AppendToExisting | CreateNew | FlagContradiction\",\n\"content\": \"要追加的 Markdown 内容\",\n\"reason\": \"操作理由\"\n}]\n```\n\n规则：\n- 新增内容用 AppendToExisting\n- 实体无对应页面用 CreateNew\n- 与已有内容矛盾用 FlagContradiction（不覆盖）",
    );
    reveal_strlit("\n\n## 已有页面\n");
    reveal_strlit("\n\n## 任务\n");
    assert("\n\n## 已有页面\n"@.is_suffix_of(head));
    assert("\n\n## 任务\n"@.is_prefix_of(tail));
    assert forall|a: SourceAnalysisM, related: Seq<RelatedPageM>| #[trigger]
        plan_prompt_of(a, related) == head + joined(
            related.map_values(|p: RelatedPageM| "- "@ + p.name + " (doc: "@ + p.doc_id + ")"@),
            "\n"@,
        ) + "\n\n## 新原料摘要\n"@ + a.summary + "\n\n## 新原料关键声明\n"@ + joined(
            a.claims,
            "\n- "@,
        ) + tail by {
        assert(Seq::new(related.len(), |i: int| related_entry(related[i])) =~= related.map_values(
            |p: RelatedPageM| "- "@ + p.name + " (doc: "@ + p.doc_id + ")"@,
        ));
    }
    (head, tail)
}

/// The prompt for an evaluation holds, each directly behind its heading, the
/// question, the answer and the blocks that it cites; what stands around depends
/// on none of them.
pub proof fn law_evaluation_prompt() -> (r: (Seq<char>, Seq<char>))
    ensures
        forall|question: Seq<char>, qa: QaAnswerM| #[trigger]
            evaluation_prompt_of(question, qa) == r.0 + question + "\n\n## 答案\n"@ + qa.answer
                + "\n\n## 引用来源\n"@ + joined(qa.citations, ", "@) + r.1,
        "\n\n## 问题\n"@.is_suffix_of(r.0),
        "\n\n## 任务\n"@.is_prefix_of(r.1),
{
    let head =
        "你是一个知识库质量评估器。判断以下答案是否包含 wiki 中未记录的新知识。\n\n## 问题\n"@;
    let tail =
        "\n\n## 任务\n以 JSON 格式评估（只输出 JSON）：\n```json\n{\n\"has_new_knowledge\": true/false,\n\"target_page\": \"适合写回的页面标题（无则 null）\",\n\"content_to_write\": \"要写回的 Markdown 内容（无则 null）\",\n\"confidence\": 0.0-1.0,\n\"reason\": \"评估理由\"\n}\n```"@;
    reveal_strlit(
        "你是一个知识库质量评估器。判断以下答案是否包含 wiki 中未记录的新知识。\n\n## 问题\n",
    );
    reveal_strlit(
        "\n\n## 任务\n以 JSON 格式评估（只输出 JSON）：\n```json\n{\n\"has_new_knowledge\": true/false,\n\"target_page\": \"适合写回的页面标题（无则 null）\",\n\"content_to_write\": \"要写回的 Markdown 内容（无则 null）\",\n\"confidence\": 0.0-1.0,\n\"reason\": \"评估理由\"\n}\n```",
    );
    reveal_strlit("\n\n## 问题\n");
    reveal_strlit("\n\n## 任务\n");
    assert("\n\n## 问题\n"@.is_suffix_of(head));
    assert("\n\n## 任务\n"@.is_prefix_of(tail));
    (head, tail)
}

// ---- The summary page ------------------------------------------------------

/// A list of pages: one line for each, in order.
pub proof fn law_page_lines(mark: Seq<char>, a: Seq<Seq<char>>, b: Seq<Seq<char>>, id: Seq<char>)
    ensures
        page_lines(mark, seq![]).len() == 0,
        page_lines(mark, seq![id]) == mark + id + "\n"@,
        page_lines(mark, a + b) == page_lines(mark, a) + page_lines(mark, b),
    decreases b.len(),
{
    let one = seq![id];
    let none: Seq<Seq<char>> = seq![];
    assert(one.drop_last() =~= none);
    assert(page_lines(mark, none) =~= seq![]);
    assert(page_lines(mark, one) =~= mark + id + "\n"@);
    if b.len() > 0 {
        assert((a + b).drop_last() =~= a + b.drop_last());
        law_page_lines(mark, a, b.drop_last(), id);
        assert(page_lines(mark, a + b) =~= page_lines(mark, a) + page_lines(mark, b));
    } else {
        assert(a + b =~= a);
        assert(page_lines(mark, a + b) =~= page_lines(mark, a) + page_lines(mark, b));
    }
}

/// The summary page: the title of the source, or where it has none the beginning
/// of the summary; then the summary, the new pages under their heading, the updated
/// pages under theirs, and last where the source comes from.
pub proof fn law_summary_page(
    s: IngestSourceM,
    a: SourceAnalysisM,
    touched: Seq<Seq<char>>,
    created: Seq<Seq<char>>,
) -> (title: Seq<char>)
    ensures
        title == summary_title(s, a),
        s.title matches Some(t) ==> title == t,
        s.title is None ==> exists|n: int|
            0 <= n <= 40 && n <= a.summary.len() && (n < 40 ==> n == a.summary.len()) && title
                == "Ingest: "@ + #[trigger] a.summary.take(n),
        ({
            let body = ("# "@ + title + "\n\n"@) + ("## 摘要\n\n"@ + a.summary + "\n\n"@) + (
            "## 关联页面\n\n"@ + page_lines("- (新) "@, created)) + ("## 触动页面\n\n"@ + page_lines(
                "- (更新) "@,
                touched,
            )) + "\n"@;
            match s.source_url {
                Some(url) => summary_text(s, a, touched, created) == body + "\n\n> 来源: "@ + url,
                None => summary_text(s, a, touched, created) == body,
            }
        }),
{
    reveal_strlit("\n\n");
    reveal_strlit("## 摘要\n\n");
    reveal_strlit("\n\n## 摘要\n\n");
    reveal_strlit("## 关联页面\n\n");
    reveal_strlit("\n\n## 关联页面\n\n");
    let title = summary_title(s, a);
    if s.title is None {
        let n = if a.summary.len() < 40 {
            a.summary.len() as int
        } else {
            40
        };
        law_first_chars(a.summary, 40);
        assert(title =~= "Ingest: "@ + a.summary.take(n));
    }
    assert("\n\n## 摘要\n\n"@ =~= "\n\n"@ + "## 摘要\n\n"@);
    assert("\n\n## 关联页面\n\n"@ =~= "\n\n"@ + "## 关联页面\n\n"@);
    let body = ("# "@ + title + "\n\n"@) + ("## 摘要\n\n"@ + a.summary + "\n\n"@) + (
    "## 关联页面\n\n"@ + page_lines("- (新) "@, created)) + ("## 触动页面\n\n"@ + page_lines(
        "- (更新) "@,
        touched,
    )) + "\n"@;
    match s.source_url {
        Some(url) => {
            assert(summary_text(s, a, touched, created) =~= body + "\n\n> 来源: "@ + url);
        },
        None => {
            assert(summary_text(s, a, touched, created) =~= body);
        },
    }
    title
}

// ---- Writing back ----------------------------------------------------------

/// Whatever is decided to be written or proposed carries the target page of the
/// evaluation as its title and the content to write as its content.
pub proof fn law_decision_carries_evaluation(p: WriteBackPolicyM, e: WriteBackEvalM)
    ensures
        decision_of(p, e) matches WriteBackDecisionM::Write { title, content } ==> e.target_page
            == Some(title) && e.content_to_write == Some(content),
        decision_of(p, e) matches WriteBackDecisionM::Propose { title, content } ==> e.target_page
            == Some(title) && e.content_to_write == Some(content),
{
}

/// Nothing is written or proposed unless the answer holds something new and names
/// a page and a content. Then a policy that writes by itself writes exactly if the
/// confidence is a number that does not lie below the threshold, one that asks
/// first proposes exactly if it does not lie below seven tenths, and one that never
/// writes does neither.
pub proof fn law_decision_exact(p: WriteBackPolicyM, e: WriteBackEvalM, seven_tenths: F32)
    requires
        seven_tenths.bits == 0x3f33_3333,
    ensures
        !e.has_new_knowledge || e.target_page is None || e.content_to_write is None ==> decision_of(
            p,
            e,
        ) is Nothing,
        e.has_new_knowledge && e.target_page is Some && e.content_to_write is Some ==> match p {
            WriteBackPolicyM::Never => decision_of(p, e) is Nothing,
            WriteBackPolicyM::Auto { confidence_threshold: t } => decision_of(p, e) is Write == (
            !e.confidence.nan() && !t.nan() && !e.confidence.below(t)) && !(decision_of(p, e)
                is Propose),
            WriteBackPolicyM::AskFirst => decision_of(p, e) is Propose == (!e.confidence.nan()
                && !e.confidence.below(seven_tenths)) && !(decision_of(p, e) is Write),
        },
{
}

/// An evaluation that was not read finds nothing new, names neither page nor
/// content and leads to nothing, whatever the policy; one that was is taken as it
/// is.
pub proof fn law_unread_evaluation(p: WriteBackPolicyM, e: WriteBackEvalM)
    ensures
        decision_of(p, evaluation_of(None)) is Nothing,
        evaluation_of(Some(e)) == e,
        !evaluation_of(None).has_new_knowledge,
        evaluation_of(None).target_page is None && evaluation_of(None).content_to_write is None,
        evaluation_of(None).confidence.bits == 0,
        evaluation_of(None).reason == "parse error"@,
{
}

/// The citations of an answer stay as they are and in their order, each with full
/// weight.
pub proof fn law_cited(citations: Seq<Seq<char>>)
    ensures
        cited(citations).len() == citations.len(),
        forall|i: int|
            0 <= i < citations.len() ==> (#[trigger] cited(citations)[i]).0 == citations[i] && cited(
                citations,
            )[i].1.bits == 0x3f80_0000,
{
}

// ---- Replies of the model --------------------------------------------------

/// A fenced block in a reply is what is taken from it, but for the white space
/// around it, whatever stands before and behind.
pub proof fn law_fenced_payload(a: Seq<char>, inner: Seq<char>, b: Seq<char>)
    requires
        find_from(a + "```json"@ + (inner + "```"@ + b), "```json"@, 0) == Some(a.len() as int),
        find_from(inner + "```"@ + b, "```"@, 0) == Some(inner.len() as int),
    ensures
        payload(a + "```json"@ + (inner + "```"@ + b)) == trim(inner),
        json_block(a + "```json"@ + (inner + "```"@ + b)) == Some(trim(inner)),
{
    let rest = inner + "```"@ + b;
    let text = a + "```json"@ + rest;
    assert(text.skip(a.len() + "```json"@.len() as int) =~= rest);
    assert(rest.take(inner.len() as int) =~= inner);
}

/// A reply without a fenced block is taken from its first brace or bracket on;
/// one without either, as it is.
pub proof fn law_bare_payload(a: Seq<char>, b: Seq<char>)
    requires
        find_from(a + b, "```json"@, 0) is None,
        !a.contains('{'),
        !a.contains('['),
    ensures
        b.len() > 0 && (b[0] == '{' || b[0] == '[') ==> payload(a + b) == b && json_block(a + b)
            == Some(b),
        b.len() == 0 ==> payload(a + b) == a && json_block(a + b) is None,
{
    let text = a + b;
    lemma_find_char(text, '{', 0);
    lemma_find_char(text, '[', 0);
    assert forall|i: int| 0 <= i < a.len() implies #[trigger] text[i] != '{' && text[i] != '[' by {
        assert(a.contains(a[i]));
    }
    assert(text.skip(a.len() as int) =~= b);
    if b.len() > 0 {
        assert(text[a.len() as int] == b[0]);
    } else {
        assert(text =~= a);
    }
}

/// What a reply is read from: the payload of the reply. A title, a summary and the
/// names searched for are as long as the settings say at first.
pub proof fn law_reply_json(reply: Seq<char>, s: IngestSourceM, a: SourceAnalysisM)
    ensures
        crate::workflow::ingest::analysis_json(Some(reply)) == payload(reply),
        crate::workflow::ingest::plan_json(Some(reply)) == payload(reply),
        crate::workflow::query::evaluation_json(Some(reply)) == payload(reply),
        names_of(a).len() <= ingest_defaults().search_limit,
        analysis_of(None, reply).summary.len() <= ingest_defaults().fallback_summary_max_chars,
        s.title is None ==> summary_title(s, a).len() <= "Ingest: "@.len()
            + ingest_defaults().summary_title_max_chars,
        ingest_defaults().search_limit == 10,
        ingest_defaults().per_query_top_k == 3,
        ingest_defaults().summary_title_max_chars == 40,
        ingest_defaults().fallback_summary_max_chars == 200,
        query_defaults().write_back_search_top_k == 3,
        query_defaults().write_back_confidence_threshold.bits == 0x3f33_3333,
{
    law_analysis(a, reply);
    law_first_chars(a.summary, 40);
}

/// A text that was hyphenated, if it neither begins nor ends with what is left
/// out, has every letter, hyphen and underscore at its place, and a hyphen in the
/// place of everything else.
pub proof fn law_hyphenated(s: Seq<char>, letters: Seq<bool>, i: int)
    requires
        letters.len() == s.len(),
        s.len() > 0,
        letters[0] && s[0] != '-',
        letters.last() && s.last() != '-',
    ensures
        hyphenated(s, letters).len() == s.len(),
        0 <= i < s.len() ==> hyphenated(s, letters)[i] == if letters[i] || s[i] == '_' {
            s[i]
        } else {
            '-'
        },
{
    let t = Seq::new(s.len(), |i: int| slug_char(s[i], letters[i]));
    assert(t.len() == s.len());
    assert(t[0] == s[0]);
    assert(t.last() == s.last());
    let ends = crate::text::lemma_trim_of(t, '-');
    assert(hyphenated(s, letters) == t);
}

/// A new block of text holds the text, and who wrote it, and hangs nowhere yet.
pub proof fn law_text_block(b: BlockM, ty: BlockType, text: Seq<char>, author: Seq<char>)
    requires
        fresh_text_block(b, ty, text, author),
    ensures
        b.ty == ty,
        crate::json::all_text(b.content) == text,
        b.meta.created_by == author,
        b.children.len() == 0 && b.parent is None,
        b.version == 0 && b.embedding is None,
        b.meta.created_at == b.meta.updated_at,
{
    crate::tree::edit::law_text_content(text);
}

/// A step of a plan that appends leaves the page with the new block as the last
/// child of its root, and the children before it in their order.
pub proof fn law_appended_last(
    p: PageUpdatePlanM,
    d: DocumentM,
    a: PlanActionM,
    now: crate::time::Timestamp,
)
    requires
        step_of(p, Some(d), a),
        crate::tree::law::valid(d),
        a matches PlanActionM::Append { op, .. } && (op matches OpM::InsertBlock { block, .. }
            && block_of(d.blocks, block.id) is None),
    ensures
        ({
            let op = a->Append_op;
            let (e, r) = crate::tree::doc::applied(d, op, now);
            &&& r is Ok
            &&& op matches OpM::InsertBlock { block, .. } && crate::tree::doc::kids(e.blocks, d.root)
                == crate::tree::doc::kids(d.blocks, d.root).push(block.id)
        }),
{
    law_plan_step(p, Some(d), a);
    let op = a->Append_op;
    if let OpM::InsertBlock { parent, after, block } = op {
        lemma_append(d, after, block, now);
    }
}

proof fn lemma_append(
    d: DocumentM,
    after: Option<Seq<char>>,
    block: BlockM,
    now: crate::time::Timestamp,
)
    requires
        crate::tree::law::valid(d),
        block_of(d.blocks, block.id) is None,
        ({
            let had = crate::tree::doc::kids(d.blocks, d.root);
            if had.len() > 0 {
                after == Some(had.last())
            } else {
                after is None
            }
        }),
    ensures
        ({
            let (e, r) = crate::tree::doc::applied(
                d,
                (OpM::InsertBlock { parent: d.root, after, block }),
                now,
            );
            &&& r is Ok
            &&& crate::tree::doc::kids(e.blocks, d.root) == crate::tree::doc::kids(
                d.blocks,
                d.root,
            ).push(block.id)
        }),
{
    let b = block_of(d.blocks, d.root)->0;
    let had = b.children;
    crate::tree::law::lemma_of(d.blocks, d.root);
    let i = crate::tree::doc::block_at(d.blocks, d.root)->0;
    assert(d.blocks[i] == b);
    assert(crate::tree::law::child_list_ok(d.blocks, b));
    assert forall|k: int| 0 <= k < had.len() implies #[trigger] had[k] != block.id by {
        assert(block_of(d.blocks, b.children[k]) is Some);
    }
    if had.len() > 0 {
        assert(had.contains(had.last()));
    }
    crate::tree::edit::law_insert_accepted(d, d.root, after, block, now);
    crate::tree::edit::law_inserted_list(d, d.root, after, block, now);
    lemma_none_filtered(had, block.id);
    let e = crate::tree::doc::applied(
        d,
        (OpM::InsertBlock { parent: d.root, after, block }),
        now,
    ).0;
    lemma_behind_last(had, block_of(e.blocks, d.root)->0.children, after, block.id);
}

proof fn lemma_behind_last(
    had: Seq<Seq<char>>,
    got: Seq<Seq<char>>,
    after: Option<Seq<char>>,
    id: Seq<char>,
)
    requires
        crate::tree::edit::put_in(had, got, after, id),
        had.no_duplicates(),
        if had.len() > 0 {
            after == Some(had.last())
        } else {
            after is None
        },
    ensures
        got == had.push(id),
{
    if had.len() > 0 {
        let k = choose|k: int|
            {
                &&& 0 <= k < had.len()
                &&& got.len() == had.len() + 1
                &&& #[trigger] got[k] == had.last()
                &&& got[k + 1] == id
                &&& got.remove(k + 1) == had
                &&& !had.take(k).contains(had.last())
            };
        assert(had[k] == got.remove(k + 1)[k]);
        assert(k == had.len() - 1);
        assert forall|i: int| 0 <= i < had.len() implies got[i] == had[i] by {
            assert(got.remove(k + 1)[i] == had[i]);
        }
        assert(got =~= had.push(id));
    } else {
        assert(got =~= had.push(id));
    }
}

proof fn lemma_none_filtered(ids: Seq<Seq<char>>, id: Seq<char>)
    requires
        forall|k: int| 0 <= k < ids.len() ==> #[trigger] ids[k] != id,
    ensures
        ids.filter(|x: Seq<char>| x != id) == ids,
    decreases ids.len(),
{
    reveal(Seq::filter);
    if ids.len() > 0 {
        lemma_none_filtered(ids.drop_last(), id);
        assert(ids[ids.len() - 1] != id);
        assert(ids =~= ids.drop_last().push(ids.last()));
    }
}

/// The name made of an ASCII text that begins and ends with letters or digits has
/// every letter small, every digit, hyphen and underscore at its place, and a hyphen
/// in the place of everything else.
pub proof fn law_slug_of(s: Seq<char>, i: int)
    requires
        crate::text::ascii(s),
        s.len() > 0,
        letter(s[0]),
        letter(s.last()),
    ensures
        slug_of(s).len() == s.len(),
        0 <= i < s.len() ==> slug_of(s)[i] as u32 == if 'A' <= s[i] <= 'Z' {
            (s[i] as u32 + 32) as int
        } else if 'a' <= s[i] <= 'z' || '0' <= s[i] <= '9' || s[i] == '_' {
            s[i] as u32 as int
        } else {
            '-' as u32 as int
        },
{
    let letters = crate::workflow::reply::letters_of(s);
    assert(letters.len() == s.len());
    assert(letters[0] && letters.last());
    law_hyphenated(s, letters, i);
    let h = hyphenated(s, letters);
    assert forall|k: int| 0 <= k < h.len() implies (#[trigger] h[k] as u32) < 128 by {
        law_hyphenated(s, letters, k);
        assert((s[k] as u32) < 128);
    }
    assert(crate::text::ascii(h));
    if 0 <= i < s.len() {
        assert((s[i] as u32) < 128);
        assert(slug_of(s)[i] == crate::text::small_char(h[i]));
    }
}

/// Without a reply, what is read is an analysis of nothing, a plan of no steps, and
/// an evaluation that finds nothing new.
pub proof fn law_no_reply()
    ensures
        crate::workflow::ingest::analysis_json(None) == payload(
            "{\"entities\":[],\"concepts\":[],\"claims\":[],\"summary\":\"\"}"@,
        ),
        crate::workflow::ingest::plan_json(None) == payload("[]"@),
        crate::workflow::query::evaluation_json(None) == payload(
            "{\"has_new_knowledge\":false,\"target_page\":null,\"content_to_write\":null,\"confidence\":0.0,\"reason\":\"eval failed\"}"@,
        ),
{
}

// ---- Calls -----------------------------------------------------------------

/// An answer is evaluated under every policy but the one that never writes.
pub proof fn law_needs_evaluation(p: &WriteBackPolicy, e: &WriteBackEval, r: bool, d: WriteBackDecision)
    requires
        call_ensures(needs_evaluation, (p,), r),
        call_ensures(decide, (p, e), d),
    ensures
        r <==> !(p.deep_view() is Never),
        !r ==> d.deep_view() is Nothing,
        d.deep_view() matches WriteBackDecisionM::Write { title, content } ==> e.deep_view().target_page
            == Some(title) && e.deep_view().content_to_write == Some(content),
{
}

/// A result carries the answer and what it cites, in order, and nothing written
/// yet.
pub proof fn law_query_result(qa: &QaAnswer, r: QueryResult, i: int)
    requires
        call_ensures(query_result, (qa,), r),
    ensures
        r.deep_view().answer == qa.deep_view().answer,
        r.deep_view().cited_blocks.len() == qa.deep_view().citations.len(),
        0 <= i < qa.deep_view().citations.len() ==> r.deep_view().cited_blocks[i].0
            == qa.deep_view().citations[i],
        r.deep_view().write_back is None,
{
}

/// The result of taking a source in carries what was touched, created and found
/// contradictory, and the page of the summary.
pub proof fn law_ingest_result(o: PlanOutcome, summary: Option<DocId>, r: IngestResult)
    requires
        call_ensures(ingest_result, (o, summary), r),
    ensures
        r.deep_view().touched_docs == o.deep_view().touched,
        r.deep_view().created_docs == o.deep_view().created,
        r.deep_view().contradictions == o.deep_view().contradictions,
        r.deep_view().summary_doc_id == summary.deep_view(),
{
}

/// What is written back is a paragraph with the content: behind all that hangs on
/// the root of the page that is there, or as the root of a new page of the title.
pub proof fn law_write_back(title: &str, content: &str, d: &Document, r: WriteBackAction, n: WriteBackAction)
    requires
        call_ensures(write_back, (title, content, Some(d)), r),
        call_ensures(write_back, (title, content, None::<&Document>), n),
    ensures
        r.deep_view() matches WriteBackActionM::Append { parent, after, block } && parent
            == d.deep_view().root && crate::json::all_text(block.content) == content@
            && block.children.len() == 0 && match block_of(d.deep_view().blocks, parent) {
            Some(b) => if b.children.len() > 0 {
                after == Some(b.children.last())
            } else {
                after is None
            },
            None => after is None,
        },
        n.deep_view() matches WriteBackActionM::Create { title: t, root } && t == title@
            && crate::json::all_text(root.content) == content@ && root.children.len() == 0,
{
    crate::tree::edit::law_text_content(content@);
}

/// A plan that nothing was recorded of is empty, and the severities have their
/// names.
pub proof fn law_plan_begun(o: PlanOutcome, s: &ContradictionSeverity, name: &'static str)
    requires
        call_ensures(PlanOutcome::new, (), o),
        call_ensures(ContradictionSeverity::as_str, (s,), name),
    ensures
        o.deep_view().touched.len() == 0,
        o.deep_view().created.len() == 0,
        o.deep_view().contradictions.len() == 0,
        s is Minor ==> name@ == "minor"@,
        s is Major ==> name@ == "major"@,
        s is Critical ==> name@ == "critical"@,
{
}

/// A call that records a step keeps all that was listed, and puts behind it the
/// page that was appended to, the page that was created or the contradiction that
/// was flagged, and nothing else.
pub proof fn law_record_call(
    o: &mut PlanOutcome,
    action: PlanAction,
    stored: Option<DocId>,
)
    requires
        call_ensures(PlanOutcome::record, (o, action, stored), ()),
    ensures
        ({
            let (had, got) = (old(o).deep_view(), final(o).deep_view());
            let (a, id) = (action.deep_view(), stored.deep_view());
            &&& got.touched == had.touched + if a is Append && id is Some {
                seq![a->Append_doc_id]
            } else {
                seq![]
            }
            &&& got.created == had.created + if a is Create && id is Some {
                seq![id->0]
            } else {
                seq![]
            }
            &&& got.contradictions == had.contradictions + if a is Flag {
                seq![a->Flag_0]
            } else {
                seq![]
            }
        }),
{
    let had = old(o).deep_view();
    assert(had.touched + seq![] =~= had.touched);
    assert(had.created + seq![] =~= had.created);
    assert(had.contradictions + seq![] =~= had.contradictions);
}

/// What a call decides to write or to propose bears the target page of the
/// evaluation as its title and the content to write as its content.
pub proof fn law_decide_call(
    policy: &WriteBackPolicy,
    eval: &WriteBackEval,
    r: WriteBackDecision,
)
    requires
        call_ensures(decide, (policy, eval), r),
    ensures
        r.deep_view() matches WriteBackDecisionM::Write { title, content }
            ==> eval.deep_view().target_page == Some(title)
            && eval.deep_view().content_to_write == Some(content) && policy.deep_view() is Auto,
        r.deep_view() matches WriteBackDecisionM::Propose { title, content }
            ==> eval.deep_view().target_page == Some(title)
            && eval.deep_view().content_to_write == Some(content)
            && policy.deep_view() is AskFirst,
{
    law_decision_carries_evaluation(policy.deep_view(), eval.deep_view());
}

} // verus!
