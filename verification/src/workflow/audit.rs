//! What the audits of a wiki report, ask for and skip.

use vstd::prelude::*;

use crate::config::{lint_defaults, validation_defaults, LintConfigM};
use crate::float::F32;
use crate::json::{all_text, member, Json};
use crate::llm::engine::at_most;
use crate::seqs::{keep, law_keep_filters, lemma_keep_contains};
use crate::ids::BlockId;
use crate::storage::{LinkTargetM, WikiLink, WikiLinkM};
use crate::text::{first_chars, joined, signed_decimal};
use crate::text_law::law_first_chars;
use crate::time::{date_text, earlier, Timestamp};
use crate::tree::block::BlockM;
use crate::tree::doc::{latest, DocumentM};
use crate::workflow::lint::{
    added_reason, after_read, after_reply, age_reason, awaiting, block_texts, blocks_to_clear, changed_at, compared_text,
    comparing, contradiction_prompt_of, contradictions_begun, flag_of, in_band, is_old, is_orphan, judged_age,
    judged_contradiction, judging, last_change, linked_ids, links_audited, missing_of, missing_pages, named_pairs,
    page_text_of, pair_judged, pair_read, pairs_view, placeholder_text, reaches_floor, reading,
    report_of, similar_of, sources_of, stale_prompt_of, stale_step_of, stale_verdict_of,
    unit_of_page, ContradictionAuditM, LikenessM, LinkAuditM, LinkedPageM, LintReportM, PagePair,
    PagePairM, PageTextM, StaleAuditM, StalePageM, StaleStepM,
};
use crate::workflow::reply::reply_value;

verus! {

// ---- Links -----------------------------------------------------------------

/// The orphans are the pages that nothing links to, in their order.
pub proof fn law_orphans(pages: Seq<LinkedPageM>)
    ensures
        linked_ids(keep(pages, is_orphan())) == pages.filter(
            |p: LinkedPageM| p.backlinks == 0,
        ).map_values(|p: LinkedPageM| p.doc_id),
{
    let f = |p: LinkedPageM| p.backlinks == 0;
    law_keep_filters(pages, is_orphan());
    assert(is_orphan() =~= f);
    assert(linked_ids(pages.filter(f)) =~= pages.filter(f).map_values(|p: LinkedPageM| p.doc_id));
}

/// The titles that are missing are those that broken links name, in order. They
/// are made, and the links are cleared and counted, exactly if that is wanted.
pub proof fn law_links_audited(broken: Seq<WikiLinkM>, c: LintConfigM)
    requires
        broken.len() <= usize::MAX,
    ensures
        ({
            let a = links_audited(broken, c);
            &&& a.missing == broken.filter(|l: WikiLinkM| l.to is Broken).map_values(
                |l: WikiLinkM| l.to->Broken_0,
            )
            &&& c.auto_create_missing_pages ==> a.create == a.missing
            &&& !c.auto_create_missing_pages ==> a.create.len() == 0
            &&& c.auto_fix_broken_links ==> a.fixed == broken.len() && a.clear == broken.map_values(
                |l: WikiLinkM| l.from,
            )
            &&& !c.auto_fix_broken_links ==> a.fixed == 0 && a.clear.len() == 0
        }),
{
    lemma_missing(broken);
    assert(sources_of(broken) =~= broken.map_values(|l: WikiLinkM| l.from));
}

proof fn lemma_missing(links: Seq<WikiLinkM>)
    ensures
        missing_of(links) == links.filter(|l: WikiLinkM| l.to is Broken).map_values(
            |l: WikiLinkM| l.to->Broken_0,
        ),
    decreases links.len(),
{
    reveal(Seq::filter);
    let f = |l: WikiLinkM| l.to is Broken;
    let g = |l: WikiLinkM| l.to->Broken_0;
    if links.len() > 0 {
        lemma_missing(links.drop_last());
        if f(links.last()) {
            assert(links.filter(f).map_values(g) =~= links.drop_last().filter(f).map_values(g).push(
                g(links.last()),
            ));
        }
    }
    assert(missing_of(links) =~= links.filter(f).map_values(g));
}

/// The page that is made for a missing title has it as its heading.
pub proof fn law_placeholder(name: Seq<char>)
    ensures
        (seq!['#', ' '] + name + seq!['\n']).is_prefix_of(placeholder_text(name)),
{
    reveal_strlit("# ");
    reveal_strlit("\n\n(自动创建的占位页面)");
    assert("# "@ =~= seq!['#', ' ']);
    assert((seq!['#', ' '] + name + seq!['\n']).is_prefix_of(placeholder_text(name)));
}

// ---- Old pages -------------------------------------------------------------

/// The text of a page is the texts of its blocks, in order.
pub proof fn law_page_text(d: DocumentM, sep: Seq<char>)
    ensures
        page_text_of(d, sep) == joined(d.blocks.map_values(|b: BlockM| all_text(b.content)), sep),
{
    assert(block_texts(d.blocks) =~= d.blocks.map_values(|b: BlockM| all_text(b.content)));
}

/// A page with blocks is old exactly if its last change lies before the given
/// time; one without blocks counts as changed today.
pub proof fn law_is_old(d: DocumentM, since: Timestamp, today: Timestamp, t: Timestamp)
    requires
        d.blocks.len() > 0 ==> latest(d.blocks, t),
    ensures
        d.blocks.len() > 0 ==> (is_old(d, since, today) <==> earlier(t, since)),
        d.blocks.len() == 0 ==> (is_old(d, since, today) <==> earlier(today, since)),
        d.blocks.len() > 0 ==> changed_at(d, today) == t,
        d.blocks.len() == 0 ==> changed_at(d, today) == today,
{
    if d.blocks.len() > 0 {
        let i = choose|i: int| 0 <= i < d.blocks.len() && (
        #[trigger] d.blocks[i]).meta.updated_at == t;
        assert(d.blocks[i].meta.updated_at == t);
        let s = last_change(d.blocks);
        assert(latest(d.blocks, s));
        let k = choose|k: int| 0 <= k < d.blocks.len() && (
        #[trigger] d.blocks[k]).meta.updated_at == s;
        assert(!earlier(t, d.blocks[k].meta.updated_at));
        assert(!earlier(s, d.blocks[i].meta.updated_at));
    }
}

/// The order of times: no time is before itself, of two that differ one is before
/// the other, and what is before is carried over; some days earlier is before.
pub proof fn law_earlier(a: Timestamp, b: Timestamp, c: Timestamp, days: int)
    ensures
        !earlier(a, a),
        !(earlier(a, b) && earlier(b, a)),
        a != b ==> earlier(a, b) || earlier(b, a),
        earlier(a, b) && earlier(b, c) ==> earlier(a, c),
        a.secs < b.secs ==> earlier(a, b),
        a.secs == b.secs ==> (earlier(a, b) <==> a.nanos < b.nanos),
        days > 0 && i64::MIN <= a.secs - days * 86400 ==> earlier(
            crate::time::days_earlier(a, days),
            a,
        ) && a.secs - crate::time::days_earlier(a, days).secs == days * 24 * 60 * 60
            && crate::time::days_earlier(a, days).nanos == a.nanos,
{
}

/// Why a page is old names the days first, and behind them when it was changed
/// last.
pub proof fn law_age_reason(days: i64, changed: Seq<char>)
    ensures
        signed_decimal(days as int).is_prefix_of(age_reason(days, changed)),
        (changed + "）"@).is_suffix_of(age_reason(days, changed)),
        age_reason(days, changed).len() == signed_decimal(days as int).len() + changed.len()
            + " 天未更新（最后更新于 "@.len() + "）"@.len(),
{
    let r = age_reason(days, changed);
    assert(signed_decimal(days as int).is_prefix_of(r));
    assert((changed + "）"@).is_suffix_of(r));
}

/// The prompt about an old page holds the date of today at its beginning, and the
/// beginning of the text of the page directly behind the heading for it; what stands
/// around depends on neither.
pub proof fn law_stale_prompt() -> (r: (Seq<char>, Seq<char>))
    ensures
        forall|today: Seq<char>, text: Seq<char>| #[trigger]
            stale_prompt_of(today, text) == "当前日期: "@ + today + r.0 + first_chars(text, 2000)
                + r.1,
        "\n\n## 页面内容\n"@.is_suffix_of(r.0),
        "\n\n## 任务\n"@.is_prefix_of(r.1),
{
    let mid = "。评估以下 wiki 页面内容是否已过时或不再准确。\n\n## 页面内容\n"@;
    let tail =
        "\n\n## 任务\n以 JSON 输出（只输出 JSON）：\n```json\n{\n  \"is_stale\": true,\n  \"reason\": \"过时原因的简要中文描述\"\n}\n```\n若内容仍然准确、不过时，将 is_stale 设为 false。"@;
    reveal_strlit("。评估以下 wiki 页面内容是否已过时或不再准确。\n\n## 页面内容\n");
    reveal_strlit(
        "\n\n## 任务\n以 JSON 输出（只输出 JSON）：\n```json\n{\n  \"is_stale\": true,\n  \"reason\": \"过时原因的简要中文描述\"\n}\n```\n若内容仍然准确、不过时，将 is_stale 设为 false。",
    );
    reveal_strlit("\n\n## 页面内容\n");
    reveal_strlit("\n\n## 任务\n");
    assert("\n\n## 页面内容\n"@.is_suffix_of(mid));
    assert("\n\n## 任务\n"@.is_prefix_of(tail));
    (mid, tail)
}

/// What the model is asked about an old page: about today, and about the text of
/// the page, with its blocks on lines of their own.
pub proof fn law_stale_question(
    s: StaleAuditM,
    d: DocumentM,
    c: LintConfigM,
    since: Timestamp,
    today: Timestamp,
) -> (r: (Seq<char>, Seq<char>))
    ensures
        after_read(s, Some(d), c, since, today).1 matches Some(p) ==> p == "当前日期: "@ + date_text(
            today,
        ) + r.0 + first_chars(page_text_of(d, "\n"@), 2000) + r.1,
        "\n\n## 页面内容\n"@.is_suffix_of(r.0),
        after_read(s, Some(d), c, since, today).1 is Some ==> after_read(
            s,
            Some(d),
            c,
            since,
            today,
        ).0.waiting == Some(age_reason(c.stale_days_threshold, date_text(changed_at(d, today)))),
{
    law_stale_prompt()
}

/// An audit goes page by page: a page that is settled is left behind, one that the
/// model is asked about is counted and waited for, and the list of pages stays. A
/// page that is not there is skipped.
pub proof fn law_audit_steps(
    s: StaleAuditM,
    doc: Option<DocumentM>,
    c: LintConfigM,
    since: Timestamp,
    today: Timestamp,
    reply: Option<Seq<char>>,
)
    requires
        s.at < s.pages.len() <= usize::MAX,
        s.asked < usize::MAX,
    ensures
        ({
            let (t, q) = after_read(s, doc, c, since, today);
            &&& t.pages == s.pages
            &&& q is None ==> t.at == s.at + 1 && t.asked == s.asked && t.waiting is None
            &&& q is Some ==> t.at == s.at && t.asked == s.asked + 1 && t.waiting is Some && t.found
                == s.found
            &&& doc is None ==> q is None && t.found == s.found
            &&& s.found.is_prefix_of(t.found)
        }),
        s.waiting is Some ==> ({
            let t = after_reply(s, reply);
            &&& t.pages == s.pages && t.at == s.at + 1 && t.asked == s.asked && t.waiting is None
            &&& s.found.is_prefix_of(t.found)
        }),
{
}

/// What the model says of an old page: the page is reported exactly if it says so,
/// with the reason it was asked for, and behind it the model's own where it gives one.
pub proof fn law_judged_age(reason: Seq<char>, value: Json)
    ensures
        judged_age(reason, Some(value)) is Some <==> member(value, "is_stale"@) == Some(
            Json::Bool(true),
        ),
        judged_age(reason, None) is None,
        judged_age(reason, Some(value)) matches Some(r) ==> reason.is_prefix_of(r) && match member(
            value,
            "reason"@,
        ) {
            Some(Json::Str(why)) if why.len() > 0 => r == reason + (" [LLM: "@ + why + "]"@),
            _ => r == reason,
        },
{
    if let Some(r) = judged_age(reason, Some(value)) {
        assert(reason + added_reason(value) == r);
        if added_reason(value).len() == 0 {
            assert(r =~= reason);
        }
    }
}

// ---- Similar pages ---------------------------------------------------------

/// A page is compared by its text exactly if that is longer than the least.
pub proof fn law_compared_text(d: DocumentM, min_bytes: usize)
    requires
        vstd::utf8::encode_utf8(page_text_of(d, " "@)).len() <= usize::MAX,
    ensures
        compared_text(d, min_bytes) is Some <==> vstd::utf8::encode_utf8(page_text_of(d, " "@)).len()
            > min_bytes,
        compared_text(d, min_bytes) matches Some(t) ==> t == page_text_of(d, " "@),
{
}

/// A page is embedded under its identity, with its text.
pub proof fn law_page_unit(p: PageTextM)
    ensures
        unit_of_page(p).id == p.doc_id,
        unit_of_page(p).text == p.text,
        unit_of_page(p).path == seq![p.doc_id],
{
}

/// The similar pairs are those whose likeness reaches the floor, each named by its
/// two pages, left and right; where all likenesses are numbers the most alike come
/// first.
pub proof fn law_similar(
    ids: Seq<Seq<char>>,
    ls: Seq<LikenessM>,
    floor: F32,
    r: Seq<PagePair>,
) -> (places: Seq<int>)
    requires
        similar_of(ids, ls, floor, r),
    ensures
        ({
            let alike = ls.filter(
                |l: LikenessM| floor.below(l.similarity) || floor.level(l.similarity),
            );
            &&& r.len() == alike.len()
            &&& places.len() == alike.len()
            &&& places.no_duplicates()
            &&& forall|i: int|
                0 <= i < r.len() ==> 0 <= #[trigger] places[i] < alike.len()
                    && r[i].deep_view().left == ids[alike[places[i]].left as int]
                    && r[i].deep_view().right == ids[alike[places[i]].right as int]
                    && r[i].deep_view().similarity == alike[places[i]].similarity
        }),
{
    let f = |l: LikenessM| floor.below(l.similarity) || floor.level(l.similarity);
    law_keep_filters(ls, reaches_floor(floor));
    assert(reaches_floor(floor) =~= f);
    let alike = ls.filter(f);
    let all = choose|all: Seq<PagePair>| #[trigger]
        pairs_view(all) == named_pairs(ids, keep(ls, reaches_floor(floor)))
            && crate::sort::sorted_from(crate::storage::ByScore {  }, all, r);
    let places = choose|perm: Seq<int>| #[trigger]
        crate::sort::arranged(all, r, perm) && (crate::sort::consistent(
            crate::storage::ByScore {  },
            all,
        ) ==> crate::sort::in_order(crate::storage::ByScore {  }, r, perm));
    assert(pairs_view(all).len() == alike.len());
    assert forall|i: int| 0 <= i < r.len() implies 0 <= #[trigger] places[i] < alike.len()
        && r[i].deep_view().left == ids[alike[places[i]].left as int] && r[i].deep_view().right
        == ids[alike[places[i]].right as int] && r[i].deep_view().similarity
        == alike[places[i]].similarity by {
        assert(r[i] == all[places[i]]);
        assert(pairs_view(all)[places[i]] == all[places[i]].deep_view());
    }
    places
}

/// Pairs are checked for contradictions where they are similar enough and no
/// duplicates, the first of them and no more than allowed.
pub proof fn law_contradictions_begun(pairs: Seq<PagePairM>, c: LintConfigM)
    ensures
        contradictions_begun(pairs, c).pairs.is_prefix_of(
            pairs.filter(
                |p: PagePairM|
                    !p.similarity.nan() && !c.contradiction_min_similarity.nan()
                        && !c.duplicate_threshold.nan() && !p.similarity.below(
                        c.contradiction_min_similarity,
                    ) && p.similarity.below(c.duplicate_threshold),
            ),
        ),
        contradictions_begun(pairs, c).pairs.len() <= c.contradiction_max_candidates,
        contradictions_begun(pairs, c).at == 0,
        !contradictions_begun(pairs, c).asked,
        contradictions_begun(pairs, c).found.len() == 0,
{
    let band = in_band(c.contradiction_min_similarity, c.duplicate_threshold);
    let f = |p: PagePairM|
        !p.similarity.nan() && !c.contradiction_min_similarity.nan()
            && !c.duplicate_threshold.nan() && !p.similarity.below(c.contradiction_min_similarity)
            && p.similarity.below(c.duplicate_threshold);
    law_keep_filters(pairs, band);
    assert(band =~= f);
}

/// The prompt about two pages holds how similar they are, and directly behind
/// their headings the beginning of the first text and that of the second; what
/// stands around depends on none of them.
pub proof fn law_contradiction_prompt() -> (r: (Seq<char>, Seq<char>))
    ensures
        forall|similarity: Seq<char>, a: Seq<char>, b: Seq<char>| #[trigger]
            contradiction_prompt_of(similarity, a, b) == r.0 + similarity + ")\n"@ + first_chars(
                a,
                2000,
            ) + "\n\n## 文本 B\n"@ + first_chars(b, 2000) + r.1,
        "\n\n## 文本 A (相似度: "@.is_suffix_of(r.0),
        "\n\n## 任务\n"@.is_prefix_of(r.1),
{
    let head =
        "你是一个知识库质量检查器。请检查以下两段文本是否存在事实性矛盾。\n\n## 文本 A (相似度: "@;
    let tail =
        "\n\n## 任务\n识别所有事实性矛盾。以 JSON 格式输出（只输出 JSON）：\n```json\n{\n\"has_contradiction\": true,\n\"description\": \"对矛盾的简要中文描述\"\n}\n```\n若无矛盾则返回：\n```json\n{\n\"has_contradiction\": false,\n\"description\": \"\"\n}\n```"@;
    reveal_strlit(
        "你是一个知识库质量检查器。请检查以下两段文本是否存在事实性矛盾。\n\n## 文本 A (相似度: ",
    );
    reveal_strlit(
        "\n\n## 任务\n识别所有事实性矛盾。以 JSON 格式输出（只输出 JSON）：\n```json\n{\n\"has_contradiction\": true,\n\"description\": \"对矛盾的简要中文描述\"\n}\n```\n若无矛盾则返回：\n```json\n{\n\"has_contradiction\": false,\n\"description\": \"\"\n}\n```",
    );
    reveal_strlit("\n\n## 文本 A (相似度: ");
    reveal_strlit("\n\n## 任务\n");
    assert("\n\n## 文本 A (相似度: "@.is_suffix_of(head));
    assert("\n\n## 任务\n"@.is_prefix_of(tail));
    (head, tail)
}

/// Two pages that are there are asked about, the left one as the first text and the
/// right one as the second; a pair of which one is gone is left behind.
pub proof fn law_pair_read(
    s: ContradictionAuditM,
    similarity: Seq<char>,
    left: Option<DocumentM>,
    right: Option<DocumentM>,
) -> (r: (Seq<char>, Seq<char>))
    requires
        s.at < s.pairs.len() <= usize::MAX,
    ensures
        ({
            let (t, q) = pair_read(s, similarity, left, right);
            &&& t.pairs == s.pairs && t.found == s.found
            &&& q is Some <==> left is Some && right is Some
            &&& q is Some ==> t.asked && t.at == s.at
            &&& q is None ==> t.at == s.at + 1 && t.asked == s.asked
            &&& q matches Some(p) ==> p == r.0 + similarity + ")\n"@ + first_chars(
                page_text_of(left->0, "\n"@),
                2000,
            ) + "\n\n## 文本 B\n"@ + first_chars(page_text_of(right->0, "\n"@), 2000) + r.1
        }),
        "\n\n## 文本 A (相似度: "@.is_suffix_of(r.0),
{
    law_contradiction_prompt()
}

/// A contradiction is reported exactly if the model says so, with the two pages,
/// left and right, in brackets, and its description behind them.
pub proof fn law_judged_contradiction(left: Seq<char>, right: Seq<char>, value: Json)
    ensures
        judged_contradiction(left, right, Some(value)) is Some <==> member(
            value,
            "has_contradiction"@,
        ) == Some(Json::Bool(true)),
        judged_contradiction(left, right, None) is None,
        judged_contradiction(left, right, Some(value)) matches Some(r) ==> (seq!['['] + left + " ↔ "@
            + right + seq![']', ' ']).is_prefix_of(r) && (member(
            value,
            "description"@,
        ) matches Some(Json::Str(d)) ==> d.is_suffix_of(r) && r.len() == left.len() + right.len()
            + d.len() + 3 + " ↔ "@.len()),
{
    reveal_strlit("[");
    reveal_strlit("] ");
    assert("["@ =~= seq!['[']);
    assert("] "@ =~= seq![']', ' ']);
    if let Some(r) = judged_contradiction(left, right, Some(value)) {
        let front = seq!['['] + left + " ↔ "@ + right + seq![']', ' '];
        assert(front.is_prefix_of(r));
    }
}

/// After the reply the pair is left behind, and what the model found between its
/// two pages is listed behind what was found before.
pub proof fn law_pair_judged(s: ContradictionAuditM, reply: Option<Seq<char>>)
    requires
        s.at < s.pairs.len() <= usize::MAX,
    ensures
        ({
            let t = pair_judged(s, reply);
            &&& t.pairs == s.pairs && t.at == s.at + 1 && !t.asked
            &&& match judged_contradiction(
                s.pairs[s.at as int].left,
                s.pairs[s.at as int].right,
                reply_value(reply),
            ) {
                Some(x) => t.found == s.found.push(x),
                None => t.found == s.found,
            }
        }),
{
}

/// The report holds what each audit found.
pub proof fn law_report(
    space_id: Seq<char>,
    ran_at: Timestamp,
    pages: Seq<LinkedPageM>,
    links: LinkAuditM,
    stale: StaleAuditM,
    duplicates: Seq<PagePairM>,
    contradictions: ContradictionAuditM,
)
    requires
        pages.len() <= usize::MAX,
    ensures
        ({
            let r = report_of(space_id, ran_at, pages, links, stale, duplicates, contradictions);
            &&& r.space_id == space_id && r.ran_at == ran_at
            &&& r.orphan_pages == pages.filter(|p: LinkedPageM| p.backlinks == 0).map_values(
                |p: LinkedPageM| p.doc_id,
            )
            &&& r.missing_pages == links.missing && r.broken_links_fixed == links.fixed
            &&& r.contradictions == contradictions.found && r.stale_pages == stale.found
            &&& r.duplicate_candidates == duplicates && r.total_pages == pages.len()
        }),
{
    law_orphans(pages);
}

/// The settings at first: links are mended and no pages are made, the model is not
/// asked about old pages, and what is checked for contradictions is less alike than
/// a duplicate.
pub proof fn law_lint_defaults()
    ensures
        lint_defaults().contradiction_min_similarity.below(lint_defaults().duplicate_threshold),
        lint_defaults().auto_fix_broken_links,
        !lint_defaults().auto_create_missing_pages,
        !lint_defaults().stale_check_llm,
        lint_defaults().stale_days_threshold == 90,
        lint_defaults().list_limit == 500,
        lint_defaults().duplicate_scan_limit == 200,
        lint_defaults().duplicate_min_text_len == 50,
        lint_defaults().contradiction_max_candidates == 5,
        lint_defaults().stale_check_llm_max_candidates == 50,
        lint_defaults().duplicate_threshold.bits == 0x3f6b_851f,
        lint_defaults().contradiction_min_similarity.bits == 0x3f33_3333,
        validation_defaults().max_title_len == 500,
        validation_defaults().max_blocks_per_doc == 10_000,
        validation_defaults().max_block_depth == 100,
        validation_defaults().max_children_per_block == 100,
        validation_defaults().max_text_len_per_block == 100_000,
{
}

/// Of links that lead nowhere, the block that each starts from is cleared, in
/// order; a title is missing exactly if one of them names it.
pub proof fn law_broken_calls(
    broken: &Vec<WikiLink>,
    cleared: Vec<BlockId>,
    missing: Vec<String>,
    title: Seq<char>,
)
    requires
        call_ensures(blocks_to_clear, (broken,), cleared),
        call_ensures(missing_pages, (broken,), missing),
    ensures
        cleared.deep_view().len() == broken.deep_view().len(),
        forall|i: int|
            0 <= i < broken.deep_view().len() ==> #[trigger] cleared.deep_view()[i]
                == broken.deep_view()[i].from,
        missing.deep_view().contains(title) <==> exists|i: int|
            0 <= i < broken.deep_view().len() && (#[trigger] broken.deep_view()[i]).to
                == LinkTargetM::Broken(title),
{
    lemma_missing_titles(broken.deep_view(), title);
}

proof fn lemma_missing_titles(links: Seq<WikiLinkM>, title: Seq<char>)
    ensures
        missing_of(links).contains(title) <==> exists|i: int|
            0 <= i < links.len() && (#[trigger] links[i]).to == LinkTargetM::Broken(title),
    decreases links.len(),
{
    if links.len() > 0 {
        let front = links.drop_last();
        lemma_missing_titles(front, title);
        let had = missing_of(front);
        if missing_of(front).contains(title) {
            let i = choose|i: int|
                0 <= i < front.len() && (#[trigger] front[i]).to == LinkTargetM::Broken(title);
            assert(links[i].to == LinkTargetM::Broken(title));
            let k = choose|k: int| 0 <= k < had.len() && had[k] == title;
            assert(missing_of(links)[k] == title);
        } else {
            assert forall|i: int|
                0 <= i < front.len() implies (#[trigger] links[i]).to != LinkTargetM::Broken(
                title,
            ) by {
                assert(front[i] == links[i]);
            }
            if links.last().to == LinkTargetM::Broken(title) {
                assert(missing_of(links)[had.len() as int] == title);
                assert(links[links.len() - 1].to == LinkTargetM::Broken(title));
            }
            if missing_of(links).contains(title) {
                let k = choose|k: int|
                    0 <= k < missing_of(links).len() && missing_of(links)[k] == title;
                assert(k == had.len()) by {
                    if k < had.len() {
                        assert(had[k] == title);
                    }
                }
                assert(links[links.len() - 1].to == LinkTargetM::Broken(title));
            }
        }
    }
}

} // verus!
