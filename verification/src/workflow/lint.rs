//! Auditing a wiki: pages that nothing links to, links that lead nowhere, old
//! pages, duplicates and contradictions.

use vstd::prelude::*;
use vstd::string::StringSliceAdditionalSpecFns;
use vstd::utf8::encode_utf8;

use crate::config::{LintConfig, LintConfigM};
use crate::float::F32;
use crate::ids::{BlockId, DocId};
use crate::json::{all_text, member, text_of, Json, JsonValue};
use crate::llm::engine::at_most;
use crate::llm::unit::{TextUnit, TextUnitM};
use crate::seqs::{keep, lemma_keep_contains, lemma_keep_step};
use crate::sort::{sorted_from, stable_sort};
use crate::storage::{ByScore, LinkTarget, LinkTargetM, Scored, WikiLink, WikiLinkM};
use crate::text::{cat3, first_chars, join, joined, show_i64, signed_decimal, take_chars};
use crate::time::{date_text, earlier, Timestamp};
use crate::tree::block::{Block, BlockM, BlockType};
use crate::tree::doc::{latest, Document, DocumentM, SpaceId};
use crate::workflow::reply::{fresh_text_block, read_reply, reply_value, text_block};

verus! {

broadcast use vstd::std_specs::vec::group_vec_axioms;

/// Two pages and how similar they are.
#[derive(Debug, PartialEq)]
pub struct PagePair {
    pub left: DocId,
    pub right: DocId,
    pub similarity: F32,
}

/// What a `PagePair` holds.
#[verifier::ext_equal]
pub struct PagePairM {
    pub left: Seq<char>,
    pub right: Seq<char>,
    pub similarity: F32,
}

impl DeepView for PagePair {
    type V = PagePairM;

    open spec fn deep_view(&self) -> PagePairM {
        PagePairM {
            left: self.left.deep_view(),
            right: self.right.deep_view(),
            similarity: self.similarity,
        }
    }
}

impl Clone for PagePair {
    fn clone(&self) -> (r: Self)
        ensures
            r.deep_view() == self.deep_view(),
    {
        PagePair {
            left: self.left.clone(),
            right: self.right.clone(),
            similarity: self.similarity,
        }
    }
}

impl Scored for PagePair {
    open spec fn spec_score(&self) -> F32 {
        self.similarity
    }

    fn get_score(&self) -> (r: F32) {
        self.similarity
    }
}

/// A page that may be out of date, and why.
#[derive(Debug, PartialEq)]
pub struct StalePage {
    pub doc_id: DocId,
    pub reason: String,
}

/// What a `StalePage` holds.
#[verifier::ext_equal]
pub struct StalePageM {
    pub doc_id: Seq<char>,
    pub reason: Seq<char>,
}

impl DeepView for StalePage {
    type V = StalePageM;

    open spec fn deep_view(&self) -> StalePageM {
        StalePageM {
            doc_id: self.doc_id.deep_view(),
            reason: self.reason.deep_view(),
        }
    }
}

impl Clone for StalePage {
    fn clone(&self) -> (r: Self)
        ensures
            r.deep_view() == self.deep_view(),
    {
        StalePage {
            doc_id: self.doc_id.clone(),
            reason: self.reason.clone(),
        }
    }
}

/// What an audit found.
#[derive(Debug, PartialEq)]
pub struct LintReport {
    pub space_id: SpaceId,
    pub ran_at: Timestamp,
    pub orphan_pages: Vec<DocId>,
    pub missing_pages: Vec<String>,
    pub contradictions: Vec<String>,
    pub stale_pages: Vec<StalePage>,
    pub duplicate_candidates: Vec<PagePair>,
    pub broken_links_fixed: usize,
    pub total_pages: usize,
}

/// What a `LintReport` holds.
#[verifier::ext_equal]
pub struct LintReportM {
    pub space_id: Seq<char>,
    pub ran_at: Timestamp,
    pub orphan_pages: Seq<Seq<char>>,
    pub missing_pages: Seq<Seq<char>>,
    pub contradictions: Seq<Seq<char>>,
    pub stale_pages: Seq<StalePageM>,
    pub duplicate_candidates: Seq<PagePairM>,
    pub broken_links_fixed: usize,
    pub total_pages: usize,
}

impl DeepView for LintReport {
    type V = LintReportM;

    open spec fn deep_view(&self) -> LintReportM {
        LintReportM {
            space_id: self.space_id.deep_view(),
            ran_at: self.ran_at,
            orphan_pages: self.orphan_pages.deep_view(),
            missing_pages: self.missing_pages.deep_view(),
            contradictions: self.contradictions.deep_view(),
            stale_pages: self.stale_pages.deep_view(),
            duplicate_candidates: self.duplicate_candidates.deep_view(),
            broken_links_fixed: self.broken_links_fixed,
            total_pages: self.total_pages,
        }
    }
}

impl Clone for LintReport {
    fn clone(&self) -> (r: Self)
        ensures
            r.deep_view() == self.deep_view(),
    {
        LintReport {
            space_id: self.space_id.clone(),
            ran_at: self.ran_at,
            orphan_pages: self.orphan_pages.clone(),
            missing_pages: self.missing_pages.clone(),
            contradictions: self.contradictions.clone(),
            stale_pages: self.stale_pages.clone(),
            duplicate_candidates: self.duplicate_candidates.clone(),
            broken_links_fixed: self.broken_links_fixed,
            total_pages: self.total_pages,
        }
    }
}

// ---- Links -----------------------------------------------------------------

/// A page with the number of links that lead to it.
#[derive(Debug, PartialEq)]
pub struct LinkedPage {
    pub doc_id: DocId,
    pub backlinks: usize,
}

/// What a `LinkedPage` holds.
#[verifier::ext_equal]
pub struct LinkedPageM {
    pub doc_id: Seq<char>,
    pub backlinks: usize,
}

impl DeepView for LinkedPage {
    type V = LinkedPageM;

    open spec fn deep_view(&self) -> LinkedPageM {
        LinkedPageM {
            doc_id: self.doc_id.deep_view(),
            backlinks: self.backlinks,
        }
    }
}

impl Clone for LinkedPage {
    fn clone(&self) -> (r: Self)
        ensures
            r.deep_view() == self.deep_view(),
    {
        LinkedPage {
            doc_id: self.doc_id.clone(),
            backlinks: self.backlinks,
        }
    }
}

/// Whether nothing links to a page.
pub open spec fn is_orphan() -> spec_fn(LinkedPageM) -> bool {
    |p: LinkedPageM| p.backlinks == 0
}

/// The identities of pages.
pub open spec fn linked_ids(pages: Seq<LinkedPageM>) -> Seq<Seq<char>> {
    Seq::new(pages.len(), |i: int| pages[i].doc_id)
}

/// The pages that nothing links to.
pub fn orphans(pages: &Vec<LinkedPage>) -> (r: Vec<DocId>)
    ensures
        r.deep_view() == linked_ids(keep(pages.deep_view(), is_orphan())),
{
    let ghost all = pages.deep_view();
    let ghost p = is_orphan();
    let mut r: Vec<DocId> = Vec::new();
    let mut i: usize = 0;
    assert(r.deep_view() =~= linked_ids(keep(all.take(0), p)));
    while i < pages.len()
        invariant
            i <= pages.len(),
            all == pages.deep_view(),
            p == is_orphan(),
            r.deep_view() == linked_ids(keep(all.take(i as int), p)),
        decreases pages.len() - i,
    {
        proof {
            lemma_keep_step(all, p, i as int);
        }
        let ghost done = r.deep_view();
        assert(all[i as int] == pages@[i as int].deep_view());
        if pages[i].backlinks == 0 {
            r.push(pages[i].doc_id.clone());
            assert(r.deep_view() =~= done.push(all[i as int].doc_id));
            assert(r.deep_view() =~= linked_ids(keep(all.take(i as int), p).push(all[i as int])));
        }
        i = i + 1;
    }
    assert(all.take(i as int) =~= all);
    r
}

/// The blocks that links start from.
pub open spec fn sources_of(links: Seq<WikiLinkM>) -> Seq<Seq<char>> {
    Seq::new(links.len(), |i: int| links[i].from)
}

/// The blocks whose links are cleared: one for each link that leads nowhere.
pub fn blocks_to_clear(broken: &Vec<WikiLink>) -> (r: Vec<BlockId>)
    ensures
        r.deep_view() == sources_of(broken.deep_view()),
{
    let ghost all = broken.deep_view();
    let ghost want = sources_of(all);
    let mut r: Vec<BlockId> = Vec::new();
    let mut i: usize = 0;
    assert(r.deep_view() =~= want.take(0));
    while i < broken.len()
        invariant
            i <= broken.len(),
            all == broken.deep_view(),
            want == sources_of(all),
            r.deep_view() == want.take(i as int),
        decreases broken.len() - i,
    {
        assert(all[i as int] == broken@[i as int].deep_view());
        let ghost done = r.deep_view();
        r.push(broken[i].from.clone());
        assert(r.deep_view() =~= done.push(want[i as int]));
        assert(want.take(i + 1) =~= done.push(want[i as int]));
        i = i + 1;
    }
    assert(want.take(i as int) =~= want);
    r
}

/// The titles that links name and no page has.
pub open spec fn missing_of(links: Seq<WikiLinkM>) -> Seq<Seq<char>>
    decreases links.len(),
{
    if links.len() == 0 {
        seq![]
    } else {
        let front = missing_of(links.drop_last());
        match links.last().to {
            LinkTargetM::Broken(name) => front.push(name),
            _ => front,
        }
    }
}

/// The titles that links name and no page has.
pub fn missing_pages(broken: &Vec<WikiLink>) -> (r: Vec<String>)
    ensures
        r.deep_view() == missing_of(broken.deep_view()),
{
    let ghost all = broken.deep_view();
    let mut r: Vec<String> = Vec::new();
    let mut i: usize = 0;
    assert(r.deep_view() =~= missing_of(all.take(0)));
    while i < broken.len()
        invariant
            i <= broken.len(),
            all == broken.deep_view(),
            r.deep_view() == missing_of(all.take(i as int)),
        decreases broken.len() - i,
    {
        assert(all.take(i + 1).drop_last() =~= all.take(i as int));
        assert(all.take(i + 1).last() == broken@[i as int].deep_view());
        let ghost done = r.deep_view();
        match &broken[i].to {
            LinkTarget::Broken(name) => {
                r.push(name.clone());
                assert(r.deep_view() =~= done.push(name@));
            },
            _ => {},
        }
        i = i + 1;
    }
    assert(all.take(i as int) =~= all);
    r
}

/// What is done about links that lead nowhere.
#[derive(Debug, PartialEq)]
pub struct LinkAudit {
    /// The titles that links name and no page has.
    pub missing: Vec<String>,
    /// The titles of the pages that are made.
    pub create: Vec<String>,
    /// The blocks whose links are cleared.
    pub clear: Vec<BlockId>,
    /// How many of the links are cleared.
    pub fixed: usize,
}

/// What a `LinkAudit` holds.
#[verifier::ext_equal]
pub struct LinkAuditM {
    pub missing: Seq<Seq<char>>,
    pub create: Seq<Seq<char>>,
    pub clear: Seq<Seq<char>>,
    pub fixed: usize,
}

impl DeepView for LinkAudit {
    type V = LinkAuditM;

    open spec fn deep_view(&self) -> LinkAuditM {
        LinkAuditM {
            missing: self.missing.deep_view(),
            create: self.create.deep_view(),
            clear: self.clear.deep_view(),
            fixed: self.fixed,
        }
    }
}

impl Clone for LinkAudit {
    fn clone(&self) -> (r: Self)
        ensures
            r.deep_view() == self.deep_view(),
    {
        LinkAudit {
            missing: self.missing.clone(),
            create: self.create.clone(),
            clear: self.clear.clone(),
            fixed: self.fixed,
        }
    }
}

/// What is done about links that lead nowhere: the titles that they name are
/// missing, whether or not the links are cleared.
pub open spec fn links_audited(broken: Seq<WikiLinkM>, c: LintConfigM) -> LinkAuditM {
    LinkAuditM {
        missing: missing_of(broken),
        create: if c.auto_create_missing_pages {
            missing_of(broken)
        } else {
            seq![]
        },
        clear: if c.auto_fix_broken_links {
            sources_of(broken)
        } else {
            seq![]
        },
        fixed: if c.auto_fix_broken_links {
            broken.len() as usize
        } else {
            0
        },
    }
}

/// What is done about links that lead nowhere.
pub fn audit_links(broken: &Vec<WikiLink>, config: &LintConfig) -> (r: LinkAudit)
    ensures
        r.deep_view() == links_audited(broken.deep_view(), config.deep_view()),
{
    let missing = missing_pages(broken);
    let create = if config.auto_create_missing_pages {
        missing.clone()
    } else {
        Vec::new()
    };
    let mut clear: Vec<BlockId> = Vec::new();
    let mut fixed: usize = 0;
    assert(clear.deep_view() =~= seq![]);
    if config.auto_fix_broken_links {
        clear = blocks_to_clear(broken);
        fixed = broken.len();
    }
    assert(create.deep_view() =~= links_audited(broken.deep_view(), config.deep_view()).create);
    LinkAudit { missing, create, clear, fixed }
}

/// Whatever the settings, every title that a link names and no page has is
/// reported as missing; links are cleared and pages made only where the
/// settings say so.
pub proof fn law_missing_pages_reported(
    broken: Seq<WikiLinkM>,
    c: LintConfigM,
    name: Seq<char>,
)
    ensures
        links_audited(broken, c).missing.contains(name) <==> exists|i: int|
            0 <= i < broken.len() && (#[trigger] broken[i]).to == LinkTargetM::Broken(name),
        links_audited(broken, c).clear.len() > 0 ==> c.auto_fix_broken_links,
        links_audited(broken, c).create.len() > 0 ==> c.auto_create_missing_pages,
    decreases broken.len(),
{
    if broken.len() > 0 {
        let front = broken.drop_last();
        let last = broken.len() - 1;
        law_missing_pages_reported(front, c, name);
        let names = missing_of(front);
        assert(broken[last] == broken.last());
        if names.contains(name) {
            let i = choose|i: int|
                0 <= i < front.len() && (#[trigger] front[i]).to == LinkTargetM::Broken(name);
            assert(broken[i].to == LinkTargetM::Broken(name));
            let k = choose|k: int| 0 <= k < names.len() && names[k] == name;
            assert(missing_of(broken)[k] == name);
        }
        if let LinkTargetM::Broken(n) = broken.last().to {
            assert(missing_of(broken)[names.len() as int] == n);
        }
        if missing_of(broken).contains(name) && !names.contains(name) {
            let k = choose|k: int|
                0 <= k < missing_of(broken).len() && missing_of(broken)[k] == name;
            if k < names.len() {
                assert(names[k] == name);
            }
            assert(broken[last].to == LinkTargetM::Broken(name));
        }
        if exists|i: int|
            0 <= i < broken.len() && (#[trigger] broken[i]).to == LinkTargetM::Broken(name) {
            let i = choose|i: int|
                0 <= i < broken.len() && (#[trigger] broken[i]).to == LinkTargetM::Broken(name);
            if i < last {
                assert(front[i].to == LinkTargetM::Broken(name));
            }
        }
    }
}

/// The text of a page that stands in for a missing one.
pub open spec fn placeholder_text(name: Seq<char>) -> Seq<char> {
    "# "@ + name + "\n\n(自动创建的占位页面)"@
}

/// The root block of a page that stands in for a missing one.
pub fn placeholder(name: &str) -> (r: Block)
    ensures
        fresh_text_block(r.deep_view(), BlockType::Paragraph, placeholder_text(name@), "lint"@),
{
    let text = cat3("# ", name, "\n\n(自动创建的占位页面)");
    text_block(BlockType::Paragraph, text.as_str(), "lint")
}

// ---- Age -------------------------------------------------------------------

/// The texts of blocks.
pub open spec fn block_texts(bs: Seq<BlockM>) -> Seq<Seq<char>> {
    Seq::new(bs.len(), |i: int| all_text(bs[i].content))
}

/// The text of a page, with `sep` between its blocks.
pub open spec fn page_text_of(d: DocumentM, sep: Seq<char>) -> Seq<char> {
    joined(block_texts(d.blocks), sep)
}

/// The text of a page, with `sep` between its blocks.
pub fn page_text(doc: &Document, sep: &str) -> (r: String)
    ensures
        r@ == page_text_of(doc.deep_view(), sep@),
{
    let ghost bs = doc.deep_view().blocks;
    let ghost want = block_texts(bs);
    let mut parts: Vec<String> = Vec::new();
    let mut i: usize = 0;
    assert(parts.deep_view() =~= want.take(0));
    while i < doc.blocks.len()
        invariant
            i <= doc.blocks.len(),
            bs == doc.deep_view().blocks,
            want == block_texts(bs),
            parts.deep_view() == want.take(i as int),
        decreases doc.blocks.len() - i,
    {
        assert(bs[i as int] == doc.blocks@[i as int].deep_view());
        let ghost done = parts.deep_view();
        parts.push(doc.blocks[i].content.as_plain_text());
        assert(parts.deep_view() =~= done.push(want[i as int]));
        assert(want.take(i + 1) =~= done.push(want[i as int]));
        i = i + 1;
    }
    assert(want.take(i as int) =~= want);
    join(&parts, sep)
}

/// Whether a page is old: none of its blocks changed since. A page without
/// blocks counts as changed today.
pub open spec fn is_old(d: DocumentM, since: Timestamp, today: Timestamp) -> bool {
    if d.blocks.len() == 0 {
        earlier(today, since)
    } else {
        forall|i: int|
            0 <= i < d.blocks.len() ==> earlier((#[trigger] d.blocks[i]).meta.updated_at, since)
    }
}

/// Why a page that last changed on a date is taken to be out of date.
pub open spec fn age_reason(days: i64, changed: Seq<char>) -> Seq<char> {
    signed_decimal(days as int) + " 天未更新（最后更新于 "@ + changed + "）"@
}

/// The prompt that asks whether a page is out of date.
pub open spec fn stale_prompt_of(today: Seq<char>, text: Seq<char>) -> Seq<char> {
    "当前日期: "@ + today + "。评估以下 wiki 页面内容是否已过时或不再准确。\n\n## 页面内容\n"@
        + first_chars(text, 2000)
        + "\n\n## 任务\n以 JSON 输出（只输出 JSON）：\n```json\n{\n  \"is_stale\": true,\n  \"reason\": \"过时原因的简要中文描述\"\n}\n```\n若内容仍然准确、不过时，将 is_stale 设为 false。"@
}

/// What is known of the age of a page.
#[derive(Debug, PartialEq)]
pub enum StaleStep {
    Fresh,
    /// Out of date, for a reason.
    Stale(String),
    /// Old, for a reason, and out of date if the language model confirms it.
    Ask { prompt: String, reason: String },
    /// Old, but the language model was asked as often as it may be, so that
    /// nothing confirms that the page is out of date.
    Unconfirmed,
}

/// What a `StaleStep` holds.
#[verifier::ext_equal]
pub enum StaleStepM {
    Fresh,
    Stale(Seq<char>),
    Ask { prompt: Seq<char>, reason: Seq<char> },
    Unconfirmed,
}

impl DeepView for StaleStep {
    type V = StaleStepM;

    open spec fn deep_view(&self) -> StaleStepM {
        match self {
            StaleStep::Fresh => StaleStepM::Fresh,
            StaleStep::Stale(x) => StaleStepM::Stale(x.deep_view()),
            StaleStep::Ask { prompt, reason } => StaleStepM::Ask {
                prompt: prompt.deep_view(),
                reason: reason.deep_view(),
            },
            StaleStep::Unconfirmed => StaleStepM::Unconfirmed,
        }
    }
}

impl Clone for StaleStep {
    fn clone(&self) -> (r: Self)
        ensures
            r.deep_view() == self.deep_view(),
    {
        match self {
            StaleStep::Fresh => StaleStep::Fresh,
            StaleStep::Stale(x) => StaleStep::Stale(x.clone()),
            StaleStep::Ask { prompt, reason } => StaleStep::Ask {
                prompt: prompt.clone(),
                reason: reason.clone(),
            },
            StaleStep::Unconfirmed => StaleStep::Unconfirmed,
        }
    }
}

/// The latest time at which one of the blocks changed.
pub open spec fn last_change(bs: Seq<BlockM>) -> Timestamp {
    choose|t: Timestamp| latest(bs, t)
}

/// When a page last changed: the latest time of a block, or today if there is
/// no block.
pub open spec fn changed_at(d: DocumentM, today: Timestamp) -> Timestamp {
    if d.blocks.len() == 0 {
        today
    } else {
        last_change(d.blocks)
    }
}

pub proof fn lemma_last_change(bs: Seq<BlockM>, t: Timestamp)
    requires
        latest(bs, t),
    ensures
        last_change(bs) == t,
{
    let u = last_change(bs);
    assert(latest(bs, u));
    let i = choose|i: int| 0 <= i < bs.len() && (#[trigger] bs[i]).meta.updated_at == t;
    let k = choose|k: int| 0 <= k < bs.len() && (#[trigger] bs[k]).meta.updated_at == u;
    assert(!earlier(u, bs[i].meta.updated_at));
    assert(!earlier(t, bs[k].meta.updated_at));
}

/// What is known of the age of a page: it is fresh unless it is old. An old
/// page is out of date, unless the language model has a say: then it is asked,
/// as long as it was not asked too often.
pub open spec fn stale_step_of(
    d: DocumentM,
    c: LintConfigM,
    since: Timestamp,
    today: Timestamp,
    asked: usize,
) -> StaleStepM {
    let reason = age_reason(c.stale_days_threshold, date_text(changed_at(d, today)));
    if !is_old(d, since, today) {
        StaleStepM::Fresh
    } else if !c.stale_check_llm {
        StaleStepM::Stale(reason)
    } else if asked < c.stale_check_llm_max_candidates {
        StaleStepM::Ask {
            prompt: stale_prompt_of(date_text(today), page_text_of(d, "\n"@)),
            reason,
        }
    } else {
        StaleStepM::Unconfirmed
    }
}

/// Why a page that last changed on a date is taken to be out of date.
pub fn explain_age(days: i64, changed: &str) -> (r: String)
    ensures
        r@ == age_reason(days, changed@),
{
    let mut r = cat3(show_i64(days).as_str(), " 天未更新（最后更新于 ", changed);
    r.push_str("）");
    r
}

/// The prompt that asks whether a page is out of date, up to its first two
/// thousand characters.
pub fn stale_prompt(today: &str, text: &str) -> (r: String)
    ensures
        r@ == stale_prompt_of(today@, text@),
{
    let mut r = cat3(
        "当前日期: ",
        today,
        "。评估以下 wiki 页面内容是否已过时或不再准确。\n\n## 页面内容\n",
    );
    r.push_str(take_chars(text, 2000).as_str());
    r.push_str(
        "\n\n## 任务\n以 JSON 输出（只输出 JSON）：\n```json\n{\n  \"is_stale\": true,\n  \"reason\": \"过时原因的简要中文描述\"\n}\n```\n若内容仍然准确、不过时，将 is_stale 设为 false。",
    );
    r
}

/// What is known of the age of a page. `since` is the oldest change that keeps
/// a page fresh, and `asked` how often the language model was asked already.
pub fn stale_step(
    doc: &Document,
    config: &LintConfig,
    since: Timestamp,
    today: Timestamp,
    asked: usize,
) -> (r: StaleStep)
    ensures
        r.deep_view() == stale_step_of(
            doc.deep_view(),
            config.deep_view(),
            since,
            today,
            asked,
        ),
{
    let ghost bs = doc.deep_view().blocks;
    let changed = match doc.latest_change() {
        None => today,
        Some(t) => {
            proof {
                lemma_last_change(bs, t);
                let k = choose|k: int| 0 <= k < bs.len() && (#[trigger] bs[k]).meta.updated_at == t;
                assert(bs[k].meta.updated_at == t);
                if earlier(t, since) {
                    assert forall|i: int| 0 <= i < bs.len() implies earlier(
                        (#[trigger] bs[i]).meta.updated_at,
                        since,
                    ) by {
                        assert(!earlier(t, bs[i].meta.updated_at));
                    }
                }
            }
            t
        },
    };
    assert(earlier(changed, since) == is_old(doc.deep_view(), since, today));
    if !changed.before(since) {
        return StaleStep::Fresh;
    }
    let reason = explain_age(config.stale_days_threshold, changed.to_date().as_str());
    if !config.stale_check_llm {
        StaleStep::Stale(reason)
    } else if asked < config.stale_check_llm_max_candidates {
        let text = page_text(doc, "\n");
        let prompt = stale_prompt(today.to_date().as_str(), text.as_str());
        StaleStep::Ask { prompt, reason }
    } else {
        StaleStep::Unconfirmed
    }
}

/// The truth value of a member, if it is one.
pub open spec fn flag_of(j: Json, key: Seq<char>) -> Option<bool> {
    match member(j, key) {
        Some(Json::Bool(b)) => Some(b),
        _ => None,
    }
}

fn read_flag(j: &JsonValue, key: &str) -> (r: Option<bool>)
    ensures
        r == flag_of(j.deep_view(), key@),
{
    match j.get(key) {
        Some(v) => v.as_bool(),
        None => None,
    }
}

/// What the language model adds to a reason.
pub open spec fn added_reason(j: Json) -> Seq<char> {
    match text_of(member(j, "reason"@)) {
        Some(s) => if s.len() > 0 {
            " [LLM: "@ + s + "]"@
        } else {
            seq![]
        },
        None => seq![],
    }
}

/// Why an old page is out of date after the language model was asked, where
/// `value` is what it replied: only a reply that says so makes it out of date.
pub open spec fn judged_age(reason: Seq<char>, value: Option<Json>) -> Option<Seq<char>> {
    match value {
        Some(j) => if flag_of(j, "is_stale"@) == Some(true) {
            Some(reason + added_reason(j))
        } else {
            None
        },
        None => None,
    }
}

/// Why an old page is out of date after the language model was asked.
pub open spec fn stale_verdict_of(reason: Seq<char>, reply: Option<Seq<char>>) -> Option<Seq<char>> {
    judged_age(reason, reply_value(reply))
}

/// Why an old page is out of date, where `value` is what the language model
/// replied.
pub fn judge_age(reason: &str, value: Option<&JsonValue>) -> (r: Option<String>)
    ensures
        r.deep_view() == judged_age(
            reason@,
            (match value {
                Some(j) => Some(j.deep_view()),
                None => None,
            }),
        ),
{
    match value {
        None => None,
        Some(j) => {
            match read_flag(j, "is_stale") {
                Some(true) => {},
                _ => {
                    return None;
                },
            }
            let mut r = reason.to_owned();
            match j.get_str("reason") {
                Some(s) => {
                    if !s.is_empty() {
                        r.push_str(cat3(" [LLM: ", s, "]").as_str());
                    }
                },
                None => {},
            }
            assert(r@ =~= reason@ + added_reason(j.deep_view()));
            Some(r)
        },
    }
}

/// Why an old page is out of date after the language model was asked.
pub fn stale_verdict(reason: &str, reply: Option<String>) -> (r: Option<String>)
    ensures
        r.deep_view() == stale_verdict_of(reason@, reply.deep_view()),
{
    let value = read_reply(reply);
    judge_age(reason, value.as_ref())
}

/// Whether a reply says that a page is out of date.
pub open spec fn says_stale(value: Option<Json>) -> bool {
    match value {
        Some(j) => flag_of(j, "is_stale"@) == Some(true),
        None => false,
    }
}

/// An old page that the language model was asked about is out of date if and
/// only if the reply says so.
pub proof fn law_confirmed_page_reported(reason: Seq<char>, reply: Option<Seq<char>>)
    ensures
        stale_verdict_of(reason, reply) is Some <==> says_stale(reply_value(reply)),
{
}

/// How far the search for old pages has come.
#[derive(Debug, PartialEq)]
pub struct StaleAudit {
    pub pages: Vec<DocId>,
    /// Which page comes next.
    pub at: usize,
    /// How often the language model was asked.
    pub asked: usize,
    /// Why the page is old that the language model was asked about.
    pub waiting: Option<String>,
    pub found: Vec<StalePage>,
}

/// What a `StaleAudit` holds.
#[verifier::ext_equal]
pub struct StaleAuditM {
    pub pages: Seq<Seq<char>>,
    pub at: usize,
    pub asked: usize,
    pub waiting: Option<Seq<char>>,
    pub found: Seq<StalePageM>,
}

impl DeepView for StaleAudit {
    type V = StaleAuditM;

    open spec fn deep_view(&self) -> StaleAuditM {
        StaleAuditM {
            pages: self.pages.deep_view(),
            at: self.at,
            asked: self.asked,
            waiting: self.waiting.deep_view(),
            found: self.found.deep_view(),
        }
    }
}

impl Clone for StaleAudit {
    fn clone(&self) -> (r: Self)
        ensures
            r.deep_view() == self.deep_view(),
    {
        StaleAudit {
            pages: self.pages.clone(),
            at: self.at,
            asked: self.asked,
            waiting: self.waiting.clone(),
            found: self.found.clone(),
        }
    }
}

/// A page is read next.
pub open spec fn reading(s: StaleAuditM) -> bool {
    s.waiting is None && s.at < s.pages.len()
}

/// A reply of the language model comes next.
pub open spec fn awaiting(s: StaleAuditM) -> bool {
    s.waiting is Some && s.at < s.pages.len()
}

/// The search with a page done, and reported if there is a reason.
pub open spec fn moved_on(s: StaleAuditM, reason: Option<Seq<char>>) -> StaleAuditM {
    StaleAuditM {
        at: (s.at + 1) as usize,
        waiting: None,
        found: match reason {
            Some(r) => s.found.push(StalePageM { doc_id: s.pages[s.at as int], reason: r }),
            None => s.found,
        },
        ..s
    }
}

/// The search after a page was read, with what the language model is asked.
pub open spec fn after_read(
    s: StaleAuditM,
    doc: Option<DocumentM>,
    c: LintConfigM,
    since: Timestamp,
    today: Timestamp,
) -> (StaleAuditM, Option<Seq<char>>) {
    match doc {
        None => (moved_on(s, None), None),
        Some(d) => match stale_step_of(d, c, since, today, s.asked) {
            StaleStepM::Fresh | StaleStepM::Unconfirmed => (moved_on(s, None), None),
            StaleStepM::Stale(reason) => (moved_on(s, Some(reason)), None),
            StaleStepM::Ask { prompt, reason } => (
                StaleAuditM { asked: (s.asked + 1) as usize, waiting: Some(reason), ..s },
                Some(prompt),
            ),
        },
    }
}

/// The search after a reply of the language model.
pub open spec fn after_reply(s: StaleAuditM, reply: Option<Seq<char>>) -> StaleAuditM {
    match s.waiting {
        Some(reason) => moved_on(s, stale_verdict_of(reason, reply)),
        None => s,
    }
}

impl StaleAudit {
    /// A search through pages that has not begun.
    pub fn new(pages: Vec<DocId>) -> (r: StaleAudit)
        ensures
            r.deep_view() == (StaleAuditM {
                pages: pages.deep_view(),
                at: 0,
                asked: 0,
                waiting: None,
                found: seq![],
            }),
    {
        let r = StaleAudit { pages, at: 0, asked: 0, waiting: None, found: Vec::new() };
        assert(r.deep_view().found =~= seq![]);
        r
    }

    /// The page to read next; nothing when the search is over.
    pub fn next_page(&self) -> (r: Option<DocId>)
        ensures
            r.deep_view() == if self.at < self.deep_view().pages.len() {
                Some(self.deep_view().pages[self.at as int])
            } else {
                None
            },
    {
        if self.at < self.pages.len() {
            assert(self.deep_view().pages[self.at as int] == self.pages@[self.at as int].deep_view());
            Some(self.pages[self.at].clone())
        } else {
            None
        }
    }

    fn move_on(&mut self, reason: Option<String>)
        requires
            old(self).at < old(self).pages@.len(),
        ensures
            final(self).deep_view() == moved_on(old(self).deep_view(), reason.deep_view()),
    {
        let ghost was = self.deep_view();
        let total: usize = self.pages.len();
        assert(self.at < total);
        match reason {
            Some(r) => {
                let page = StalePage { doc_id: self.pages[self.at].clone(), reason: r };
                self.found.push(page);
                assert(page.deep_view().doc_id == was.pages[was.at as int]);
                assert(self.deep_view().found =~= was.found.push(page.deep_view()));
            },
            None => {},
        }
        self.waiting = None;
        self.at = self.at + 1;
    }

    /// Takes the page that was to be read, if there was one: what the language
    /// model is to be asked about it.
    pub fn read(
        &mut self,
        doc: Option<&Document>,
        config: &LintConfig,
        since: Timestamp,
        today: Timestamp,
    ) -> (r: Option<String>)
        requires
            reading(old(self).deep_view()),
        ensures
            (final(self).deep_view(), r.deep_view()) == after_read(
                old(self).deep_view(),
                (match doc {
                    Some(d) => Some(d.deep_view()),
                    None => None,
                }),
                config.deep_view(),
                since,
                today,
            ),
    {
        match doc {
            None => {
                self.move_on(None);
                None
            },
            Some(d) => match stale_step(d, config, since, today, self.asked) {
                StaleStep::Fresh | StaleStep::Unconfirmed => {
                    self.move_on(None);
                    None
                },
                StaleStep::Stale(reason) => {
                    self.move_on(Some(reason));
                    None
                },
                StaleStep::Ask { prompt, reason } => {
                    self.asked = self.asked + 1;
                    self.waiting = Some(reason);
                    Some(prompt)
                },
            },
        }
    }

    /// Takes the reply of the language model, if there was one.
    pub fn replied(&mut self, reply: Option<String>)
        requires
            awaiting(old(self).deep_view()),
        ensures
            final(self).deep_view() == after_reply(old(self).deep_view(), reply.deep_view()),
    {
        let mut waiting: Option<String> = None;
        std::mem::swap(&mut waiting, &mut self.waiting);
        match waiting {
            Some(reason) => {
                let verdict = stale_verdict(reason.as_str(), reply);
                self.move_on(verdict);
            },
            None => {},
        }
    }
}

/// What holds throughout a search: the language model was not asked more often
/// than allowed, and only pages that were looked at are reported, each at most
/// once and in their order.
pub open spec fn audit_sound(s: StaleAuditM, c: LintConfigM) -> bool {
    &&& s.at <= s.pages.len()
    &&& s.waiting is Some ==> s.at < s.pages.len()
    &&& s.asked <= c.stale_check_llm_max_candidates
    &&& exists|places: Seq<int>| #[trigger] reported_at(s, places)
}

/// The places of the reported pages among all, in ascending order.
pub open spec fn reported_at(s: StaleAuditM, places: Seq<int>) -> bool {
    &&& places.len() == s.found.len()
    &&& forall|k: int|
        0 <= k < places.len() ==> 0 <= #[trigger] places[k] < s.at && s.found[k].doc_id
            == s.pages[places[k]]
    &&& forall|j: int, k: int|
        0 <= j < k < places.len() ==> #[trigger] places[j] < #[trigger] places[k]
}

proof fn lemma_move_on_sound(s: StaleAuditM, c: LintConfigM, reason: Option<Seq<char>>)
    requires
        audit_sound(s, c),
        s.at < s.pages.len(),
        s.at < usize::MAX,
    ensures
        audit_sound(moved_on(s, reason), c),
{
    let places = choose|places: Seq<int>| #[trigger] reported_at(s, places);
    let next = moved_on(s, reason);
    match reason {
        Some(_) => {
            assert(reported_at(next, places.push(s.at as int)));
        },
        None => {
            assert(reported_at(next, places));
        },
    }
}

/// A search starts sound, and stays so whatever the pages hold and whatever the
/// language model replies.
pub proof fn law_stale_audit_sound(
    pages: Seq<Seq<char>>,
    s: StaleAuditM,
    c: LintConfigM,
    doc: Option<DocumentM>,
    since: Timestamp,
    today: Timestamp,
    reply: Option<Seq<char>>,
)
    requires
        audit_sound(s, c),
        s.pages.len() <= usize::MAX,
    ensures
        audit_sound(
            StaleAuditM { pages, at: 0, asked: 0, waiting: None, found: seq![] },
            c,
        ),
        reading(s) ==> audit_sound(after_read(s, doc, c, since, today).0, c),
        awaiting(s) ==> audit_sound(after_reply(s, reply), c),
{
    let start = StaleAuditM { pages, at: 0, asked: 0, waiting: None, found: seq![] };
    assert(reported_at(start, seq![]));
    let places = choose|places: Seq<int>| #[trigger] reported_at(s, places);
    if reading(s) {
        match doc {
            None => {
                lemma_move_on_sound(s, c, None);
            },
            Some(d) => match stale_step_of(d, c, since, today, s.asked) {
                StaleStepM::Fresh | StaleStepM::Unconfirmed => {
                    lemma_move_on_sound(s, c, None);
                },
                StaleStepM::Stale(reason) => {
                    lemma_move_on_sound(s, c, Some(reason));
                },
                StaleStepM::Ask { prompt, reason } => {
                    assert(reported_at(after_read(s, doc, c, since, today).0, places));
                },
            },
        }
    }
    if awaiting(s) {
        lemma_move_on_sound(s, c, stale_verdict_of(s.waiting->0, reply));
    }
}

/// A page that is not old is never reported, and the language model is not
/// asked about it. An old page is reported at once if the language model has no
/// say; if it has, a page is reported only by its reply.
pub proof fn law_only_old_reported(
    s: StaleAuditM,
    d: DocumentM,
    c: LintConfigM,
    since: Timestamp,
    today: Timestamp,
)
    requires
        reading(s),
    ensures
        after_read(s, Some(d), c, since, today).1 is Some <==> is_old(d, since, today)
            && c.stale_check_llm && s.asked < c.stale_check_llm_max_candidates,
        !is_old(d, since, today) || c.stale_check_llm ==> after_read(s, Some(d), c, since, today).0.found
            == s.found,
        is_old(d, since, today) && !c.stale_check_llm ==> after_read(
            s,
            Some(d),
            c,
            since,
            today,
        ).0.found == s.found.push(
            StalePageM {
                doc_id: s.pages[s.at as int],
                reason: age_reason(c.stale_days_threshold, date_text(changed_at(d, today))),
            },
        ),
{
}

/// A reply reports the page that the language model was asked about if it says
/// that the page is out of date, and reports nothing otherwise.
pub proof fn law_reply_decides(s: StaleAuditM, reply: Option<Seq<char>>)
    requires
        awaiting(s),
    ensures
        !says_stale(reply_value(reply)) ==> after_reply(s, reply).found == s.found,
        says_stale(reply_value(reply)) ==> after_reply(s, reply).found == s.found.push(
            StalePageM {
                doc_id: s.pages[s.at as int],
                reason: s.waiting->0 + added_reason(reply_value(reply)->0),
            },
        ),
{
}

// ---- Duplicates ------------------------------------------------------------

/// A page with its text.
#[derive(Debug, PartialEq)]
pub struct PageText {
    pub doc_id: DocId,
    pub text: String,
}

/// What a `PageText` holds.
#[verifier::ext_equal]
pub struct PageTextM {
    pub doc_id: Seq<char>,
    pub text: Seq<char>,
}

impl DeepView for PageText {
    type V = PageTextM;

    open spec fn deep_view(&self) -> PageTextM {
        PageTextM {
            doc_id: self.doc_id.deep_view(),
            text: self.text.deep_view(),
        }
    }
}

impl Clone for PageText {
    fn clone(&self) -> (r: Self)
        ensures
            r.deep_view() == self.deep_view(),
    {
        PageText {
            doc_id: self.doc_id.clone(),
            text: self.text.clone(),
        }
    }
}

/// The pages that are compared with one another: the first, up to the limit.
pub fn pages_to_compare(pages: &Vec<DocId>, config: &LintConfig) -> (r: Vec<DocId>)
    ensures
        r.deep_view() == at_most(pages.deep_view(), config.duplicate_scan_limit),
{
    let ghost all = pages.deep_view();
    let mut r: Vec<DocId> = Vec::new();
    let mut i: usize = 0;
    assert(r.deep_view() =~= all.take(0));
    while i < pages.len() && i < config.duplicate_scan_limit
        invariant
            i <= pages.len(),
            i <= config.duplicate_scan_limit,
            all == pages.deep_view(),
            r.deep_view() == all.take(i as int),
        decreases pages.len() - i,
    {
        let ghost done = r.deep_view();
        r.push(pages[i].clone());
        assert(r.deep_view() =~= done.push(all[i as int]));
        assert(all.take(i + 1) =~= done.push(all[i as int]));
        i = i + 1;
    }
    assert(r.deep_view() =~= at_most(all, config.duplicate_scan_limit));
    r
}

/// The text of a page that is compared with others, if it is long enough.
pub open spec fn compared_text(d: DocumentM, min_bytes: usize) -> Option<Seq<char>> {
    let text = page_text_of(d, " "@);
    if encode_utf8(text).len() as usize > min_bytes {
        Some(text)
    } else {
        None
    }
}

/// The text of a page that is compared with others, if it has more bytes than
/// the least.
pub fn text_to_compare(doc: &Document, min_bytes: usize) -> (r: Option<String>)
    ensures
        r.deep_view() == compared_text(doc.deep_view(), min_bytes),
{
    let text = page_text(doc, " ");
    if text.as_str().len() > min_bytes {
        Some(text)
    } else {
        None
    }
}

/// A page as a unit of text.
pub open spec fn unit_of_page(p: PageTextM) -> TextUnitM {
    TextUnitM { id: p.doc_id, text: p.text, path: seq![p.doc_id] }
}

/// Pages as units of text, to be embedded.
pub fn page_units(pages: &Vec<PageText>) -> (r: Vec<TextUnit>)
    ensures
        r.deep_view() == Seq::new(
            pages@.len(),
            |i: int| unit_of_page(pages.deep_view()[i]),
        ),
{
    let ghost ps = pages.deep_view();
    let ghost want = Seq::new(ps.len(), |i: int| unit_of_page(ps[i]));
    let mut r: Vec<TextUnit> = Vec::new();
    let mut i: usize = 0;
    assert(r.deep_view() =~= want.take(0));
    while i < pages.len()
        invariant
            i <= pages.len(),
            ps == pages.deep_view(),
            want == Seq::new(ps.len(), |i: int| unit_of_page(ps[i])),
            r.deep_view() == want.take(i as int),
        decreases pages.len() - i,
    {
        assert(ps[i as int] == pages@[i as int].deep_view());
        let ghost done = r.deep_view();
        let mut path: Vec<String> = Vec::new();
        path.push(pages[i].doc_id.0.clone());
        let u = TextUnit { id: pages[i].doc_id.0.clone(), text: pages[i].text.clone(), path };
        assert(u.deep_view().path =~= seq![ps[i as int].doc_id]);
        r.push(u);
        assert(u.deep_view() == want[i as int]);
        assert(r.deep_view() =~= done.push(u.deep_view()));
        assert(want.take(i + 1) =~= done.push(want[i as int]));
        i = i + 1;
    }
    assert(want.take(i as int) =~= want);
    assert(want =~= Seq::new(pages@.len(), |i: int| unit_of_page(pages.deep_view()[i])));
    r
}

/// The pairs `(i, j)` with `i` fixed and `i < j < n`.
pub open spec fn pairs_with(i: nat, n: nat) -> Seq<(usize, usize)> {
    Seq::new(
        if i + 1 < n {
            (n - i - 1) as nat
        } else {
            0
        },
        |k: int| (i as usize, (i + 1 + k) as usize),
    )
}

/// The pairs `(i, j)` with `i < j < n` and `i < m`, in order.
pub open spec fn pairs_below(m: nat, n: nat) -> Seq<(usize, usize)>
    decreases m,
{
    if m == 0 {
        seq![]
    } else {
        pairs_below((m - 1) as nat, n) + pairs_with((m - 1) as nat, n)
    }
}

/// All pairs of `n` things, each once, in order.
pub fn all_pairs(n: usize) -> (r: Vec<(usize, usize)>)
    ensures
        r@ == pairs_below(n as nat, n as nat),
{
    let mut r: Vec<(usize, usize)> = Vec::new();
    let mut i: usize = 0;
    while i < n
        invariant
            i <= n,
            r@ == pairs_below(i as nat, n as nat),
        decreases n - i,
    {
        let ghost front = r@;
        let mut j: usize = i + 1;
        assert(r@ =~= front + pairs_with(i as nat, n as nat).take(0));
        while j < n
            invariant
                i < j <= n,
                r@ == front + pairs_with(i as nat, n as nat).take(j - i - 1),
            decreases n - j,
        {
            let ghost row = pairs_with(i as nat, n as nat);
            r.push((i, j));
            assert(row.take(j - i) =~= row.take(j - i - 1).push(row[j - i - 1]));
            assert(r@ =~= front + row.take(j - i));
            j = j + 1;
        }
        let ghost row = pairs_with(i as nat, n as nat);
        assert(row.take(j - i - 1) =~= row);
        i = i + 1;
    }
    r
}

/// Every two of `n` things are paired, and only such.
pub proof fn law_all_pairs(n: usize, i: usize, j: usize)
    ensures
        pairs_below(n as nat, n as nat).contains((i, j)) <==> i < j < n,
{
    lemma_pairs(n as nat, n as nat, i, j);
}

proof fn lemma_pairs(m: nat, n: nat, i: usize, j: usize)
    requires
        m <= n <= usize::MAX,
    ensures
        pairs_below(m, n).contains((i, j)) <==> i < j < n && i < m,
    decreases m,
{
    if m > 0 {
        let k = (m - 1) as nat;
        lemma_pairs(k, n, i, j);
        let front = pairs_below(k, n);
        let row = pairs_with(k, n);
        let all = pairs_below(m, n);
        if i == k && i < j && j < n {
            assert(row[j - i - 1] == (i, j));
            assert(all[front.len() + (j - i - 1)] == (i, j));
        }
        if front.contains((i, j)) {
            let p = choose|p: int| 0 <= p < front.len() && front[p] == (i, j);
            assert(all[p] == (i, j));
        }
        if all.contains((i, j)) {
            let p = choose|p: int| 0 <= p < all.len() && all[p] == (i, j);
            if p < front.len() {
                assert(front[p] == (i, j));
            } else {
                assert(row[p - front.len()] == (i, j));
            }
        }
    }
}

/// Two pages, by their places, and how similar they are.
#[derive(Debug, PartialEq)]
pub struct Likeness {
    pub left: usize,
    pub right: usize,
    pub similarity: F32,
}

/// What a `Likeness` holds.
#[verifier::ext_equal]
pub struct LikenessM {
    pub left: usize,
    pub right: usize,
    pub similarity: F32,
}

impl DeepView for Likeness {
    type V = LikenessM;

    open spec fn deep_view(&self) -> LikenessM {
        LikenessM {
            left: self.left,
            right: self.right,
            similarity: self.similarity,
        }
    }
}

impl Clone for Likeness {
    fn clone(&self) -> (r: Self)
        ensures
            r.deep_view() == self.deep_view(),
    {
        Likeness {
            left: self.left,
            right: self.right,
            similarity: self.similarity,
        }
    }
}

/// Whether a similarity reaches a floor.
pub open spec fn reaches_floor(floor: F32) -> spec_fn(LikenessM) -> bool {
    |l: LikenessM| floor.below(l.similarity) || floor.level(l.similarity)
}

/// Pairs of pages by their identities.
pub open spec fn named_pairs(ids: Seq<Seq<char>>, ls: Seq<LikenessM>) -> Seq<PagePairM> {
    Seq::new(
        ls.len(),
        |i: int|
            PagePairM {
                left: ids[ls[i].left as int],
                right: ids[ls[i].right as int],
                similarity: ls[i].similarity,
            },
    )
}

/// What a list of pairs holds.
pub open spec fn pairs_view(s: Seq<PagePair>) -> Seq<PagePairM> {
    Seq::new(s.len(), |i: int| s[i].deep_view())
}

/// The pairs that reach a floor, the most similar first.
pub open spec fn similar_of(
    ids: Seq<Seq<char>>,
    ls: Seq<LikenessM>,
    floor: F32,
    r: Seq<PagePair>,
) -> bool {
    exists|all: Seq<PagePair>| #[trigger]
        pairs_view(all) == named_pairs(ids, keep(ls, reaches_floor(floor))) && sorted_from(
            ByScore {  },
            all,
            r,
        )
}

/// The pairs that reach a floor, the most similar first; pairs that are equally
/// similar keep their order.
pub fn similar_pairs(ids: &Vec<DocId>, likenesses: &Vec<Likeness>, floor: F32) -> (r: Vec<PagePair>)
    requires
        forall|i: int|
            0 <= i < likenesses@.len() ==> (#[trigger] likenesses@[i]).left < ids@.len()
                && likenesses@[i].right < ids@.len(),
    ensures
        similar_of(ids.deep_view(), likenesses.deep_view(), floor, r@),
{
    let ghost ms = ids.deep_view();
    let ghost ls = likenesses.deep_view();
    let ghost p = reaches_floor(floor);
    let mut all: Vec<PagePair> = Vec::new();
    let mut i: usize = 0;
    assert(pairs_view(all@) =~= named_pairs(ms, keep(ls.take(0), p)));
    while i < likenesses.len()
        invariant
            i <= likenesses.len(),
            ms == ids.deep_view(),
            ls == likenesses.deep_view(),
            p == reaches_floor(floor),
            forall|i: int|
                0 <= i < likenesses@.len() ==> (#[trigger] likenesses@[i]).left < ids@.len()
                    && likenesses@[i].right < ids@.len(),
            pairs_view(all@) == named_pairs(ms, keep(ls.take(i as int), p)),
        decreases likenesses.len() - i,
    {
        proof {
            lemma_keep_step(ls, p, i as int);
        }
        let l = &likenesses[i];
        assert(ls[i as int] == l.deep_view());
        let ghost done = pairs_view(all@);
        if l.similarity.at_least(floor) {
            let pair = PagePair {
                left: ids[l.left].clone(),
                right: ids[l.right].clone(),
                similarity: l.similarity,
            };
            all.push(pair);
            assert(pairs_view(all@) =~= done.push(pair.deep_view()));
            assert(pair.deep_view().left == ms[l.left as int]);
            assert(pair.deep_view().right == ms[l.right as int]);
            assert(pairs_view(all@) =~= named_pairs(
                ms,
                keep(ls.take(i as int), p).push(ls[i as int]),
            ));
        }
        i = i + 1;
    }
    assert(ls.take(i as int) =~= ls);
    let rank = ByScore {  };
    stable_sort(&rank, all)
}

// ---- Contradictions --------------------------------------------------------

/// Whether two pages are similar, but no duplicates.
pub open spec fn in_band(low: F32, high: F32) -> spec_fn(PagePairM) -> bool {
    |p: PagePairM|
        (low.below(p.similarity) || low.level(p.similarity)) && p.similarity.below(high)
}

/// The pairs that are checked for contradictions: similar, but no duplicates,
/// and no more than allowed.
pub fn contradiction_candidates(pairs: &Vec<PagePair>, config: &LintConfig) -> (r: Vec<PagePair>)
    ensures
        r.deep_view() == at_most(
            keep(
                pairs.deep_view(),
                in_band(config.contradiction_min_similarity, config.duplicate_threshold),
            ),
            config.contradiction_max_candidates,
        ),
{
    let ghost all = pairs.deep_view();
    let ghost p = in_band(config.contradiction_min_similarity, config.duplicate_threshold);
    let mut r: Vec<PagePair> = Vec::new();
    let mut i: usize = 0;
    assert(r.deep_view() =~= keep(all.take(0), p));
    while i < pairs.len()
        invariant
            i <= pairs.len(),
            all == pairs.deep_view(),
            p == in_band(config.contradiction_min_similarity, config.duplicate_threshold),
            r.deep_view() == keep(all.take(i as int), p),
        decreases pairs.len() - i,
    {
        proof {
            lemma_keep_step(all, p, i as int);
        }
        let ghost done = r.deep_view();
        assert(all[i as int] == pairs@[i as int].deep_view());
        let s = pairs[i].similarity;
        if s.at_least(config.contradiction_min_similarity) && s.less(config.duplicate_threshold) {
            r.push(pairs[i].clone());
            assert(r.deep_view() =~= done.push(all[i as int]));
        }
        i = i + 1;
    }
    assert(all.take(i as int) =~= all);
    let ghost whole = r.deep_view();
    if r.len() > config.contradiction_max_candidates {
        r.truncate(config.contradiction_max_candidates);
    }
    assert(r.deep_view() =~= at_most(whole, config.contradiction_max_candidates));
    r
}

/// No pair is taken for a duplicate and checked for contradictions as well.
pub proof fn law_duplicates_not_checked(pairs: Seq<PagePairM>, c: LintConfigM, n: usize, i: int)
    requires
        0 <= i < at_most(
            keep(pairs, in_band(c.contradiction_min_similarity, c.duplicate_threshold)),
            n,
        ).len(),
    ensures
        ({
            let p = at_most(
                keep(pairs, in_band(c.contradiction_min_similarity, c.duplicate_threshold)),
                n,
            )[i];
            !c.duplicate_threshold.below(p.similarity) && !c.duplicate_threshold.level(p.similarity)
                && pairs.contains(p)
        }),
{
    let band = in_band(c.contradiction_min_similarity, c.duplicate_threshold);
    let left = keep(pairs, band);
    lemma_keep_contains(pairs, band);
    assert(at_most(left, n)[i] == left[i]);
    assert(left.contains(left[i]));
}

/// The prompt that asks whether two pages contradict each other.
pub open spec fn contradiction_prompt_of(
    similarity: Seq<char>,
    a: Seq<char>,
    b: Seq<char>,
) -> Seq<char> {
    "你是一个知识库质量检查器。请检查以下两段文本是否存在事实性矛盾。\n\n## 文本 A (相似度: "@ + similarity + ")\n"@
        + first_chars(a, 2000) + "\n\n## 文本 B\n"@ + first_chars(b, 2000)
        + "\n\n## 任务\n识别所有事实性矛盾。以 JSON 格式输出（只输出 JSON）：\n```json\n{\n\"has_contradiction\": true,\n\"description\": \"对矛盾的简要中文描述\"\n}\n```\n若无矛盾则返回：\n```json\n{\n\"has_contradiction\": false,\n\"description\": \"\"\n}\n```"@
}

/// The prompt that asks whether two pages contradict each other, each up to its
/// first two thousand characters. `similarity` is the similarity in words.
pub fn contradiction_prompt(similarity: &str, left: &Document, right: &Document) -> (r: String)
    ensures
        r@ == contradiction_prompt_of(
            similarity@,
            page_text_of(left.deep_view(), "\n"@),
            page_text_of(right.deep_view(), "\n"@),
        ),
{
    let a = page_text(left, "\n");
    let b = page_text(right, "\n");
    let mut r = cat3(
        "你是一个知识库质量检查器。请检查以下两段文本是否存在事实性矛盾。\n\n## 文本 A (相似度: ",
        similarity,
        ")\n",
    );
    r.push_str(take_chars(a.as_str(), 2000).as_str());
    r.push_str("\n\n## 文本 B\n");
    r.push_str(take_chars(b.as_str(), 2000).as_str());
    r.push_str(
        "\n\n## 任务\n识别所有事实性矛盾。以 JSON 格式输出（只输出 JSON）：\n```json\n{\n\"has_contradiction\": true,\n\"description\": \"对矛盾的简要中文描述\"\n}\n```\n若无矛盾则返回：\n```json\n{\n\"has_contradiction\": false,\n\"description\": \"\"\n}\n```",
    );
    r
}

/// What is reported of two pages, where `value` is what the language model
/// replied: a contradiction, if the reply says so.
pub open spec fn judged_contradiction(
    left: Seq<char>,
    right: Seq<char>,
    value: Option<Json>,
) -> Option<Seq<char>> {
    match value {
        None => None,
        Some(j) => if flag_of(j, "has_contradiction"@) == Some(true) {
            Some(
                "["@ + left + " ↔ "@ + right + "] "@ + (match text_of(member(j, "description"@)) {
                    Some(s) => s,
                    None => "(无描述)"@,
                }),
            )
        } else {
            None
        },
    }
}

/// What is reported of two pages after the language model was asked.
pub open spec fn contradiction_of(
    left: Seq<char>,
    right: Seq<char>,
    reply: Option<Seq<char>>,
) -> Option<Seq<char>> {
    judged_contradiction(left, right, reply_value(reply))
}

/// What is reported of two pages, where `value` is what the language model
/// replied.
pub fn judge_contradiction(left: &DocId, right: &DocId, value: Option<&JsonValue>) -> (r: Option<
    String,
>)
    ensures
        r.deep_view() == judged_contradiction(
            left.deep_view(),
            right.deep_view(),
            (match value {
                Some(j) => Some(j.deep_view()),
                None => None,
            }),
        ),
{
    match value {
        None => None,
        Some(j) => match read_flag(j, "has_contradiction") {
            Some(true) => {
                let mut r = cat3("[", left.as_str(), " ↔ ");
                r.push_str(right.as_str());
                r.push_str("] ");
                match j.get_str("description") {
                    Some(s) => {
                        r.push_str(s);
                    },
                    None => {
                        r.push_str("(无描述)");
                    },
                }
                Some(r)
            },
            _ => None,
        },
    }
}

/// What is reported of two pages after the language model was asked.
pub fn contradiction_verdict(left: &DocId, right: &DocId, reply: Option<String>) -> (r: Option<
    String,
>)
    ensures
        r.deep_view() == contradiction_of(
            left.deep_view(),
            right.deep_view(),
            reply.deep_view(),
        ),
{
    let value = read_reply(reply);
    judge_contradiction(left, right, value.as_ref())
}

/// How far the search for contradictions has come.
#[derive(Debug, PartialEq)]
pub struct ContradictionAudit {
    pub pairs: Vec<PagePair>,
    /// Which pair comes next.
    pub at: usize,
    /// Whether the language model was asked about that pair.
    pub asked: bool,
    pub found: Vec<String>,
}

/// What a `ContradictionAudit` holds.
#[verifier::ext_equal]
pub struct ContradictionAuditM {
    pub pairs: Seq<PagePairM>,
    pub at: usize,
    pub asked: bool,
    pub found: Seq<Seq<char>>,
}

impl DeepView for ContradictionAudit {
    type V = ContradictionAuditM;

    open spec fn deep_view(&self) -> ContradictionAuditM {
        ContradictionAuditM {
            pairs: self.pairs.deep_view(),
            at: self.at,
            asked: self.asked,
            found: self.found.deep_view(),
        }
    }
}

impl Clone for ContradictionAudit {
    fn clone(&self) -> (r: Self)
        ensures
            r.deep_view() == self.deep_view(),
    {
        ContradictionAudit {
            pairs: self.pairs.clone(),
            at: self.at,
            asked: self.asked,
            found: self.found.clone(),
        }
    }
}

/// Two pages are read next.
pub open spec fn comparing(s: ContradictionAuditM) -> bool {
    !s.asked && s.at < s.pairs.len()
}

/// A reply about two pages comes next.
pub open spec fn judging(s: ContradictionAuditM) -> bool {
    s.asked && s.at < s.pairs.len()
}

/// The search before its first pair.
pub open spec fn contradictions_begun(pairs: Seq<PagePairM>, c: LintConfigM) -> ContradictionAuditM {
    ContradictionAuditM {
        pairs: at_most(
            keep(pairs, in_band(c.contradiction_min_similarity, c.duplicate_threshold)),
            c.contradiction_max_candidates,
        ),
        at: 0,
        asked: false,
        found: seq![],
    }
}

/// The search with both pages of a pair read, and what the language model is
/// asked: nothing where a page is gone, which ends with the pair.
pub open spec fn pair_read(
    s: ContradictionAuditM,
    similarity: Seq<char>,
    left: Option<DocumentM>,
    right: Option<DocumentM>,
) -> (ContradictionAuditM, Option<Seq<char>>) {
    match (left, right) {
        (Some(a), Some(b)) => (
            ContradictionAuditM { asked: true, ..s },
            Some(
                contradiction_prompt_of(
                    similarity,
                    page_text_of(a, "\n"@),
                    page_text_of(b, "\n"@),
                ),
            ),
        ),
        _ => (ContradictionAuditM { at: (s.at + 1) as usize, ..s }, None),
    }
}

/// The search with a pair judged.
pub open spec fn pair_judged(s: ContradictionAuditM, reply: Option<Seq<char>>) -> ContradictionAuditM {
    let pair = s.pairs[s.at as int];
    ContradictionAuditM {
        at: (s.at + 1) as usize,
        asked: false,
        found: match contradiction_of(pair.left, pair.right, reply) {
            Some(x) => s.found.push(x),
            None => s.found,
        },
        ..s
    }
}

impl ContradictionAudit {
    /// A search among similar pages.
    pub fn new(pairs: &Vec<PagePair>, config: &LintConfig) -> (r: ContradictionAudit)
        ensures
            r.deep_view() == contradictions_begun(pairs.deep_view(), config.deep_view()),
    {
        let r = ContradictionAudit {
            pairs: contradiction_candidates(pairs, config),
            at: 0,
            asked: false,
            found: Vec::new(),
        };
        assert(r.deep_view().found =~= seq![]);
        r
    }

    /// The pair whose pages are to be read next.
    pub fn next_pair(&self) -> (r: Option<PagePair>)
        ensures
            r.deep_view() == (if self.at < self.pairs@.len() {
                Some(self.deep_view().pairs[self.at as int])
            } else {
                None
            }),
    {
        if self.at < self.pairs.len() {
            Some(self.pairs[self.at].clone())
        } else {
            None
        }
    }

    /// Takes the pages of the pair, as far as there are any: what the language
    /// model is to be asked about them. `similarity` is their similarity in
    /// words.
    pub fn read(
        &mut self,
        similarity: &str,
        left: Option<&Document>,
        right: Option<&Document>,
    ) -> (r: Option<String>)
        requires
            comparing(old(self).deep_view()),
        ensures
            (final(self).deep_view(), r.deep_view()) == pair_read(
                old(self).deep_view(),
                similarity@,
                (match left {
                    Some(d) => Some(d.deep_view()),
                    None => None,
                }),
                (match right {
                    Some(d) => Some(d.deep_view()),
                    None => None,
                }),
            ),
    {
        let n: usize = self.pairs.len();
        assert(self.at < n);
        match (left, right) {
            (Some(a), Some(b)) => {
                self.asked = true;
                Some(contradiction_prompt(similarity, a, b))
            },
            _ => {
                self.at = self.at + 1;
                None
            },
        }
    }

    /// Takes the reply of the language model, if there was one.
    pub fn replied(&mut self, reply: Option<String>)
        requires
            judging(old(self).deep_view()),
        ensures
            final(self).deep_view() == pair_judged(old(self).deep_view(), reply.deep_view()),
    {
        let ghost s = self.deep_view();
        let n: usize = self.pairs.len();
        let i: usize = self.at;
        assert(i < n);
        assert(s.pairs[i as int] == self.pairs@[i as int].deep_view());
        match contradiction_verdict(&self.pairs[i].left, &self.pairs[i].right, reply) {
            Some(x) => {
                self.found.push(x);
                assert(self.deep_view().found =~= s.found.push(x@));
            },
            None => {},
        }
        self.asked = false;
        self.at = i + 1;
    }
}

/// What holds throughout a search for contradictions: no more pairs are looked
/// at than allowed, each is similar but no duplicate, and no more is found than
/// pairs were looked at.
pub open spec fn contradictions_sound(s: ContradictionAuditM, c: LintConfigM) -> bool {
    &&& s.pairs.len() <= c.contradiction_max_candidates
    &&& s.at <= s.pairs.len()
    &&& s.asked ==> s.at < s.pairs.len()
    &&& s.found.len() <= s.at
    &&& forall|i: int|
        0 <= i < s.pairs.len() ==> in_band(c.contradiction_min_similarity, c.duplicate_threshold)(
            #[trigger] s.pairs[i],
        )
}

/// A search for contradictions starts sound, and stays so whatever the pages
/// hold and whatever the language model replies.
pub proof fn law_contradictions_sound(
    pairs: Seq<PagePairM>,
    s: ContradictionAuditM,
    c: LintConfigM,
    similarity: Seq<char>,
    left: Option<DocumentM>,
    right: Option<DocumentM>,
    reply: Option<Seq<char>>,
)
    requires
        contradictions_sound(s, c),
    ensures
        contradictions_sound(contradictions_begun(pairs, c), c),
        comparing(s) ==> contradictions_sound(pair_read(s, similarity, left, right).0, c),
        judging(s) ==> contradictions_sound(pair_judged(s, reply), c),
{
    let band = in_band(c.contradiction_min_similarity, c.duplicate_threshold);
    let kept = keep(pairs, band);
    let begun = contradictions_begun(pairs, c);
    lemma_keep_contains(pairs, band);
    assert forall|i: int| 0 <= i < begun.pairs.len() implies band(#[trigger] begun.pairs[i]) by {
        assert(begun.pairs[i] == kept[i]);
        assert(kept.contains(kept[i]));
    }
}

// ---- The whole audit -------------------------------------------------------

/// The duplicates among compared pages, and the search for contradictions
/// among those that are similar. Both go by all likenesses: what is no
/// duplicate can still contradict.
pub fn audit_pairs(ids: &Vec<DocId>, likenesses: &Vec<Likeness>, config: &LintConfig) -> (r: (
    Vec<PagePair>,
    ContradictionAudit,
))
    requires
        forall|i: int|
            0 <= i < likenesses@.len() ==> (#[trigger] likenesses@[i]).left < ids@.len()
                && likenesses@[i].right < ids@.len(),
    ensures
        similar_of(
            ids.deep_view(),
            likenesses.deep_view(),
            config.duplicate_threshold,
            r.0@,
        ),
        exists|alike: Seq<PagePair>| #[trigger]
            similar_of(
                ids.deep_view(),
                likenesses.deep_view(),
                config.contradiction_min_similarity,
                alike,
            ) && r.1.deep_view() == contradictions_begun(pairs_view(alike), config.deep_view()),
{
    let duplicates = similar_pairs(ids, likenesses, config.duplicate_threshold);
    let alike = similar_pairs(ids, likenesses, config.contradiction_min_similarity);
    let audit = ContradictionAudit::new(&alike, config);
    assert(alike.deep_view() =~= pairs_view(alike@));
    (duplicates, audit)
}

/// What an audit found: `pages` are all pages that were looked at, and the
/// rest is what became of the single searches.
pub open spec fn report_of(
    space_id: Seq<char>,
    ran_at: Timestamp,
    pages: Seq<LinkedPageM>,
    links: LinkAuditM,
    stale: StaleAuditM,
    duplicates: Seq<PagePairM>,
    contradictions: ContradictionAuditM,
) -> LintReportM {
    LintReportM {
        space_id,
        ran_at,
        orphan_pages: linked_ids(keep(pages, is_orphan())),
        missing_pages: links.missing,
        contradictions: contradictions.found,
        stale_pages: stale.found,
        duplicate_candidates: duplicates,
        broken_links_fixed: links.fixed,
        total_pages: pages.len() as usize,
    }
}

/// What an audit found.
pub fn lint_report(
    space_id: SpaceId,
    ran_at: Timestamp,
    pages: &Vec<LinkedPage>,
    links: LinkAudit,
    stale: StaleAudit,
    duplicates: Vec<PagePair>,
    contradictions: ContradictionAudit,
) -> (r: LintReport)
    ensures
        r.deep_view() == report_of(
            space_id.deep_view(),
            ran_at,
            pages.deep_view(),
            links.deep_view(),
            stale.deep_view(),
            duplicates.deep_view(),
            contradictions.deep_view(),
        ),
{
    LintReport {
        space_id,
        ran_at,
        orphan_pages: orphans(pages),
        missing_pages: links.missing,
        contradictions: contradictions.found,
        stale_pages: stale.found,
        duplicate_candidates: duplicates,
        broken_links_fixed: links.fixed,
        total_pages: pages.len(),
    }
}

} // verus!
