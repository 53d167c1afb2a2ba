//! What can be tuned, with its defaults.

use vstd::prelude::*;

use crate::float::F32;

verus! {

/// How many names are searched for.
#[derive(Debug, PartialEq)]
pub struct SearchConfig {
    pub max_search_queries: usize,
}

/// What a `SearchConfig` holds.
#[verifier::ext_equal]
pub struct SearchConfigM {
    pub max_search_queries: usize,
}

impl DeepView for SearchConfig {
    type V = SearchConfigM;

    open spec fn deep_view(&self) -> SearchConfigM {
        SearchConfigM {
            max_search_queries: self.max_search_queries,
        }
    }
}

impl Clone for SearchConfig {
    fn clone(&self) -> (r: Self)
        ensures
            r.deep_view() == self.deep_view(),
    {
        SearchConfig {
            max_search_queries: self.max_search_queries,
        }
    }
}

impl Default for SearchConfig {
    fn default() -> (r: SearchConfig)
        ensures
            r.max_search_queries == 10,
    {
        SearchConfig { max_search_queries: 10 }
    }
}

/// How retrieval and the language model are used.
#[derive(Debug, PartialEq)]
pub struct RagConfig {
    /// The constant of reciprocal rank fusion.
    pub rrf_k: F32,
    /// How many hits answer a question.
    pub qa_top_k: usize,
    /// How many times more is fetched than asked for, since not everything may
    /// be read.
    pub search_overfetch_multiplier: usize,
    pub qa_max_tokens: usize,
    pub qa_temperature: F32,
    pub summarize_max_tokens: usize,
    pub summarize_temperature: F32,
    pub complete_temperature: F32,
    /// The length of the vector that stands for a missing embedding.
    pub fallback_embedding_dim: usize,
}

/// What a `RagConfig` holds.
#[verifier::ext_equal]
pub struct RagConfigM {
    pub rrf_k: F32,
    pub qa_top_k: usize,
    pub search_overfetch_multiplier: usize,
    pub qa_max_tokens: usize,
    pub qa_temperature: F32,
    pub summarize_max_tokens: usize,
    pub summarize_temperature: F32,
    pub complete_temperature: F32,
    pub fallback_embedding_dim: usize,
}

impl DeepView for RagConfig {
    type V = RagConfigM;

    open spec fn deep_view(&self) -> RagConfigM {
        RagConfigM {
            rrf_k: self.rrf_k,
            qa_top_k: self.qa_top_k,
            search_overfetch_multiplier: self.search_overfetch_multiplier,
            qa_max_tokens: self.qa_max_tokens,
            qa_temperature: self.qa_temperature,
            summarize_max_tokens: self.summarize_max_tokens,
            summarize_temperature: self.summarize_temperature,
            complete_temperature: self.complete_temperature,
            fallback_embedding_dim: self.fallback_embedding_dim,
        }
    }
}

impl Clone for RagConfig {
    fn clone(&self) -> (r: Self)
        ensures
            r.deep_view() == self.deep_view(),
    {
        RagConfig {
            rrf_k: self.rrf_k,
            qa_top_k: self.qa_top_k,
            search_overfetch_multiplier: self.search_overfetch_multiplier,
            qa_max_tokens: self.qa_max_tokens,
            qa_temperature: self.qa_temperature,
            summarize_max_tokens: self.summarize_max_tokens,
            summarize_temperature: self.summarize_temperature,
            complete_temperature: self.complete_temperature,
            fallback_embedding_dim: self.fallback_embedding_dim,
        }
    }
}

/// The bits of 0.1.
pub const TENTH: u32 = 0x3dcc_cccd;

/// The bits of 0.2.
pub const FIFTH: u32 = 0x3e4c_cccd;

/// The bits of 0.3.
pub const THREE_TENTHS: u32 = 0x3e99_999a;

/// The bits of 0.7.
pub const SEVEN_TENTHS: u32 = 0x3f33_3333;

/// The bits of 0.92.
pub const NEAR_DUPLICATE: u32 = 0x3f6b_851f;

/// The bits of 1.
pub const ONE: u32 = 0x3f80_0000;

/// The bits of 2.
pub const TWO: u32 = 0x4000_0000;

/// The bits of 60.
pub const SIXTY: u32 = 0x4270_0000;

/// The defaults of retrieval.
pub open spec fn rag_defaults() -> RagConfigM {
    RagConfigM {
        rrf_k: F32 { bits: SIXTY },
        qa_top_k: 8,
        search_overfetch_multiplier: 2,
        qa_max_tokens: 1024,
        qa_temperature: F32 { bits: TENTH },
        summarize_max_tokens: 512,
        summarize_temperature: F32 { bits: FIFTH },
        complete_temperature: F32 { bits: THREE_TENTHS },
        fallback_embedding_dim: 4,
    }
}

impl Default for RagConfig {
    fn default() -> (r: RagConfig)
        ensures
            r.deep_view() == rag_defaults(),
    {
        RagConfig {
            rrf_k: F32 { bits: SIXTY },
            qa_top_k: 8,
            search_overfetch_multiplier: 2,
            qa_max_tokens: 1024,
            qa_temperature: F32 { bits: TENTH },
            summarize_max_tokens: 512,
            summarize_temperature: F32 { bits: FIFTH },
            complete_temperature: F32 { bits: THREE_TENTHS },
            fallback_embedding_dim: 4,
        }
    }
}

/// How a wiki is audited.
#[derive(Debug, PartialEq)]
pub struct LintConfig {
    /// Pages this similar are duplicates.
    pub duplicate_threshold: F32,
    /// Whether an old page is out of date only if the language model confirms it.
    pub stale_check_llm: bool,
    pub auto_fix_broken_links: bool,
    pub auto_create_missing_pages: bool,
    /// After how many days without a change a page is old.
    pub stale_days_threshold: i64,
    /// How many pages are looked at.
    pub list_limit: usize,
    /// How many pages are compared with one another.
    pub duplicate_scan_limit: usize,
    /// Only texts with more bytes than this are compared.
    pub duplicate_min_text_len: usize,
    /// How many pairs are checked for contradictions.
    pub contradiction_max_candidates: usize,
    /// Pages less similar than this are not checked for contradictions.
    pub contradiction_min_similarity: F32,
    /// About how many old pages the language model is asked.
    pub stale_check_llm_max_candidates: usize,
}

/// What a `LintConfig` holds.
#[verifier::ext_equal]
pub struct LintConfigM {
    pub duplicate_threshold: F32,
    pub stale_check_llm: bool,
    pub auto_fix_broken_links: bool,
    pub auto_create_missing_pages: bool,
    pub stale_days_threshold: i64,
    pub list_limit: usize,
    pub duplicate_scan_limit: usize,
    pub duplicate_min_text_len: usize,
    pub contradiction_max_candidates: usize,
    pub contradiction_min_similarity: F32,
    pub stale_check_llm_max_candidates: usize,
}

impl DeepView for LintConfig {
    type V = LintConfigM;

    open spec fn deep_view(&self) -> LintConfigM {
        LintConfigM {
            duplicate_threshold: self.duplicate_threshold,
            stale_check_llm: self.stale_check_llm,
            auto_fix_broken_links: self.auto_fix_broken_links,
            auto_create_missing_pages: self.auto_create_missing_pages,
            stale_days_threshold: self.stale_days_threshold,
            list_limit: self.list_limit,
            duplicate_scan_limit: self.duplicate_scan_limit,
            duplicate_min_text_len: self.duplicate_min_text_len,
            contradiction_max_candidates: self.contradiction_max_candidates,
            contradiction_min_similarity: self.contradiction_min_similarity,
            stale_check_llm_max_candidates: self.stale_check_llm_max_candidates,
        }
    }
}

impl Clone for LintConfig {
    fn clone(&self) -> (r: Self)
        ensures
            r.deep_view() == self.deep_view(),
    {
        LintConfig {
            duplicate_threshold: self.duplicate_threshold,
            stale_check_llm: self.stale_check_llm,
            auto_fix_broken_links: self.auto_fix_broken_links,
            auto_create_missing_pages: self.auto_create_missing_pages,
            stale_days_threshold: self.stale_days_threshold,
            list_limit: self.list_limit,
            duplicate_scan_limit: self.duplicate_scan_limit,
            duplicate_min_text_len: self.duplicate_min_text_len,
            contradiction_max_candidates: self.contradiction_max_candidates,
            contradiction_min_similarity: self.contradiction_min_similarity,
            stale_check_llm_max_candidates: self.stale_check_llm_max_candidates,
        }
    }
}

/// The defaults of an audit.
pub open spec fn lint_defaults() -> LintConfigM {
    LintConfigM {
        duplicate_threshold: F32 { bits: NEAR_DUPLICATE },
        stale_check_llm: false,
        auto_fix_broken_links: true,
        auto_create_missing_pages: false,
        stale_days_threshold: 90,
        list_limit: 500,
        duplicate_scan_limit: 200,
        duplicate_min_text_len: 50,
        contradiction_max_candidates: 5,
        contradiction_min_similarity: F32 { bits: SEVEN_TENTHS },
        stale_check_llm_max_candidates: 50,
    }
}

impl Default for LintConfig {
    fn default() -> (r: LintConfig)
        ensures
            r.deep_view() == lint_defaults(),
    {
        LintConfig {
            duplicate_threshold: F32 { bits: NEAR_DUPLICATE },
            stale_check_llm: false,
            auto_fix_broken_links: true,
            auto_create_missing_pages: false,
            stale_days_threshold: 90,
            list_limit: 500,
            duplicate_scan_limit: 200,
            duplicate_min_text_len: 50,
            contradiction_max_candidates: 5,
            contradiction_min_similarity: F32 { bits: SEVEN_TENTHS },
            stale_check_llm_max_candidates: 50,
        }
    }
}

/// How sources are taken in.
#[derive(Debug, PartialEq)]
pub struct IngestConfig {
    /// How many names are searched for.
    pub search_limit: usize,
    /// How many hits each search gives.
    pub per_query_top_k: usize,
    /// How many characters of a summary become a title.
    pub summary_title_max_chars: usize,
    /// How many characters of a source stand for a missing summary.
    pub fallback_summary_max_chars: usize,
}

/// What a `IngestConfig` holds.
#[verifier::ext_equal]
pub struct IngestConfigM {
    pub search_limit: usize,
    pub per_query_top_k: usize,
    pub summary_title_max_chars: usize,
    pub fallback_summary_max_chars: usize,
}

impl DeepView for IngestConfig {
    type V = IngestConfigM;

    open spec fn deep_view(&self) -> IngestConfigM {
        IngestConfigM {
            search_limit: self.search_limit,
            per_query_top_k: self.per_query_top_k,
            summary_title_max_chars: self.summary_title_max_chars,
            fallback_summary_max_chars: self.fallback_summary_max_chars,
        }
    }
}

impl Clone for IngestConfig {
    fn clone(&self) -> (r: Self)
        ensures
            r.deep_view() == self.deep_view(),
    {
        IngestConfig {
            search_limit: self.search_limit,
            per_query_top_k: self.per_query_top_k,
            summary_title_max_chars: self.summary_title_max_chars,
            fallback_summary_max_chars: self.fallback_summary_max_chars,
        }
    }
}

/// The defaults of taking in sources.
pub open spec fn ingest_defaults() -> IngestConfigM {
    IngestConfigM {
        search_limit: 10,
        per_query_top_k: 3,
        summary_title_max_chars: 40,
        fallback_summary_max_chars: 200,
    }
}

impl Default for IngestConfig {
    fn default() -> (r: IngestConfig)
        ensures
            r.deep_view() == ingest_defaults(),
    {
        IngestConfig {
            search_limit: 10,
            per_query_top_k: 3,
            summary_title_max_chars: 40,
            fallback_summary_max_chars: 200,
        }
    }
}

/// How large documents may grow.
#[derive(Debug, PartialEq)]
pub struct ValidationConfig {
    pub max_title_len: usize,
    pub max_blocks_per_doc: usize,
    pub max_block_depth: usize,
    pub max_children_per_block: usize,
    pub max_text_len_per_block: usize,
}

/// What a `ValidationConfig` holds.
#[verifier::ext_equal]
pub struct ValidationConfigM {
    pub max_title_len: usize,
    pub max_blocks_per_doc: usize,
    pub max_block_depth: usize,
    pub max_children_per_block: usize,
    pub max_text_len_per_block: usize,
}

impl DeepView for ValidationConfig {
    type V = ValidationConfigM;

    open spec fn deep_view(&self) -> ValidationConfigM {
        ValidationConfigM {
            max_title_len: self.max_title_len,
            max_blocks_per_doc: self.max_blocks_per_doc,
            max_block_depth: self.max_block_depth,
            max_children_per_block: self.max_children_per_block,
            max_text_len_per_block: self.max_text_len_per_block,
        }
    }
}

impl Clone for ValidationConfig {
    fn clone(&self) -> (r: Self)
        ensures
            r.deep_view() == self.deep_view(),
    {
        ValidationConfig {
            max_title_len: self.max_title_len,
            max_blocks_per_doc: self.max_blocks_per_doc,
            max_block_depth: self.max_block_depth,
            max_children_per_block: self.max_children_per_block,
            max_text_len_per_block: self.max_text_len_per_block,
        }
    }
}

/// The default limits.
pub open spec fn validation_defaults() -> ValidationConfigM {
    ValidationConfigM {
        max_title_len: 500,
        max_blocks_per_doc: 10_000,
        max_block_depth: 100,
        max_children_per_block: 100,
        max_text_len_per_block: 100_000,
    }
}

impl Default for ValidationConfig {
    fn default() -> (r: ValidationConfig)
        ensures
            r.deep_view() == validation_defaults(),
    {
        ValidationConfig {
            max_title_len: 500,
            max_blocks_per_doc: 10_000,
            max_block_depth: 100,
            max_children_per_block: 100,
            max_text_len_per_block: 100_000,
        }
    }
}

/// How answers are written back.
#[derive(Debug, PartialEq)]
pub struct QueryConfig {
    /// How many hits are looked at for the page to write to.
    pub write_back_search_top_k: usize,
    /// How sure an evaluation must be before a write is proposed.
    pub write_back_confidence_threshold: F32,
}

/// What a `QueryConfig` holds.
#[verifier::ext_equal]
pub struct QueryConfigM {
    pub write_back_search_top_k: usize,
    pub write_back_confidence_threshold: F32,
}

impl DeepView for QueryConfig {
    type V = QueryConfigM;

    open spec fn deep_view(&self) -> QueryConfigM {
        QueryConfigM {
            write_back_search_top_k: self.write_back_search_top_k,
            write_back_confidence_threshold: self.write_back_confidence_threshold,
        }
    }
}

impl Clone for QueryConfig {
    fn clone(&self) -> (r: Self)
        ensures
            r.deep_view() == self.deep_view(),
    {
        QueryConfig {
            write_back_search_top_k: self.write_back_search_top_k,
            write_back_confidence_threshold: self.write_back_confidence_threshold,
        }
    }
}

/// The defaults of writing back.
pub open spec fn query_defaults() -> QueryConfigM {
    QueryConfigM {
        write_back_search_top_k: 3,
        write_back_confidence_threshold: F32 { bits: SEVEN_TENTHS },
    }
}

impl Default for QueryConfig {
    fn default() -> (r: QueryConfig)
        ensures
            r.deep_view() == query_defaults(),
    {
        QueryConfig {
            write_back_search_top_k: 3,
            write_back_confidence_threshold: F32 { bits: SEVEN_TENTHS },
        }
    }
}

/// How failed calls are repeated.
#[derive(Debug, PartialEq)]
pub struct RetryConfig {
    /// How many calls are made at most; there is always one.
    pub max_retries: u32,
    /// The wait after the first failure, in milliseconds.
    pub initial_backoff_ms: u64,
    /// The longest wait, in milliseconds.
    pub max_backoff_ms: u64,
    /// By how much each wait is longer than the one before.
    pub backoff_multiplier: F32,
}

/// What a `RetryConfig` holds.
#[verifier::ext_equal]
pub struct RetryConfigM {
    pub max_retries: u32,
    pub initial_backoff_ms: u64,
    pub max_backoff_ms: u64,
    pub backoff_multiplier: F32,
}

impl DeepView for RetryConfig {
    type V = RetryConfigM;

    open spec fn deep_view(&self) -> RetryConfigM {
        RetryConfigM {
            max_retries: self.max_retries,
            initial_backoff_ms: self.initial_backoff_ms,
            max_backoff_ms: self.max_backoff_ms,
            backoff_multiplier: self.backoff_multiplier,
        }
    }
}

impl Clone for RetryConfig {
    fn clone(&self) -> (r: Self)
        ensures
            r.deep_view() == self.deep_view(),
    {
        RetryConfig {
            max_retries: self.max_retries,
            initial_backoff_ms: self.initial_backoff_ms,
            max_backoff_ms: self.max_backoff_ms,
            backoff_multiplier: self.backoff_multiplier,
        }
    }
}

/// The defaults of repeating calls.
pub open spec fn retry_defaults() -> RetryConfigM {
    RetryConfigM {
        max_retries: 3,
        initial_backoff_ms: 500,
        max_backoff_ms: 10_000,
        backoff_multiplier: F32 { bits: TWO },
    }
}

impl Default for RetryConfig {
    fn default() -> (r: RetryConfig)
        ensures
            r.deep_view() == retry_defaults(),
    {
        RetryConfig {
            max_retries: 3,
            initial_backoff_ms: 500,
            max_backoff_ms: 10_000,
            backoff_multiplier: F32 { bits: TWO },
        }
    }
}

/// Everything that can be tuned.
#[derive(Debug, PartialEq)]
pub struct WikiConfig {
    pub search: SearchConfig,
    pub rag: RagConfig,
    pub lint: LintConfig,
    pub ingest: IngestConfig,
    pub validation: ValidationConfig,
    pub retry: RetryConfig,
    pub query: QueryConfig,
}

/// What a `WikiConfig` holds.
#[verifier::ext_equal]
pub struct WikiConfigM {
    pub search: SearchConfigM,
    pub rag: RagConfigM,
    pub lint: LintConfigM,
    pub ingest: IngestConfigM,
    pub validation: ValidationConfigM,
    pub retry: RetryConfigM,
    pub query: QueryConfigM,
}

impl DeepView for WikiConfig {
    type V = WikiConfigM;

    open spec fn deep_view(&self) -> WikiConfigM {
        WikiConfigM {
            search: self.search.deep_view(),
            rag: self.rag.deep_view(),
            lint: self.lint.deep_view(),
            ingest: self.ingest.deep_view(),
            validation: self.validation.deep_view(),
            retry: self.retry.deep_view(),
            query: self.query.deep_view(),
        }
    }
}

impl Clone for WikiConfig {
    fn clone(&self) -> (r: Self)
        ensures
            r.deep_view() == self.deep_view(),
    {
        WikiConfig {
            search: self.search.clone(),
            rag: self.rag.clone(),
            lint: self.lint.clone(),
            ingest: self.ingest.clone(),
            validation: self.validation.clone(),
            retry: self.retry.clone(),
            query: self.query.clone(),
        }
    }
}

impl Default for WikiConfig {
    fn default() -> (r: WikiConfig)
        ensures
            r.search.max_search_queries == 10,
            r.lint.deep_view() == lint_defaults(),
            r.ingest.deep_view() == ingest_defaults(),
            r.rag.deep_view() == rag_defaults(),
            r.validation.deep_view() == validation_defaults(),
            r.retry.deep_view() == retry_defaults(),
            r.query.deep_view() == query_defaults(),
    {
        WikiConfig {
            search: SearchConfig::default(),
            rag: RagConfig::default(),
            lint: LintConfig::default(),
            ingest: IngestConfig::default(),
            validation: ValidationConfig::default(),
            retry: RetryConfig::default(),
            query: QueryConfig::default(),
        }
    }
}

} // verus!
