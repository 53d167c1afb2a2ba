//! Repeating calls that failed.

use vstd::prelude::*;

use crate::config::{RetryConfig, RetryConfigM};
use crate::error::{WikiError, WikiErrorM};

verus! {

/// Whether an error may pass by itself: one of the language model or of a
/// store.
pub open spec fn retryable(e: WikiErrorM) -> bool {
    e is Llm || e is Storage
}

/// Whether an error may pass by itself.
pub fn is_retryable(err: &WikiError) -> (r: bool)
    ensures
        r == retryable(err.deep_view()),
{
    match err {
        WikiError::Llm(_) => true,
        WikiError::Storage(_) => true,
        _ => false,
    }
}

/// How far a call has come that is repeated while it fails.
#[derive(Debug, PartialEq)]
pub struct RetryRun {
    /// How many calls have failed.
    pub attempt: u32,
    /// The wait that comes next, in milliseconds.
    pub backoff_ms: u64,
}

/// What a `RetryRun` holds.
#[verifier::ext_equal]
pub struct RetryRunM {
    pub attempt: u32,
    pub backoff_ms: u64,
}

impl DeepView for RetryRun {
    type V = RetryRunM;

    open spec fn deep_view(&self) -> RetryRunM {
        RetryRunM {
            attempt: self.attempt,
            backoff_ms: self.backoff_ms,
        }
    }
}

impl Clone for RetryRun {
    fn clone(&self) -> (r: Self)
        ensures
            r.deep_view() == self.deep_view(),
    {
        RetryRun {
            attempt: self.attempt,
            backoff_ms: self.backoff_ms,
        }
    }
}


/// A run that may still be going on.
pub open spec fn running(c: RetryConfigM, run: RetryRunM) -> bool {
    run.attempt == 0 || run.attempt < c.max_retries
}

/// The wait before the next call, in milliseconds.
pub open spec fn delay(c: RetryConfigM, run: RetryRunM) -> u64 {
    if run.backoff_ms < c.max_backoff_ms {
        run.backoff_ms
    } else {
        c.max_backoff_ms
    }
}

/// Whether a failure ends the run: the error will not pass by itself, or the
/// calls are used up.
pub open spec fn ends_run(c: RetryConfigM, run: RetryRunM, e: WikiErrorM) -> bool {
    !retryable(e) || run.attempt + 1 >= c.max_retries
}

impl RetryRun {
    /// A run before its first call.
    pub fn new(config: &RetryConfig) -> (r: RetryRun)
        ensures
            r.deep_view() == (RetryRunM { attempt: 0, backoff_ms: config.initial_backoff_ms }),
            running(config.deep_view(), r.deep_view()),
    {
        RetryRun { attempt: 0, backoff_ms: config.initial_backoff_ms }
    }

    /// Counts a failed call: `None` if the error stands, else the wait before
    /// the next call, in milliseconds.
    pub fn fail(&mut self, config: &RetryConfig, err: &WikiError) -> (r: Option<u64>)
        requires
            running(config.deep_view(), old(self).deep_view()),
        ensures
            final(self).deep_view() == (RetryRunM {
                attempt: (old(self).attempt + 1) as u32,
                ..old(self).deep_view()
            }),
            r == (if ends_run(config.deep_view(), old(self).deep_view(), err.deep_view()) {
                None
            } else {
                Some(delay(config.deep_view(), old(self).deep_view()))
            }),
            r is Some ==> running(config.deep_view(), final(self).deep_view()),
    {
        self.attempt = self.attempt + 1;
        if !is_retryable(err) || self.attempt >= config.max_retries {
            return None;
        }
        if self.backoff_ms < config.max_backoff_ms {
            Some(self.backoff_ms)
        } else {
            Some(config.max_backoff_ms)
        }
    }

    /// Sets the wait that comes next.
    pub fn set_backoff(&mut self, backoff_ms: u64)
        ensures
            final(self).deep_view() == (RetryRunM { backoff_ms, ..old(self).deep_view() }),
    {
        self.backoff_ms = backoff_ms;
    }
}

/// The run after some failures, each with the wait that was set afterwards, as
/// far as it goes on; how many calls were made, and whether it ended.
pub open spec fn failed_run(
    c: RetryConfigM,
    run: RetryRunM,
    errors: Seq<WikiErrorM>,
    waits: Seq<u64>,
) -> (RetryRunM, bool)
    decreases errors.len(),
{
    if errors.len() == 0 {
        (run, false)
    } else {
        let (before, ended) = failed_run(c, run, errors.drop_last(), waits);
        if ended {
            (before, true)
        } else {
            (
                RetryRunM {
                    attempt: (before.attempt + 1) as u32,
                    backoff_ms: waits[errors.len() - 1],
                },
                ends_run(c, before, errors.last()),
            )
        }
    }
}

/// However the calls fail, no more are made than allowed, and no more than one
/// where none is; and no wait is longer than the longest.
pub proof fn law_attempts_bounded(
    c: RetryConfigM,
    errors: Seq<WikiErrorM>,
    waits: Seq<u64>,
)
    ensures
        ({
            let start = RetryRunM { attempt: 0, backoff_ms: c.initial_backoff_ms };
            let (run, ended) = failed_run(c, start, errors, waits);
            &&& run.attempt <= errors.len()
            &&& run.attempt <= c.max_retries || run.attempt <= 1
            &&& !ended ==> running(c, run) && run.attempt == errors.len()
            &&& delay(c, run) <= c.max_backoff_ms
        }),
    decreases errors.len(),
{
    if errors.len() > 0 {
        law_attempts_bounded(c, errors.drop_last(), waits);
    }
}

/// An error that will not pass by itself ends the run at once.
pub proof fn law_lasting_error_ends(c: RetryConfigM, run: RetryRunM, e: WikiErrorM)
    requires
        !(e is Llm),
        !(e is Storage),
    ensures
        ends_run(c, run, e),
{
}

} // verus!
