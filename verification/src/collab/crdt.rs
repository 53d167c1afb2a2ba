//! What a replicated tree is told.

use vstd::prelude::*;

use crate::text::{cat, decimal, show_u64};

verus! {

/// Why documents could not be synchronised.
#[derive(Debug, PartialEq)]
pub enum SyncError {
    Serialize(String),
    Crdt(String),
    NotTranslatable(String),
    VersionConflict { expected: u64, actual: u64 },
}

/// What a `SyncError` holds.
#[verifier::ext_equal]
pub enum SyncErrorM {
    Serialize(Seq<char>),
    Crdt(Seq<char>),
    NotTranslatable(Seq<char>),
    VersionConflict { expected: u64, actual: u64 },
}

impl DeepView for SyncError {
    type V = SyncErrorM;

    open spec fn deep_view(&self) -> SyncErrorM {
        match self {
            SyncError::Serialize(x) => SyncErrorM::Serialize(x.deep_view()),
            SyncError::Crdt(x) => SyncErrorM::Crdt(x.deep_view()),
            SyncError::NotTranslatable(x) => SyncErrorM::NotTranslatable(x.deep_view()),
            SyncError::VersionConflict { expected, actual } => SyncErrorM::VersionConflict {
                expected: *expected,
                actual: *actual,
            },
        }
    }
}

impl Clone for SyncError {
    fn clone(&self) -> (r: Self)
        ensures
            r.deep_view() == self.deep_view(),
    {
        match self {
            SyncError::Serialize(x) => SyncError::Serialize(x.clone()),
            SyncError::Crdt(x) => SyncError::Crdt(x.clone()),
            SyncError::NotTranslatable(x) => SyncError::NotTranslatable(x.clone()),
            SyncError::VersionConflict { expected, actual } => SyncError::VersionConflict {
                expected: *expected,
                actual: *actual,
            },
        }
    }
}

/// The words of an error.
pub open spec fn sync_error_text(e: SyncErrorM) -> Seq<char> {
    match e {
        SyncErrorM::Serialize(s) => "serialize: "@ + s,
        SyncErrorM::Crdt(s) => "crdt: "@ + s,
        SyncErrorM::NotTranslatable(s) => "not translatable: "@ + s,
        SyncErrorM::VersionConflict { expected, actual } => "version conflict: expected "@
            + decimal(expected as nat) + ", got "@ + decimal(actual as nat),
    }
}

impl SyncError {
    /// The words of the error.
    pub fn message(&self) -> (r: String)
        ensures
            r@ == sync_error_text(self.deep_view()),
    {
        match self {
            SyncError::Serialize(s) => cat("serialize: ", s.as_str()),
            SyncError::Crdt(s) => cat("crdt: ", s.as_str()),
            SyncError::NotTranslatable(s) => cat("not translatable: ", s.as_str()),
            SyncError::VersionConflict { expected, actual } => {
                let mut r = cat("version conflict: expected ", show_u64(*expected).as_str());
                r.push_str(", got ");
                r.push_str(show_u64(*actual).as_str());
                r
            },
        }
    }
}

/// What a result of synchronising holds.
pub open spec fn sync_outcome<T: DeepView>(r: Result<T, SyncError>) -> Result<T::V, SyncErrorM> {
    match r {
        Ok(t) => Ok(t.deep_view()),
        Err(e) => Err(e.deep_view()),
    }
}

} // verus!
