//! The errors of the wiki.

use vstd::prelude::*;

use crate::text::cat;

verus! {

/// Why an operation of the wiki was refused.
#[derive(Debug, PartialEq)]
pub enum WikiError {
    NotFound(String),
    Storage(String),
    PermissionDenied(String),
    VersionConflict(String),
    Serialization(String),
    Llm(String),
    Invalid(String),
}

/// What a `WikiError` holds.
#[verifier::ext_equal]
pub enum WikiErrorM {
    NotFound(Seq<char>),
    Storage(Seq<char>),
    PermissionDenied(Seq<char>),
    VersionConflict(Seq<char>),
    Serialization(Seq<char>),
    Llm(Seq<char>),
    Invalid(Seq<char>),
}

impl DeepView for WikiError {
    type V = WikiErrorM;

    open spec fn deep_view(&self) -> WikiErrorM {
        match self {
            WikiError::NotFound(x) => WikiErrorM::NotFound(x.deep_view()),
            WikiError::Storage(x) => WikiErrorM::Storage(x.deep_view()),
            WikiError::PermissionDenied(x) => WikiErrorM::PermissionDenied(x.deep_view()),
            WikiError::VersionConflict(x) => WikiErrorM::VersionConflict(x.deep_view()),
            WikiError::Serialization(x) => WikiErrorM::Serialization(x.deep_view()),
            WikiError::Llm(x) => WikiErrorM::Llm(x.deep_view()),
            WikiError::Invalid(x) => WikiErrorM::Invalid(x.deep_view()),
        }
    }
}

impl Clone for WikiError {
    fn clone(&self) -> (r: Self)
        ensures
            r.deep_view() == self.deep_view(),
    {
        match self {
            WikiError::NotFound(x) => WikiError::NotFound(x.clone()),
            WikiError::Storage(x) => WikiError::Storage(x.clone()),
            WikiError::PermissionDenied(x) => WikiError::PermissionDenied(x.clone()),
            WikiError::VersionConflict(x) => WikiError::VersionConflict(x.clone()),
            WikiError::Serialization(x) => WikiError::Serialization(x.clone()),
            WikiError::Llm(x) => WikiError::Llm(x.clone()),
            WikiError::Invalid(x) => WikiError::Invalid(x.clone()),
        }
    }
}

/// The words of an error.
pub open spec fn error_text(e: WikiErrorM) -> Seq<char> {
    match e {
        WikiErrorM::NotFound(s) => "not found: "@ + s,
        WikiErrorM::Storage(s) => "storage: "@ + s,
        WikiErrorM::PermissionDenied(s) => "permission denied: "@ + s,
        WikiErrorM::VersionConflict(s) => "version conflict: "@ + s,
        WikiErrorM::Serialization(s) => "serialization: "@ + s,
        WikiErrorM::Llm(s) => "llm: "@ + s,
        WikiErrorM::Invalid(s) => "invalid: "@ + s,
    }
}

impl WikiError {
    /// The words of the error.
    pub fn message(&self) -> (r: String)
        ensures
            r@ == error_text(self.deep_view()),
    {
        match self {
            WikiError::NotFound(s) => cat("not found: ", s.as_str()),
            WikiError::Storage(s) => cat("storage: ", s.as_str()),
            WikiError::PermissionDenied(s) => cat("permission denied: ", s.as_str()),
            WikiError::VersionConflict(s) => cat("version conflict: ", s.as_str()),
            WikiError::Serialization(s) => cat("serialization: ", s.as_str()),
            WikiError::Llm(s) => cat("llm: ", s.as_str()),
            WikiError::Invalid(s) => cat("invalid: ", s.as_str()),
        }
    }
}

/// What a result of the wiki holds.
pub open spec fn outcome<T: DeepView>(r: Result<T, WikiError>) -> Result<T::V, WikiErrorM> {
    match r {
        Ok(t) => Ok(t.deep_view()),
        Err(e) => Err(e.deep_view()),
    }
}

/// The message of an error names its kind and ends with what it is about.
pub proof fn law_error_text(s: Seq<char>)
    ensures
        error_text(WikiErrorM::NotFound(s)) == "not found: "@ + s,
        error_text(WikiErrorM::Storage(s)) == "storage: "@ + s,
        error_text(WikiErrorM::PermissionDenied(s)) == "permission denied: "@ + s,
        error_text(WikiErrorM::VersionConflict(s)) == "version conflict: "@ + s,
        error_text(WikiErrorM::Serialization(s)) == "serialization: "@ + s,
        error_text(WikiErrorM::Llm(s)) == "llm: "@ + s,
        error_text(WikiErrorM::Invalid(s)) == "invalid: "@ + s,
{
}

} // verus!
