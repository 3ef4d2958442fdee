//! The error taxonomy of the splitting engine.

use vstd::prelude::*;

verus! {

/// Mathematical model of a [`SplitError`].
pub enum ErrorValue {
    MissingField(Seq<char>),
    TypeMismatch(Seq<char>),
    MalformedContext,
    DanglingReference(Seq<char>),
    DuplicateContext,
    DuplicateIdentifier(Seq<char>),
}

/// Why a split was aborted.  Every error aborts the whole operation; no
/// partial batch is ever returned.
#[derive(Debug, PartialEq, Eq)]
pub enum SplitError {
    /// A required key is absent from a mapping; carries the key.
    MissingField(String),
    /// A value has the wrong shape; carries the key, or a word for the
    /// offending place when no key names it.
    TypeMismatch(String),
    /// A context entry does not decompose into a name and a `context` mapping.
    MalformedContext,
    /// A context names a cluster or user that the source does not hold;
    /// carries the dangling name.
    DanglingReference(String),
    /// The exact same context entry was added twice to one output document.
    DuplicateContext,
    /// Two contexts derive the same output identifier; carries it.
    DuplicateIdentifier(String),
}

impl View for SplitError {
    type V = ErrorValue;

    open spec fn view(&self) -> ErrorValue {
        match self {
            SplitError::MissingField(k) => ErrorValue::MissingField(k@),
            SplitError::TypeMismatch(k) => ErrorValue::TypeMismatch(k@),
            SplitError::MalformedContext => ErrorValue::MalformedContext,
            SplitError::DanglingReference(n) => ErrorValue::DanglingReference(n@),
            SplitError::DuplicateContext => ErrorValue::DuplicateContext,
            SplitError::DuplicateIdentifier(id) => ErrorValue::DuplicateIdentifier(id@),
        }
    }
}

} // verus!
