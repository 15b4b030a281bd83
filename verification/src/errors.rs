//! The error taxonomy shared by every fallible operation.

use vstd::prelude::*;
use vstd::string::StringExecFns;
use crate::text::{decimal, to_decimal};

verus! {

/// Why an operation failed.
#[derive(Debug, PartialEq, Eq)]
pub enum MemoryError {
    /// Two vectors of different lengths met in a similarity computation.
    DimensionMismatch { expected: usize, actual: usize },
    /// No stored memory has the given id.
    NotFound(String),
    /// The request lacks something it must carry.
    InvalidInput(String),
    /// The embedding collaborator failed; the text is its own message.
    EmbeddingError(String),
    /// The language-model collaborator failed; the text is its own message.
    LLMError(String),
}

/// The mathematical content of a [`MemoryError`].
pub enum ErrorView {
    DimensionMismatch { expected: nat, actual: nat },
    NotFound(Seq<char>),
    InvalidInput(Seq<char>),
    EmbeddingError(Seq<char>),
    LLMError(Seq<char>),
}

impl View for MemoryError {
    type V = ErrorView;

    open spec fn view(&self) -> ErrorView {
        match *self {
            MemoryError::DimensionMismatch { expected, actual } => ErrorView::DimensionMismatch {
                expected: expected as nat,
                actual: actual as nat,
            },
            MemoryError::NotFound(id) => ErrorView::NotFound(id@),
            MemoryError::InvalidInput(why) => ErrorView::InvalidInput(why@),
            MemoryError::EmbeddingError(why) => ErrorView::EmbeddingError(why@),
            MemoryError::LLMError(why) => ErrorView::LLMError(why@),
        }
    }
}

impl Clone for MemoryError {
    fn clone(&self) -> (out: MemoryError)
        ensures
            out@ == self@,
    {
        match self {
            MemoryError::DimensionMismatch { expected, actual } => MemoryError::DimensionMismatch {
                expected: *expected,
                actual: *actual,
            },
            MemoryError::NotFound(id) => MemoryError::NotFound(id.clone()),
            MemoryError::InvalidInput(why) => MemoryError::InvalidInput(why.clone()),
            MemoryError::EmbeddingError(why) => MemoryError::EmbeddingError(why.clone()),
            MemoryError::LLMError(why) => MemoryError::LLMError(why.clone()),
        }
    }
}

/// What an error says, in words.
pub open spec fn message_of(error: ErrorView) -> Seq<char> {
    match error {
        ErrorView::DimensionMismatch { expected, actual } => {
            "embedding dimension mismatch: expected "@ + decimal(expected) + ", got "@ + decimal(
                actual,
            )
        },
        ErrorView::NotFound(id) => "memory with id "@ + id + " not found"@,
        ErrorView::InvalidInput(why) => "invalid input: "@ + why,
        ErrorView::EmbeddingError(why) => "embedding error: "@ + why,
        ErrorView::LLMError(why) => "LLM error: "@ + why,
    }
}

impl MemoryError {
    /// What the error says, in words.
    pub fn message(&self) -> (text: String)
        ensures
            text@ == message_of(self@),
    {
        match self {
            MemoryError::DimensionMismatch { expected, actual } => {
                let mut text = String::from_str("embedding dimension mismatch: expected ");
                text.append(to_decimal(*expected).as_str());
                text.append(", got ");
                text.append(to_decimal(*actual).as_str());
                text
            },
            MemoryError::NotFound(id) => {
                let mut text = String::from_str("memory with id ");
                text.append(id.as_str());
                text.append(" not found");
                text
            },
            MemoryError::InvalidInput(why) => {
                let mut text = String::from_str("invalid input: ");
                text.append(why.as_str());
                text
            },
            MemoryError::EmbeddingError(why) => {
                let mut text = String::from_str("embedding error: ");
                text.append(why.as_str());
                text
            },
            MemoryError::LLMError(why) => {
                let mut text = String::from_str("LLM error: ");
                text.append(why.as_str());
                text
            },
        }
    }
}

} // verus!
