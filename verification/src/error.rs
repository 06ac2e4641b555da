//! The two families of failure: a bundle that cannot be built, and a sentence
//! that cannot be embedded.
use vstd::prelude::*;

verus! {

/// Why a model bundle could not be built.
#[derive(Debug, Clone, Copy, PartialEq, Eq, Structural)]
pub enum InitError {
    /// An artifact file does not exist.
    ArtifactMissing,
    /// An artifact file exists and cannot be read or mapped.
    ArtifactUnreadable,
    /// The tensor container does not parse, or holds no tensor of the expected name.
    MalformedTensorContainer,
    /// The tokenizer description lacks the vocabulary, or the vocabulary
    /// holds a negative id or the same token twice.
    MalformedVocabulary,
    /// The tensor is not a matrix of 32-bit words, or the vocabulary names a
    /// row that the matrix does not have.
    ShapeMismatch,
}

/// Why one sentence could not be embedded.
#[derive(Debug, Clone, PartialEq, Eq)]
pub enum EncodeError {
    /// The word has a position from which no candidate of any length is in
    /// the vocabulary.
    UnknownToken(String),
    /// There is nothing to pool, or the pooled vector has norm zero.
    DegenerateEmbedding,
}

/// `EncodeError` with its word as a sequence of characters.
pub enum EncodeErrorView {
    /// The word without a decomposition.
    UnknownToken(Seq<char>),
    /// Nothing to pool, or a pooled vector of norm zero.
    DegenerateEmbedding,
}

impl View for EncodeError {
    type V = EncodeErrorView;

    open spec fn view(&self) -> EncodeErrorView {
        match self {
            EncodeError::UnknownToken(word) => EncodeErrorView::UnknownToken(word@),
            EncodeError::DegenerateEmbedding => EncodeErrorView::DegenerateEmbedding,
        }
    }
}

} // verus!
