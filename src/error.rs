use vstd::prelude::*;

verus! {

/// The ways an operation of the engine can fail.
#[derive(Clone, Copy, Debug, PartialEq, Eq, Structural)]
pub enum RagError {
    DocumentUnreadable,
    EmbeddingUnavailable,
    EmbeddingRateLimited,
    EmbeddingInvalidInput,
    AlreadyRunning,
    InvalidSearchMode,
}

} // verus!
