//! The embedding collaborator's interface surface: its error taxonomy
//! and the placeholder generator's bookkeeping. Producing the vectors
//! themselves (floating point, model inference) is the collaborator's
//! business, outside this library; the store consumes the fixed-point
//! form defined in `similarity`.
use vstd::prelude::*;

verus! {

/// Why an embedding could not be produced. The first four variants are
/// configuration problems, visible at setup; the rest are failures of a
/// single generation call.
pub enum EmbeddingError {
    ModelNotFound(String),
    TokenizerNotFound(String),
    ModelLoadError(String),
    TokenizerLoadError(String),
    InferenceError(String),
    TokenizationError(String),
    TensorError(String),
    OutputProcessingError(String),
    Other(String),
}

impl EmbeddingError {
    /// The human-readable message carried by the error.
    pub fn message(&self) -> (r: &String)
        ensures
            match self {
                EmbeddingError::ModelNotFound(m) => r == m,
                EmbeddingError::TokenizerNotFound(m) => r == m,
                EmbeddingError::ModelLoadError(m) => r == m,
                EmbeddingError::TokenizerLoadError(m) => r == m,
                EmbeddingError::InferenceError(m) => r == m,
                EmbeddingError::TokenizationError(m) => r == m,
                EmbeddingError::TensorError(m) => r == m,
                EmbeddingError::OutputProcessingError(m) => r == m,
                EmbeddingError::Other(m) => r == m,
            },
    {
        match self {
            EmbeddingError::ModelNotFound(m) => m,
            EmbeddingError::TokenizerNotFound(m) => m,
            EmbeddingError::ModelLoadError(m) => m,
            EmbeddingError::TokenizerLoadError(m) => m,
            EmbeddingError::InferenceError(m) => m,
            EmbeddingError::TokenizationError(m) => m,
            EmbeddingError::TensorError(m) => m,
            EmbeddingError::OutputProcessingError(m) => m,
            EmbeddingError::Other(m) => m,
        }
    }

    /// Whether the failure is a configuration problem (model or
    /// tokenizer missing or unloadable) rather than a failure of one
    /// generation call; callers surface the two differently.
    pub fn is_configuration_error(&self) -> (r: bool)
        ensures
            r == (self is ModelNotFound || self is TokenizerNotFound || self is ModelLoadError
                || self is TokenizerLoadError),
    {
        match self {
            EmbeddingError::ModelNotFound(_) => true,
            EmbeddingError::TokenizerNotFound(_) => true,
            EmbeddingError::ModelLoadError(_) => true,
            EmbeddingError::TokenizerLoadError(_) => true,
            _ => false,
        }
    }
}

/// The placeholder embedding source: it promises vectors of a fixed
/// length chosen at construction. The vectors themselves are produced
/// by the host program.
pub struct DummyEmbeddingGenerator {
    embedding_size: usize,
}

impl DummyEmbeddingGenerator {
    /// The fixed length of every vector this generator yields.
    pub closed spec fn spec_embedding_size(&self) -> usize {
        self.embedding_size
    }

    /// Creates a placeholder generator for vectors of `embedding_size`
    /// components.
    pub fn new(embedding_size: usize) -> (r: DummyEmbeddingGenerator)
        ensures
            r.spec_embedding_size() == embedding_size,
    {
        DummyEmbeddingGenerator { embedding_size }
    }

    /// The configured vector length.
    pub fn get_embedding_size(&self) -> (r: usize)
        ensures
            r == self.spec_embedding_size(),
    {
        self.embedding_size
    }

    /// The generator's display name.
    pub fn name(&self) -> (r: &'static str)
        ensures
            r@ == "Dummy"@,
    {
        "Dummy"
    }
}

} // verus!
