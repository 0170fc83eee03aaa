//! Configuration for the optional language-model embedding helper.
//!
//! The helper itself is an external collaborator; this module holds the
//! decisions made over its configuration: whether a model can be loaded at
//! all, and which tokenizer source the arguments select.

use vstd::prelude::*;

verus! {

/// Where the model's tokenizer comes from.
#[derive(Debug, Clone, PartialEq, Eq)]
pub enum TokenizerSource {
    /// A tokenizer file on disk, by path.
    HuggingFaceTokenizerFile(String),
    /// A remote tokenizer repository, by name.
    HuggingFaceRemote(String),
    /// The tokenizer embedded in the model file.
    Embedded,
}

/// The command-line arguments that select a model and tokenizer. Paths are
/// carried as plain strings.
pub struct LLMModelArgs {
    /// The model's architecture name, if a model is to be loaded.
    pub model_architecture: Option<String>,
    /// The model file's path, if a model is to be loaded.
    pub model_path: Option<String>,
    /// A tokenizer file's path.
    pub tokenizer_path: Option<String>,
    /// A remote tokenizer repository's name.
    pub tokenizer_repository: Option<String>,
}

impl LLMModelArgs {
    /// Whether the arguments name everything a model load needs: both an
    /// architecture and a model path.
    pub fn available(&self) -> (b: bool)
        ensures
            b == (self.model_architecture is Some && self.model_path is Some),
    {
        match (&self.model_architecture, &self.model_path) {
            (Option::Some(_), Option::Some(_)) => true,
            (_, Option::None) => false,
            (Option::None, _) => false,
        }
    }

    /// The tokenizer source the arguments select: a file path wins over
    /// nothing, a repository over nothing, and neither means the embedded
    /// tokenizer. Naming both a path and a repository is a caller error.
    pub fn to_tokenizer_source(&self) -> (r: TokenizerSource)
        requires
            !(self.tokenizer_path is Some && self.tokenizer_repository is Some),
        ensures
            match (self.tokenizer_path, self.tokenizer_repository) {
                (Option::Some(path), Option::None) => r matches
                    TokenizerSource::HuggingFaceTokenizerFile(p) && p@ == path@,
                (Option::None, Option::Some(repo)) => r matches TokenizerSource::HuggingFaceRemote(
                    rp,
                ) && rp@ == repo@,
                (Option::None, Option::None) => r == TokenizerSource::Embedded,
                (Option::Some(_), Option::Some(_)) => false,
            },
    {
        match (&self.tokenizer_path, &self.tokenizer_repository) {
            (Option::Some(path), Option::None) => TokenizerSource::HuggingFaceTokenizerFile(
                path.clone(),
            ),
            (Option::None, Option::Some(repo)) => TokenizerSource::HuggingFaceRemote(repo.clone()),
            _ => TokenizerSource::Embedded,
        }
    }
}

} // verus!
