//! The models the answerer talks to, and the identity of an embedding file.

use vstd::prelude::*;

use crate::ask::error::AskError;

verus! {

/// Identity of the embedding GGUF cached in an index header.
#[derive(Debug)]
pub struct EmbedIdentity {
    pub sha256: [u8; 32],
    pub len: u64,
    pub mtime_secs: u64,
}

/// Chat completion and the tokenizer used for the context budget. Tests
/// supply a double; the app uses a GGUF.
pub trait ChatModel {
    fn context_tokens(&self) -> usize;

    fn count_tokens(&mut self, text: &str) -> Result<usize, AskError>;

    fn complete(&mut self, prompt: &str) -> Result<String, AskError>;
}

} // verus!
