//! Failures of the question answerer, each with the exit code the tool uses.

use vstd::prelude::*;

use crate::graph::error::{colon_join, colon_message};
use crate::text::copy_str;

verus! {

/// Failures mapped onto the `query` exit codes.
#[derive(Debug)]
pub enum AskError {
    /// A required flag is missing or `--top-k` is outside 1..=32. Exit 2.
    Usage(String),
    /// The bundle is unreadable or `format_version` is not 1. Exit 3.
    Bundle(String),
    /// A GGUF failed to load, or retrieval could not finish. Exit 4.
    Model(String),
}

/// The mathematical value of a failure: its variant and message.
pub enum AskErrorView {
    Usage(Seq<char>),
    Bundle(Seq<char>),
    Model(Seq<char>),
}

impl View for AskError {
    type V = AskErrorView;

    open spec fn view(&self) -> AskErrorView {
        match self {
            AskError::Usage(m) => AskErrorView::Usage(m@),
            AskError::Bundle(m) => AskErrorView::Bundle(m@),
            AskError::Model(m) => AskErrorView::Model(m@),
        }
    }
}

impl AskError {
    /// The process exit code for this failure.
    pub fn exit_code(&self) -> (code: i32)
        ensures
            code == match self {
                AskError::Usage(_) => 2i32,
                AskError::Bundle(_) => 3i32,
                AskError::Model(_) => 4i32,
            },
    {
        match self {
            AskError::Usage(_) => 2,
            AskError::Bundle(_) => 3,
            AskError::Model(_) => 4,
        }
    }

    /// A usage failure with `detail` as its message.
    pub fn usage(detail: &str) -> (e: AskError)
        ensures
            e@ == AskErrorView::Usage(detail@),
    {
        AskError::Usage(copy_str(detail))
    }

    /// A bundle failure, `{path}: {detail}`.
    pub fn bundle(path: &str, detail: &str) -> (e: AskError)
        ensures
            e@ == AskErrorView::Bundle(colon_join(path@, detail@)),
    {
        AskError::Bundle(colon_message(path, detail))
    }

    /// A model failure with `detail` as its message.
    pub fn model(detail: &str) -> (e: AskError)
        ensures
            e@ == AskErrorView::Model(detail@),
    {
        AskError::Model(copy_str(detail))
    }

    /// The message this failure prints.
    pub fn message(&self) -> (m: String)
        ensures
            m@ == match self {
                AskError::Usage(t) => t@,
                AskError::Bundle(t) => t@,
                AskError::Model(t) => t@,
            },
    {
        match self {
            AskError::Usage(t) => copy_str(t.as_str()),
            AskError::Bundle(t) => copy_str(t.as_str()),
            AskError::Model(t) => copy_str(t.as_str()),
        }
    }
}

} // verus!
