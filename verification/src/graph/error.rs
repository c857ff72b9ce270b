//! Failures of the graph builder, each with the exit code the tool uses.

use vstd::prelude::*;

use crate::text::{append_str, chars_of, copy_str, string_of};

verus! {

/// Failures mapped onto the exit codes.
#[derive(Debug)]
pub enum GraphError {
    /// Missing flag or a bad `--output`. Exit 2.
    Usage(String),
    /// The corpus or bundle cannot be read, or a version is not 1. Exit 3.
    Read(String),
    /// A graph rule failed. The message names a node id. Exit 4.
    Invalid(String),
}

/// `a: b`.
pub open spec fn colon_join(a: Seq<char>, b: Seq<char>) -> Seq<char> {
    a + seq![':', ' '] + b
}

/// `a: b` as a string.
pub fn colon_message(a: &str, b: &str) -> (r: String)
    ensures
        r@ == colon_join(a@, b@),
{
    let mut out = chars_of(a);
    out.push(':');
    out.push(' ');
    append_str(&mut out, b);
    string_of(out.as_slice())
}

/// The mathematical value of a failure: its variant and message.
pub enum GraphErrorView {
    Usage(Seq<char>),
    Read(Seq<char>),
    Invalid(Seq<char>),
}

impl View for GraphError {
    type V = GraphErrorView;

    open spec fn view(&self) -> GraphErrorView {
        match self {
            GraphError::Usage(m) => GraphErrorView::Usage(m@),
            GraphError::Read(m) => GraphErrorView::Read(m@),
            GraphError::Invalid(m) => GraphErrorView::Invalid(m@),
        }
    }
}

impl GraphError {
    /// The process exit code for this failure.
    pub fn exit_code(&self) -> (code: i32)
        ensures
            code == match self {
                GraphError::Usage(_) => 2i32,
                GraphError::Read(_) => 3i32,
                GraphError::Invalid(_) => 4i32,
            },
    {
        match self {
            GraphError::Usage(_) => 2,
            GraphError::Read(_) => 3,
            GraphError::Invalid(_) => 4,
        }
    }

    /// A read failure, `{path}: {detail}`.
    pub fn read(path: &str, detail: &str) -> (e: GraphError)
        ensures
            e matches GraphError::Read(m) && m@ == colon_join(path@, detail@),
    {
        GraphError::Read(colon_message(path, detail))
    }

    /// A rule failure naming a node, `{node_id}: {rule}`.
    pub fn invalid(node_id: &str, rule: &str) -> (e: GraphError)
        ensures
            e matches GraphError::Invalid(m) && m@ == colon_join(node_id@, rule@),
    {
        GraphError::Invalid(colon_message(node_id, rule))
    }

    /// The message this failure prints.
    pub fn message(&self) -> (m: String)
        ensures
            m@ == match self {
                GraphError::Usage(t) => t@,
                GraphError::Read(t) => t@,
                GraphError::Invalid(t) => t@,
            },
    {
        match self {
            GraphError::Usage(t) => copy_str(t.as_str()),
            GraphError::Read(t) => copy_str(t.as_str()),
            GraphError::Invalid(t) => copy_str(t.as_str()),
        }
    }
}

} // verus!
