//! The error that runtime operations report.
use vstd::prelude::*;
use vstd::string::*;

verus! {

/// An error raised while evaluating Lucid code, carrying its message.
#[derive(Debug, Clone, PartialEq, Eq)]
pub struct RuntimeError {
    pub message: String,
}

/// Builds a `RuntimeError` whose message is `text`.
pub fn runtime_error(text: &str) -> (e: RuntimeError)
    ensures
        e.message@ == text@,
{
    RuntimeError { message: String::from_str(text) }
}

} // verus!
