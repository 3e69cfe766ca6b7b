//! The outcome of a clipboard operation, as the platform clipboard reports it.
use vstd::prelude::*;

verus! {

/// What happened to a clipboard operation.
#[derive(Debug, Clone, PartialEq)]
pub enum ClipboardResult {
    Success,
    Failure(String),
    Unsupported,
}

/// The answer to a copy request: nothing on success, else the failure's
/// message, or `Clipboard not supported`.
pub open spec fn clipboard_outcome_view(result: ClipboardResult) -> Result<(), Seq<char>> {
    match result {
        ClipboardResult::Success => Ok(()),
        ClipboardResult::Failure(e) => Err(e@),
        ClipboardResult::Unsupported => Err("Clipboard not supported"@),
    }
}

/// The view of an answer.
pub open spec fn answer_view(r: Result<(), String>) -> Result<(), Seq<char>> {
    match r {
        Ok(()) => Ok(()),
        Err(e) => Err(e@),
    }
}

/// The answer to a copy request (see `clipboard_outcome_view`).
pub fn clipboard_outcome(result: ClipboardResult) -> (r: Result<(), String>)
    ensures
        answer_view(r) == clipboard_outcome_view(result),
{
    match result {
        ClipboardResult::Success => Ok(()),
        ClipboardResult::Failure(e) => Err(e),
        ClipboardResult::Unsupported => Err("Clipboard not supported".to_owned()),
    }
}

} // verus!
