//! The selection launcher: validates a selection index against the result
//! list the caller holds, and interprets the external invoke mechanism's
//! report. The launcher never manipulates visibility itself; the orchestrating
//! layer reacts to the returned result.

use vstd::prelude::*;

use crate::search::SearchOption;

verus! {

/// Why a launch request failed.
#[derive(Clone, Debug)]
pub enum LaunchError {
    /// The selection index does not correspond to the result set it was
    /// validated against.
    InvalidSelection,
    /// The external invoke mechanism reported an error; the reason is carried
    /// to the caller, never silently swallowed.
    LaunchFailed(String),
}

/// The outcome of a launch, always surfaced to the caller that requested it.
#[derive(Clone, Debug)]
pub enum LaunchResult {
    Success,
    Failure(String),
}

/// Validate a selection against the result list the caller holds and hand
/// back the identifier of the item to invoke. Fails with `InvalidSelection`
/// exactly when the index is out of range; it never panics.
pub fn validate_selection(selection: usize, results: &Vec<SearchOption>) -> (r: Result<
    u64,
    LaunchError,
>)
    ensures
        (selection as int) < results@.len() ==> r == Ok::<u64, LaunchError>(
            results@[selection as int].item_id,
        ),
        (selection as int) >= results@.len() ==> r == Err::<u64, LaunchError>(
            LaunchError::InvalidSelection,
        ),
{
    if selection < results.len() {
        Ok(results[selection].item_id)
    } else {
        Err(LaunchError::InvalidSelection)
    }
}

/// Interpret the external invoke mechanism's report: `Success` exactly when
/// the mechanism succeeded, otherwise `Failure` carrying the reported reason.
pub fn launch_outcome(invoke_ok: bool, reason: String) -> (r: LaunchResult)
    ensures
        invoke_ok ==> r == LaunchResult::Success,
        !invoke_ok ==> r == LaunchResult::Failure(reason),
{
    if invoke_ok {
        LaunchResult::Success
    } else {
        LaunchResult::Failure(reason)
    }
}

} // verus!
