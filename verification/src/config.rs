//! Run-configuration validation: decides, before any fetching, whether the
//! requested output destinations allow the run to proceed.

use vstd::prelude::*;

verus! {

/// Whether a run may proceed, given which output destinations were requested
/// and whether each already exists.
///
/// `pairs_output_exists` is `None` when no pairs output was requested and
/// `Some(e)` when one was, with `e` saying whether a file already stands at
/// that path; `singles_output_exists` likewise for the singles output. The
/// run proceeds only if at least one output was requested and, unless
/// `force_overwrite` is set, no requested destination already exists.
pub fn validate(
    pairs_output_exists: Option<bool>,
    singles_output_exists: Option<bool>,
    force_overwrite: bool,
) -> (r: bool)
    ensures
        r == ((pairs_output_exists is Some || singles_output_exists is Some)
            && (force_overwrite || !(pairs_output_exists == Some(true)
                || singles_output_exists == Some(true)))),
{
    match (pairs_output_exists, singles_output_exists) {
        (Some(pairs_exists), Some(singles_exists)) => {
            if !force_overwrite && (pairs_exists || singles_exists) {
                return false;
            }
        },
        (Some(pairs_exists), None) => {
            if !force_overwrite && pairs_exists {
                return false;
            }
        },
        (None, Some(singles_exists)) => {
            if !force_overwrite && singles_exists {
                return false;
            }
        },
        (None, None) => {
            return false;
        },
    }
    true
}

} // verus!
