//! Interpretation of the remote existence endpoint's answer.
//!
//! The endpoint is asked `GET <url><group>`. An HTTP success whose body,
//! trimmed, contains the token "yes" means the group exists; any other
//! successful body means it does not; a failure status is a check
//! failure — an outcome of its own, distinct from non-existence, so
//! that callers can log the difference.

use vstd::prelude::*;

use crate::text::{contains_seq, contains_sub, spec_trim, trim_spaces};

verus! {

/// What the remote existence endpoint's answer stands for.
#[derive(Clone, Copy, Debug, PartialEq, Eq, Structural)]
pub enum CheckOutcome {
    /// A success whose trimmed body contains "yes": the group exists.
    Exists,
    /// A success with any other body: the group does not exist.
    DoesNotExist,
    /// A failure status: the check itself failed. Never conflated with
    /// `DoesNotExist`.
    CheckFailed,
}

/// The outcome an answer with the given status and body stands for.
pub open spec fn spec_check_outcome(status_ok: bool, body: Seq<char>) -> CheckOutcome {
    if !status_ok {
        CheckOutcome::CheckFailed
    } else if contains_seq(spec_trim(body), "yes"@) {
        CheckOutcome::Exists
    } else {
        CheckOutcome::DoesNotExist
    }
}

/// Interpret an answer from the existence endpoint.
pub fn interpret_check_response(status_ok: bool, body: &str) -> (r: CheckOutcome)
    ensures
        r == spec_check_outcome(status_ok, body@),
{
    if !status_ok {
        return CheckOutcome::CheckFailed;
    }
    let t = trim_spaces(body);
    if contains_sub(t.as_str(), "yes") {
        CheckOutcome::Exists
    } else {
        CheckOutcome::DoesNotExist
    }
}

} // verus!
