//! The error of the toolkit.

use vstd::prelude::*;

verus! {

/// `serde_json::Error`: what went wrong when JSON text was read or written.
/// Nothing of what it holds is looked at here.
#[verifier::external_type_specification]
#[verifier::external_body]
pub struct ExJsonError(serde_json::Error);

/// An error raised by the chemistry toolkit. It tells nothing of the cause:
/// the toolkit reports that on its own.
#[derive(Debug)]
pub struct RDError;

impl RDError {
    /// The text of the error.
    pub fn message(&self) -> (text: String)
        ensures
            text@ == "RDError: see stderr for exception info"@,
    {
        "RDError: see stderr for exception info".to_owned()
    }
}

impl From<serde_json::Error> for RDError {
    /// An error of the JSON reader becomes the one error of the toolkit.
    fn from(error: serde_json::Error) -> (converted: Self) {
        Self
    }
}

impl vstd::std_specs::convert::FromSpecImpl<serde_json::Error> for RDError {
    open spec fn obeys_from_spec() -> bool {
        true
    }

    open spec fn from_spec(error: serde_json::Error) -> Self {
        RDError
    }
}

} // verus!
