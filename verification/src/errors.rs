//! The error of the service's HTTP surface.

use vstd::prelude::*;

verus! {

/// The one error that a request can end in: it says that the request failed
/// and nothing more.
#[derive(Debug)]
pub struct CustomError;

impl CustomError {
    /// The text that the error is shown as.
    pub fn message(&self) -> (text: String)
        ensures
            text@ == "Custom error"@,
    {
        "Custom error".to_owned()
    }
}

} // verus!
