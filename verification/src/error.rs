//! Errors: what went wrong, in the words that are shown for it.
use vstd::prelude::*;

verus! {

/// What went wrong.
#[derive(Debug, PartialEq, Eq)]
pub struct KeaError {
    pub message: String,
}

impl KeaError {
    /// The words that are shown for the error.
    pub fn to_string(&self) -> (r: String)
        ensures
            r@ == self.message@,
    {
        self.message.clone()
    }
}

/// An error with these words.
pub fn error(message: &str) -> (r: KeaError)
    ensures
        r.message@ == message@,
{
    KeaError { message: message.to_owned() }
}

} // verus!
