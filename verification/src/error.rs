//! Failures: a failed operation is known by its message.

use vstd::prelude::*;
use vstd::string::*;

verus! {

/// Why an operation was refused.
#[derive(Debug, PartialEq, Eq)]
pub struct OpError {
    pub message: String,
}

impl View for OpError {
    type V = Seq<char>;

    open spec fn view(&self) -> Seq<char> {
        self.message@
    }
}

impl OpError {
    /// A failure with the given message.
    pub fn new(message: &str) -> (r: OpError)
        ensures
            r@ == message@,
    {
        OpError { message: message.to_owned() }
    }
}

/// A result is the one that the model names: the same value, or a failure with
/// the same message.
pub open spec fn agrees<T: View>(r: Result<T, OpError>, model: Result<T::V, Seq<char>>) -> bool {
    match (r, model) {
        (Ok(v), Ok(m)) => v@ == m,
        (Err(e), Err(m)) => e@ == m,
        _ => false,
    }
}

/// A result agrees with its model where both are a value, and the value's model is that
/// one, or both are a failure with that message.
pub proof fn law_agrees<T: View>(r: Result<T, OpError>, model: Result<T::V, Seq<char>>)
    ensures
        agrees(r, model) <==> match (r, model) {
            (Ok(v), Ok(m)) => v@ == m,
            (Err(e), Err(message)) => e.message@ == message,
            _ => false,
        },
{
}

} // verus!
