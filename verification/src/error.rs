//! The one way a scoring or fusion call can be refused.

use vstd::prelude::*;

verus! {

/// Why a call was refused before it produced anything.
#[derive(Clone, Copy, Debug, PartialEq, Eq, Structural)]
pub enum RrfError {
    /// The smoothing constant `k` was zero or negative.
    InvalidConstant,
}

impl RrfError {
    /// The text shown to whoever made the call.
    pub fn message(&self) -> (text: &'static str)
        ensures
            text@ == "rrf k must be positive"@,
    {
        match self {
            RrfError::InvalidConstant => "rrf k must be positive",
        }
    }
}

/// Accepts a strictly positive smoothing constant and refuses any other.
pub fn check_constant(k: i64) -> (res: Result<(), RrfError>)
    ensures
        res is Err <==> k <= 0,
        res matches Err(refusal) ==> refusal == RrfError::InvalidConstant,
{
    if k <= 0 {
        Err(RrfError::InvalidConstant)
    } else {
        Ok(())
    }
}

} // verus!
