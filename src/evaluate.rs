//! Errors of expression evaluation and their numeric codes.
use vstd::prelude::*;

verus! {

/// An error met while evaluating an expression.
#[derive(Debug)]
pub enum EvaluateError {
    /// Execution stopped because it exceeded its deadline.
    DeadlineExceeded,
    /// A string is not valid in its character set.
    InvalidCharacterString { charset: String },
    /// An error that carries its own code.
    Custom { code: i32, msg: String },
    Other(String),
}

impl EvaluateError {
    pub open spec fn spec_code(&self) -> i32 {
        match self {
            EvaluateError::InvalidCharacterString { .. } => 1300,
            EvaluateError::DeadlineExceeded => 9007,
            EvaluateError::Custom { code, .. } => *code,
            EvaluateError::Other(_) => 10000,
        }
    }

    /// The error's numeric code.
    pub fn code(&self) -> (r: i32)
        ensures
            r == self.spec_code(),
    {
        match self {
            EvaluateError::InvalidCharacterString { .. } => 1300,
            EvaluateError::DeadlineExceeded => 9007,
            EvaluateError::Custom { code, .. } => *code,
            EvaluateError::Other(_) => 10000,
        }
    }
}

} // verus!
