//! The error taxonomy of the service: an absent entity or relationship, a
//! violated business invariant, or an internal failure.

use vstd::prelude::*;

verus! {

/// An operation's failure, with a human-readable reason intended for direct
/// display.
#[derive(Debug, PartialEq, Eq)]
pub enum AppError {
    NotFound(String),
    BadRequest(String),
    Internal(String),
}

impl AppError {
    /// The HTTP status code the error maps to.
    pub fn status_code(&self) -> (c: u16)
        ensures
            self is NotFound ==> c == 404,
            self is BadRequest ==> c == 400,
            self is Internal ==> c == 500,
    {
        match self {
            AppError::NotFound(_) => 404,
            AppError::BadRequest(_) => 400,
            AppError::Internal(_) => 500,
        }
    }

    /// The reason carried by the error.
    pub fn message(&self) -> (m: &String)
        ensures
            (*self matches AppError::NotFound(s) ==> m@ == s@),
            (*self matches AppError::BadRequest(s) ==> m@ == s@),
            (*self matches AppError::Internal(s) ==> m@ == s@),
    {
        match self {
            AppError::NotFound(m) => m,
            AppError::BadRequest(m) => m,
            AppError::Internal(m) => m,
        }
    }
}

impl Clone for AppError {
    fn clone(&self) -> (r: Self)
        ensures
            r == *self,
    {
        match self {
            AppError::NotFound(m) => AppError::NotFound(m.clone()),
            AppError::BadRequest(m) => AppError::BadRequest(m.clone()),
            AppError::Internal(m) => AppError::Internal(m.clone()),
        }
    }
}

} // verus!
