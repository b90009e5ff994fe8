//! Errors of the application's use cases.

use vstd::prelude::*;

verus! {

#[derive(Debug, Clone, PartialEq, Eq)]
pub enum ApplicationError {
    /// The named entity does not exist.
    NotFound(String),
    InvalidInput(String),
    /// The document has errors that block saving it.
    Validation,
    Persistence(String),
    Internal(String),
}

pub open spec fn error_message(e: ApplicationError) -> Seq<char> {
    match e {
        ApplicationError::NotFound(entity) => entity@ + " was not found"@,
        ApplicationError::InvalidInput(m) => m@,
        ApplicationError::Validation => "document has validation errors"@,
        ApplicationError::Persistence(m) => m@,
        ApplicationError::Internal(m) => m@,
    }
}

impl ApplicationError {
    /// The error for a missing `entity` (`"recipe"`, `"recipe book"`, ...).
    pub fn not_found(entity: &str) -> (r: ApplicationError)
        ensures
            r == ApplicationError::NotFound(r->NotFound_0),
            r->NotFound_0@ == entity@,
    {
        ApplicationError::NotFound(entity.to_owned())
    }

    /// The error as a sentence.
    pub fn message(&self) -> (r: String)
        ensures
            r@ == error_message(*self),
    {
        match self {
            ApplicationError::NotFound(entity) => {
                let mut s = entity.clone();
                s.append(" was not found");
                s
            },
            ApplicationError::InvalidInput(m) => m.clone(),
            ApplicationError::Validation => "document has validation errors".to_owned(),
            ApplicationError::Persistence(m) => m.clone(),
            ApplicationError::Internal(m) => m.clone(),
        }
    }
}

} // verus!
