use vstd::prelude::*;

verus! {

/// The closed set of failure reasons a repository operation can report.
///
/// The taxonomy is flat: nothing is nested or chained except
/// `BackendError`, which carries an opaque cause for diagnostics. The
/// boundary layer maps each variant to exactly one response status.
#[derive(Debug, PartialEq, Eq)]
pub enum Error {
    /// A malformed identifier (an empty raw string) was rejected.
    InvalidInput,
    /// The caller supplied no range parameters at all.
    MissingParameters,
    /// A range bound was non-numeric or too large, or the bounds were
    /// not strictly increasing.
    InvalidRange,
    /// No record with the requested identifier exists, or the requested
    /// window does not fit the current record count.
    NotFound,
    /// The durable backend refused an operation; carries an opaque cause.
    BackendError(String),
}

impl Error {
    /// The response status the boundary layer must use for this failure.
    pub open spec fn spec_status(&self) -> u16 {
        match self {
            Error::InvalidInput => 400,
            Error::MissingParameters => 400,
            Error::InvalidRange => 400,
            Error::NotFound => 404,
            Error::BackendError(_) => 500,
        }
    }

    /// The human-readable body text the boundary layer reports for this
    /// failure.
    pub open spec fn spec_message(&self) -> Seq<char> {
        match self {
            Error::InvalidInput => "No id provided"@,
            Error::MissingParameters => "Missing required parameters"@,
            Error::InvalidRange => "Invalid range"@,
            Error::NotFound => "Question not found"@,
            Error::BackendError(_) => "Backend error"@,
        }
    }

    pub fn status_code(&self) -> (code: u16)
        ensures
            code == self.spec_status(),
    {
        match self {
            Error::InvalidInput => 400,
            Error::MissingParameters => 400,
            Error::InvalidRange => 400,
            Error::NotFound => 404,
            Error::BackendError(_) => 500,
        }
    }

    pub fn message(&self) -> (text: &'static str)
        ensures
            text@ == self.spec_message(),
    {
        match self {
            Error::InvalidInput => "No id provided",
            Error::MissingParameters => "Missing required parameters",
            Error::InvalidRange => "Invalid range",
            Error::NotFound => "Question not found",
            Error::BackendError(_) => "Backend error",
        }
    }
}

impl Clone for Error {
    fn clone(&self) -> (other: Self)
        ensures
            other == *self,
    {
        match self {
            Error::InvalidInput => Error::InvalidInput,
            Error::MissingParameters => Error::MissingParameters,
            Error::InvalidRange => Error::InvalidRange,
            Error::NotFound => Error::NotFound,
            Error::BackendError(cause) => Error::BackendError(cause.clone()),
        }
    }
}

} // verus!
