use vstd::prelude::*;

verus! {

/// The error type of the HTTP client (`reqwest::Error`). It is carried through
/// the library unchanged; nothing inside it is read.
#[verifier::external_type_specification]
#[verifier::external_body]
pub struct ExReqwestError(reqwest::Error);

/// Every failure that the pipeline reports.
#[derive(Debug)]
pub enum AppError {
    /// The HTTP request could not be made or answered.
    Http(reqwest::Error),
    /// The shared frame queue could not be locked because another task
    /// panicked while holding it.
    LockPoisoned,
    /// The stream does not hold the bytes that were expected: the server
    /// answered with an error status (outside `200..=299`), or the
    /// connection was cut in the middle of the download.
    UnexpectedEnd,
}

impl From<reqwest::Error> for AppError {
    fn from(e: reqwest::Error) -> (r: Self) {
        AppError::Http(e)
    }
}

impl vstd::std_specs::convert::FromSpecImpl<reqwest::Error> for AppError {
    open spec fn obeys_from_spec() -> bool {
        true
    }

    open spec fn from_spec(v: reqwest::Error) -> Self {
        AppError::Http(v)
    }
}

} // verus!
