//! The error kinds of the store and of the service around it.

use vstd::prelude::*;

verus! {

/// What went wrong in a store operation or at the service boundary.
#[derive(Clone, Copy, Debug, PartialEq, Eq, Structural)]
pub enum StoreError {
    /// No row matches.
    NotFound,
    /// The query succeeded and legitimately found nothing (tag selection only).
    Empty,
    /// A quote with the same identifier is already stored.
    DuplicateId,
    /// A tag association could not be written; the whole insert was undone.
    TagInsertFailed,
    /// The storage could not be reached; always safe to retry.
    StoreUnavailable,
    /// A registration secret did not match.
    Unauthorized,
    /// A malformed transfer payload.
    InvalidInput,
}

/// The boundary status that an error maps to.
pub open spec fn status_of(e: StoreError) -> u16 {
    match e {
        StoreError::NotFound | StoreError::Empty => 404,
        StoreError::DuplicateId | StoreError::InvalidInput => 400,
        StoreError::Unauthorized => 401,
        StoreError::TagInsertFailed | StoreError::StoreUnavailable => 500,
    }
}

impl StoreError {
    /// The HTTP status of the boundary: "no result" errors are 404, caller
    /// faults 400, a refused registration 401, server faults 500.
    pub fn status_code(&self) -> (r: u16)
        ensures
            r == status_of(*self),
    {
        match self {
            StoreError::NotFound | StoreError::Empty => 404,
            StoreError::DuplicateId | StoreError::InvalidInput => 400,
            StoreError::Unauthorized => 401,
            StoreError::TagInsertFailed | StoreError::StoreUnavailable => 500,
        }
    }
}

/// Errors of setting the service up.
#[derive(Clone, Debug, PartialEq, Eq)]
pub enum QuoteError {
    /// The quote file could not be opened; the message says why.
    QuotesNotFound(String),
    /// The quote file could not be parsed; the message says why.
    QuoteMisformat(String),
    /// The database URI is not of the form `sqlite://<path>.db`.
    InvalidDbUri(String),
}

} // verus!
