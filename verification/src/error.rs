//! The two-kind error taxonomy every storage operation reports through.
//!
//! `NotFound` is reserved for single-row lookups whose row must exist by
//! contract (a session or user fetched by key). Any other storage failure is
//! surfaced as `Other`, carrying the engine's message; it is never swallowed.
//! A collection-returning read that matches no rows is a successful empty
//! result, not a `NotFound`.

use vstd::prelude::*;

verus! {

/// Error kind returned by every storage operation.
#[derive(Debug)]
pub enum DbError {
    /// A required single row does not exist.
    NotFound,
    /// Any other underlying storage failure, kept opaque.
    Other(String),
}

pub type DbResult<T> = Result<T, DbError>;

impl DbError {
    /// True exactly on the absence kind.
    pub fn is_not_found(&self) -> (r: bool)
        ensures
            r == self is NotFound,
    {
        match self {
            DbError::NotFound => true,
            DbError::Other(_) => false,
        }
    }

    /// Normalizes an engine failure: `row_not_found` marks the one condition
    /// that means absence; everything else stays an opaque failure with its
    /// message.
    pub fn classify(row_not_found: bool, message: String) -> (r: DbError)
        ensures
            row_not_found ==> r is NotFound,
            !row_not_found ==> (r is Other && r->Other_0@ == message@),
    {
        if row_not_found {
            DbError::NotFound
        } else {
            DbError::Other(message)
        }
    }
}

} // verus!
