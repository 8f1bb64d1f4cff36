//! The error taxonomy of the similarity core.

use vstd::prelude::*;

verus! {

/// What can go wrong while resolving or assembling similar artists.
///
/// None of these are retried by the core; retry policy belongs to callers.
/// A cache miss is not an error.
#[derive(Clone, Copy, Debug, PartialEq, Eq, Structural)]
pub enum LastfmError {
    /// No API credential is configured and the request needs the network.
    NoApiKey,
    /// A remote payload did not have the expected shape.
    ParseError,
    /// The persistence layer failed.
    DatabaseError,
    /// The transport failed.
    NetworkError,
}

impl LastfmError {
    /// A short description, in place of a `Display` implementation.
    pub fn message(&self) -> (m: &'static str)
        ensures
            m@ == self.spec_message(),
    {
        match self {
            LastfmError::NoApiKey => "No API key",
            LastfmError::ParseError => "Not found",
            LastfmError::DatabaseError => "Database error",
            LastfmError::NetworkError => "Network error",
        }
    }

    /// The description `message` returns for each variant.
    pub open spec fn spec_message(self) -> Seq<char> {
        match self {
            LastfmError::NoApiKey => "No API key"@,
            LastfmError::ParseError => "Not found"@,
            LastfmError::DatabaseError => "Database error"@,
            LastfmError::NetworkError => "Network error"@,
        }
    }
}

} // verus!
