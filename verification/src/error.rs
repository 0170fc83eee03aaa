//! The error kinds the database raises, and their HTTP status codes.

use vstd::prelude::*;

verus! {

/// Every failure a database operation can report. Each variant surfaces at
/// exactly one layer: the database raises it, the HTTP surface maps it to a
/// status code by `status_code`.
#[derive(Debug, Clone, Copy, PartialEq, Eq, Structural)]
pub enum Error {
    /// A collection with the requested name already exists.
    UniqueViolation,
    /// No collection with the requested name exists.
    NotFound,
    /// The vector's length does not match the collection's dimension.
    DimensionMismatch,
    /// No embedding with the requested id exists in the collection.
    IDNotFound,
}

impl Error {
    /// The HTTP status code this error maps to.
    pub fn status_code(&self) -> (code: u16)
        ensures
            code == match self {
                Error::UniqueViolation => 409u16,
                Error::NotFound => 404u16,
                Error::DimensionMismatch => 400u16,
                Error::IDNotFound => 404u16,
            },
    {
        match self {
            Error::UniqueViolation => 409,
            Error::NotFound => 404,
            Error::DimensionMismatch => 400,
            Error::IDNotFound => 404,
        }
    }

    /// A human-readable description of the error.
    pub fn message(&self) -> (msg: String)
        ensures
            self matches Error::UniqueViolation ==> msg@ == "Collection already exists"@,
            self matches Error::NotFound ==> msg@ == "Collection doesn't exist"@,
            self matches Error::DimensionMismatch ==> msg@
                == "The dimension of the vector doesn't match the dimension of the collection"@,
            self matches Error::IDNotFound ==> msg@ == "ID doesn't exist within collection"@,
    {
        match self {
            Error::UniqueViolation => String::from_str("Collection already exists"),
            Error::NotFound => String::from_str("Collection doesn't exist"),
            Error::DimensionMismatch => String::from_str(
                "The dimension of the vector doesn't match the dimension of the collection",
            ),
            Error::IDNotFound => String::from_str("ID doesn't exist within collection"),
        }
    }
}

} // verus!
