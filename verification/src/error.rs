//! Error taxonomy of the storage core and its fixed HTTP status mapping.

use vstd::prelude::*;

verus! {

/// The tagged errors every operation of the core can surface.
///
/// `Database` wraps persistence failures for diagnostics; to clients it
/// is surfaced with the same status as `Internal`.
#[derive(Clone, Copy, Debug, PartialEq, Eq, Structural)]
pub enum StorageError {
    /// Missing, invalid or expired token, or a bad secret.
    Unauthorized,
    /// Authenticated but with insufficient privilege.
    Forbidden,
    /// Unknown key or id.
    NotFound,
    /// Malformed input, or a create aimed at an existing blob.
    BadRequest,
    /// I/O failure or a post-write metadata failure.
    Internal,
    /// A persistence error.
    Database,
}

impl StorageError {
    /// The status code a router maps this error to.
    pub fn status_code(&self) -> (code: u16)
        ensures
            code == self.spec_status_code(),
    {
        match self {
            StorageError::Unauthorized => 401,
            StorageError::Forbidden => 403,
            StorageError::NotFound => 404,
            StorageError::BadRequest => 400,
            StorageError::Internal => 500,
            StorageError::Database => 500,
        }
    }

    pub open spec fn spec_status_code(&self) -> u16 {
        match self {
            StorageError::Unauthorized => 401,
            StorageError::Forbidden => 403,
            StorageError::NotFound => 404,
            StorageError::BadRequest => 400,
            StorageError::Internal => 500,
            StorageError::Database => 500,
        }
    }
}

} // verus!
