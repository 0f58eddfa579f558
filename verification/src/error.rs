//! The library's error type.

use vstd::prelude::*;

verus! {

/// Every way an operation of the library can fail.
///
/// Errors that come from the disk, the database or a text format are carried
/// as their message.
#[derive(Debug)]
pub enum CoreDataError {
    Io(String),
    FishFile(String),
    Sqlite(String),
    Serde(String),
    Crypto(String),
    NoBundle,
    PermissionDenied { caller: String, owner: String },
    InvalidBundleId(String),
    InvalidEntity(String),
    NotFound(String),
    InvalidPath(String),
    FishPerms(String),
    Custom(String),
}

impl CoreDataError {
    /// A `Crypto` error with the given message.
    pub fn crypto(msg: &str) -> (r: CoreDataError)
        ensures
            r matches CoreDataError::Crypto(m) && m@ == msg@,
    {
        CoreDataError::Crypto(msg.to_string())
    }

    /// A `Custom` error with the given message.
    pub fn custom(msg: &str) -> (r: CoreDataError)
        ensures
            r matches CoreDataError::Custom(m) && m@ == msg@,
    {
        CoreDataError::Custom(msg.to_string())
    }
}

} // verus!
