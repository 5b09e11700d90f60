//! The errors of the store.

use vstd::prelude::*;

verus! {

/// Why an operation of the store failed.
#[derive(Debug, PartialEq, Eq, Clone, Copy, Structural)]
pub enum StoreError {
    /// A byte-level operation failed: a record could not be turned into bytes.
    Io,
    /// The bytes at hand do not begin with a well-formed record.
    Decode,
    /// The key occurs neither in the index nor in the data log.
    NotFound,
    /// The key is indexed already.
    AlreadyExists,
    /// An index entry points outside the data log.
    Corrupt,
}

impl StoreError {
    /// A short description of the error.
    pub fn message(&self) -> (s: &'static str)
        ensures
            s@ == error_text(*self),
    {
        match self {
            StoreError::Io => "byte operation failed",
            StoreError::Decode => "malformed record",
            StoreError::NotFound => "key not found",
            StoreError::AlreadyExists => "key already exists",
            StoreError::Corrupt => "index entry out of range",
        }
    }
}

/// The text that [`StoreError::message`] gives for each error.
pub open spec fn error_text(e: StoreError) -> Seq<char> {
    match e {
        StoreError::Io => "byte operation failed"@,
        StoreError::Decode => "malformed record"@,
        StoreError::NotFound => "key not found"@,
        StoreError::AlreadyExists => "key already exists"@,
        StoreError::Corrupt => "index entry out of range"@,
    }
}

} // verus!
