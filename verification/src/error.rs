//! The failures that store operations report.
use vstd::prelude::*;

verus! {

/// Why a store operation failed.
#[derive(Debug, Clone, Copy, PartialEq, Eq, Structural)]
pub enum Error {
    /// The named bucket does not exist.
    BucketNotFound,
    /// The bucket exists but holds nothing under the key.
    KeyNotFound,
    /// The entry under the key is not of the kind the operation works on.
    TypeMismatch,
    /// The length of the value does not fit in 64 bits.
    SizeOverflow,
    /// The stream that carried a value could not be read to its end. The
    /// store itself works on bytes in memory and never fails this way; the
    /// variant is for callers that read the value from a stream first.
    IoFailure,
}

impl Error {
    /// A short human-readable description of the failure.
    pub fn message(&self) -> (s: &'static str)
        ensures
            s@ == match *self {
                Error::BucketNotFound => "bucket not found"@,
                Error::KeyNotFound => "key not found"@,
                Error::TypeMismatch => "invalid entry type"@,
                Error::SizeOverflow => "size does not fit in `u64`"@,
                Error::IoFailure => "failed to read value"@,
            },
    {
        match self {
            Error::BucketNotFound => "bucket not found",
            Error::KeyNotFound => "key not found",
            Error::TypeMismatch => "invalid entry type",
            Error::SizeOverflow => "size does not fit in `u64`",
            Error::IoFailure => "failed to read value",
        }
    }
}

} // verus!
