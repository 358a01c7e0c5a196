//! The ways in which an operation on a recording set can fail.
use vstd::prelude::*;

verus! {

/// Why an operation was refused.
#[derive(Debug, Clone, Copy, PartialEq, Eq, Structural)]
pub enum KcdError {
    /// A magic number does not match the container type.
    InvalidFormat,
    /// The marker starts more than once within one window of 8192 bytes.
    AmbiguousMarker,
    /// The marker does not occur at all.
    MarkerNotFound,
    /// A label, or a path to embed, is longer than its field allows.
    NameTooLong,
    /// A label holds a character that one byte of Latin-1 cannot hold.
    NotLatin1,
    /// The path of the record with this index does not fit its 256-byte field.
    PathTooLong { record: usize },
    /// An index holds more records than its 32-bit count can announce.
    TooManyRecords,
    /// A read or write by the host failed.
    IoFailure,
    /// The input ends before a fixed-width field is complete.
    TruncatedInput,
}

impl KcdError {
    /// A short text that names the constraint which was violated.
    pub fn describe(&self) -> (text: &'static str)
        ensures
            text@ == match *self {
                KcdError::InvalidFormat => "magic number mismatch"@,
                KcdError::AmbiguousMarker => "marker found more than once"@,
                KcdError::MarkerNotFound => "marker not found"@,
                KcdError::NameTooLong => "name too long"@,
                KcdError::NotLatin1 => "label is not Latin-1 text"@,
                KcdError::PathTooLong { .. } => "record path exceeds 256 bytes"@,
                KcdError::TooManyRecords => "too many records"@,
                KcdError::IoFailure => "input or output failed"@,
                KcdError::TruncatedInput => "input is truncated"@,
            },
    {
        match self {
            KcdError::InvalidFormat => "magic number mismatch",
            KcdError::AmbiguousMarker => "marker found more than once",
            KcdError::MarkerNotFound => "marker not found",
            KcdError::NameTooLong => "name too long",
            KcdError::NotLatin1 => "label is not Latin-1 text",
            KcdError::PathTooLong { .. } => "record path exceeds 256 bytes",
            KcdError::TooManyRecords => "too many records",
            KcdError::IoFailure => "input or output failed",
            KcdError::TruncatedInput => "input is truncated",
        }
    }
}

} // verus!
