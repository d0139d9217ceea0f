//! Error taxonomy of the persistence layer: framing failures are reported
//! separately from payload decode failures, and serialization has its own
//! (unexpected) failure mode.

use vstd::prelude::*;

verus! {

/// Serialization failed: the underlying encoder could not represent a value.
/// The data model is always representable, so this is an unexpected condition,
/// surfaced to the caller rather than swallowed.
#[derive(Debug, Clone, Copy, PartialEq, Eq)]
pub enum SerializationError {
    EncodeFailed,
}

/// Deserialization failed.
#[derive(Debug, Clone, Copy, PartialEq, Eq)]
pub enum DeserializationError {
    /// The input does not start with the expected magic constant and a
    /// supported version byte: it is not a blob of this format.
    UnrecognizedFormat,
    /// The framing was valid but the payload is truncated, corrupt, or shaped
    /// differently than the schema requires.
    DecodeFailed,
}

impl SerializationError {
    /// A short description, for callers that want to report the failure.
    pub fn describe(&self) -> (r: &'static str)
        ensures
            r@ == "encode error"@,
    {
        "encode error"
    }
}

impl DeserializationError {
    /// A short description, for callers that want to report the failure.
    pub fn describe(&self) -> (r: &'static str)
        ensures
            self is UnrecognizedFormat ==> r@ == "unrecognized format"@,
            self is DecodeFailed ==> r@ == "decode error"@,
    {
        match self {
            DeserializationError::UnrecognizedFormat => "unrecognized format",
            DeserializationError::DecodeFailed => "decode error",
        }
    }
}

} // verus!
