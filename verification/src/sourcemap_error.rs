use vstd::prelude::*;

verus! {

/// The kinds of failure that the map operations can report.
#[derive(Clone, Copy, Debug, PartialEq, Eq, Structural)]
pub enum SourceMapErrorType {
    /// A byte that is not part of the base64 alphabet appeared inside a VLQ number.
    VlqInvalid,
    /// A decoded VLQ magnitude, or a running 32-bit counter, left its representable range.
    VlqOverflow,
    /// The input ended while a VLQ group still had its continuation bit set.
    VlqUnexpectedEof,
    /// A running counter or a shifted coordinate would have become negative.
    UnexpectedNegativeNumber,
    /// A source index lay outside the table of sources.
    SourceOutOfRange,
    /// A name index lay outside the table of names.
    NameOutOfRange,
}

/// An error of a map operation: its kind, and an optional human-readable reason.
#[derive(Clone, Debug)]
pub struct SourceMapError {
    pub error_type: SourceMapErrorType,
    pub reason: Option<String>,
}

impl SourceMapError {
    pub fn new(error_type: SourceMapErrorType, reason: Option<String>) -> (r: SourceMapError)
        ensures
            r.error_type == error_type,
            r.reason == reason,
    {
        SourceMapError { error_type, reason }
    }
}

} // verus!
