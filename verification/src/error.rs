//! The error kinds that record processing can produce. All of them are
//! non-retryable: the caller decides whether to abort the run or skip the
//! offending record.

use vstd::prelude::*;

verus! {

/// Why a record (or the buffer holding it) could not be turned into an event.
#[derive(Clone, Copy, Debug, PartialEq, Eq, Structural)]
pub enum Error {
    /// JSON parse failure, or a top-level JSON value that is not an object.
    MalformedInput,
    /// A line is neither JSON nor matches the configured regex, or no regex
    /// is configured at all.
    UnmatchedNonJsonLine,
    /// The regex capture count and the configured non-JSON attribute name
    /// count disagree, or a participating capture group did not match.
    AttributeCaptureMismatch,
    /// No configured timeline-name key is present in the record.
    MissingTimelineIdentity,
    /// No configured event-name key is present in the record.
    MissingEventName,
    /// The configured timestamp attribute's value cannot be read as a number.
    NonNumericTimestamp,
}

impl Error {
    /// A short human-readable description of the error kind.
    pub fn as_text(&self) -> &'static str {
        match self {
            Error::MalformedInput => "malformed JSON input",
            Error::UnmatchedNonJsonLine => "non-JSON line did not match the configured regex",
            Error::AttributeCaptureMismatch => {
                "regex capture count does not match the configured non-JSON attribute names"
            },
            Error::MissingTimelineIdentity => "could not determine timeline name and identity",
            Error::MissingEventName => "could not determine event name",
            Error::NonNumericTimestamp => "found a non-numeric value in the timestamp field",
        }
    }
}

} // verus!
