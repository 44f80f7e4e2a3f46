//! The kinds of failure that the log reports.

use vstd::prelude::*;

verus! {

/// Why an operation on the log was refused.
#[derive(Clone, Copy, PartialEq, Eq, Debug, Structural)]
pub enum LogError {
    /// No stream, topic, partition or segment has the id or name.
    NotFound,
    /// The id or name is taken.
    AlreadyExists,
    /// The offset lies in no segment.
    InvalidOffset,
    /// The timestamp falls behind that of an earlier message.
    InvalidTimestamp,
    /// The segment is sealed and takes no more messages.
    SegmentClosed,
    /// The index files disagree with the log.
    CorruptedIndex,
    /// A configuration value is out of range.
    ConfigError,
    /// A request's length prefix disagrees with the bytes that follow it.
    InvalidRequest,
    /// The messages do not fit in a segment.
    TooLarge,
}

impl LogError {
    /// A short name for the kind, for logs.
    pub fn name(&self) -> (name: &'static str)
        ensures
            name@ == self.spec_name()@,
    {
        match self {
            LogError::NotFound => "not found",
            LogError::AlreadyExists => "already exists",
            LogError::InvalidOffset => "invalid offset",
            LogError::InvalidTimestamp => "invalid timestamp",
            LogError::SegmentClosed => "segment closed",
            LogError::CorruptedIndex => "corrupted index",
            LogError::ConfigError => "invalid configuration",
            LogError::InvalidRequest => "invalid request",
            LogError::TooLarge => "too large",
        }
    }

    /// The name that `name` returns.
    pub open spec fn spec_name(&self) -> &'static str {
        match self {
            LogError::NotFound => "not found",
            LogError::AlreadyExists => "already exists",
            LogError::InvalidOffset => "invalid offset",
            LogError::InvalidTimestamp => "invalid timestamp",
            LogError::SegmentClosed => "segment closed",
            LogError::CorruptedIndex => "corrupted index",
            LogError::ConfigError => "invalid configuration",
            LogError::InvalidRequest => "invalid request",
            LogError::TooLarge => "too large",
        }
    }
}

} // verus!
