//! The timestamp a file is ranked by.
//!
//! A timestamp that cannot be had is replaced by a value that the caller
//! supplies, so no file is lost for want of one.

use vstd::prelude::*;
use crate::entry::{FileCandidate, FileTimes, SortBy, TimeReading};

verus! {

/// Why a file has no timestamp of its own.
#[derive(Clone, Copy, Debug, PartialEq, Eq, Structural)]
pub enum TimestampError {
    /// The metadata of the file could not be read.
    NoMetadata,
    /// The metadata does not hold the timestamp that was asked for.
    Unavailable,
    /// The timestamp lies before the Unix epoch.
    BeforeEpoch,
}

/// The timestamp that `sort_by` asks for, in seconds since the Unix epoch,
/// or the reason why there is none.
pub open spec fn reading_of(metadata: Option<FileTimes>, sort_by: SortBy) -> Result<
    u64,
    TimestampError,
> {
    match metadata {
        None => Err(TimestampError::NoMetadata),
        Some(times) => match times.reading(sort_by) {
            TimeReading::Unavailable => Err(TimestampError::Unavailable),
            TimeReading::BeforeEpoch => Err(TimestampError::BeforeEpoch),
            TimeReading::At(seconds) => Ok(seconds),
        },
    }
}

/// The timestamp that `sort_by` asks for, or `default` where there is none.
pub open spec fn timestamp_or(metadata: Option<FileTimes>, sort_by: SortBy, default: u64) -> u64 {
    match reading_of(metadata, sort_by) {
        Ok(seconds) => seconds,
        Err(_) => default,
    }
}

/// The timestamp of `candidate` that `sort_by` asks for, or the reason why
/// there is none.
pub fn metadata_result(candidate: &FileCandidate, sort_by: SortBy) -> (result: Result<
    u64,
    TimestampError,
>)
    ensures
        result == reading_of(candidate.metadata, sort_by),
{
    match candidate.metadata {
        None => Err(TimestampError::NoMetadata),
        Some(times) => {
            let reading: TimeReading = match sort_by {
                SortBy::Modified => times.modified,
                SortBy::Created => times.created,
            };
            match reading {
                TimeReading::Unavailable => Err(TimestampError::Unavailable),
                TimeReading::BeforeEpoch => Err(TimestampError::BeforeEpoch),
                TimeReading::At(seconds) => Ok(seconds),
            }
        },
    }
}

/// When `candidate` was last modified, or `default` where that is not known.
pub fn mtime(candidate: &FileCandidate, default: u64) -> (seconds: u64)
    ensures
        seconds == timestamp_or(candidate.metadata, SortBy::Modified, default),
{
    match metadata_result(candidate, SortBy::Modified) {
        Ok(seconds) => seconds,
        Err(_) => default,
    }
}

/// When `candidate` was created, or `default` where that is not known.
pub fn ctime(candidate: &FileCandidate, default: u64) -> (seconds: u64)
    ensures
        seconds == timestamp_or(candidate.metadata, SortBy::Created, default),
{
    match metadata_result(candidate, SortBy::Created) {
        Ok(seconds) => seconds,
        Err(_) => default,
    }
}

/// The timestamp that `candidate` is ranked by.
pub fn timestamp(candidate: &FileCandidate, sort_by: SortBy, default: u64) -> (seconds: u64)
    ensures
        seconds == timestamp_or(candidate.metadata, sort_by, default),
{
    match sort_by {
        SortBy::Modified => mtime(candidate, default),
        SortBy::Created => ctime(candidate, default),
    }
}

} // verus!
