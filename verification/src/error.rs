//! The ways in which an operation of the log can fail.

use vstd::prelude::*;

verus! {

/// The kind of a failure.
#[derive(Clone, Copy, Debug, PartialEq, Eq, Structural)]
pub enum StoreError {
    /// What was asked for is not there: no segment is active, no segment
    /// claims the offset, or the segment ends before the offset is met.
    NotFound,
    /// Stored data cannot be understood: a frame is cut short or does not
    /// decode, a message is too long to be framed, or a file name does not
    /// give a base offset.
    InvalidData,
    /// The layer underneath reported a failure. The library works on bytes
    /// in memory and meets none; this is the kind for a caller that reads
    /// and writes the files.
    Io,
}

impl StoreError {
    /// A short description of the failure.
    pub fn describe(&self) -> (text: &'static str)
        ensures
            text@ == match *self {
                StoreError::NotFound => "not found"@,
                StoreError::InvalidData => "invalid data"@,
                StoreError::Io => "input/output failure"@,
            },
    {
        match self {
            StoreError::NotFound => "not found",
            StoreError::InvalidData => "invalid data",
            StoreError::Io => "input/output failure",
        }
    }
}

} // verus!
