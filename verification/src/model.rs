//! The data that a store holds.

use vstd::prelude::*;

verus! {

/// What is recorded of a file: seconds since the epoch at which it was last
/// modified, and its size in bytes.
#[derive(Clone, Copy, Debug, PartialEq, Eq, Structural)]
pub struct FileMetadata {
    pub modified: i64,
    pub size: i64,
}

impl FileMetadata {
    /// Neither the time nor the size is negative.
    pub open spec fn valid(self) -> bool {
        0 <= self.modified && 0 <= self.size
    }
}

/// The outcome of comparing one path across two captures.
#[derive(Clone, Copy, Debug, PartialEq, Eq, Structural)]
pub enum Status {
    Same,
    Changed,
    New,
    Deleted,
}

/// One file as one capture saw it.
#[derive(Clone, Copy, Debug, PartialEq, Eq, Structural)]
pub struct SnapshotRow {
    pub path_id: i64,
    pub metadata: FileMetadata,
    pub capture_event: i64,
}

} // verus!
