//! The errors of the library.
use vstd::prelude::*;

verus! {

/// Why an attempt on the tree has to be repeated.
#[derive(Debug, Clone, Copy, PartialEq, Eq, Structural)]
pub enum TreeError {
    /// The node is locked or has changed.
    Locked,
    /// The page cache has no room for another page.
    CircularBufferFull,
    /// The structure of the tree changed on the way.
    NeedRestart,
}

/// Why a tree cannot be created or recovered.
#[derive(Debug, Clone, Copy, PartialEq, Eq, Structural)]
pub enum ConfigError {
    /// The least record size is above the greatest record size.
    MinimumRecordSize,
    /// Two records of the greatest size do not fit a leaf page.
    MaximumRecordSize,
    /// A leaf page is too small or too large.
    LeafPageSize,
    /// An inner node cannot hold enough keys of the greatest length.
    MaxKeyLen,
    /// The page cache is too small.
    CircularBufferSize,
    /// The snapshot file does not exist or does not hold a snapshot.
    SnapshotFileInvalid,
    /// The page table may have no room for all that a log adds.
    PageTableFull,
}

impl ConfigError {
    pub open spec fn words(self) -> Seq<char> {
        match self {
            ConfigError::MinimumRecordSize => "minimum record size is above the maximum"@,
            ConfigError::MaximumRecordSize => "two records of the maximum size do not fit a leaf page"@,
            ConfigError::LeafPageSize => "leaf page size out of range"@,
            ConfigError::MaxKeyLen => "keys are too long for an inner node"@,
            ConfigError::CircularBufferSize => "buffer size set too small. Consider increasing it or not specifying at all"@,
            ConfigError::SnapshotFileInvalid => "not a snapshot file"@,
            ConfigError::PageTableFull => "the page table has no room for what the log adds"@,
        }
    }

    /// The error in words.
    pub fn message(&self) -> (r: &'static str)
        ensures
            r@ == self.words(),
    {
        match self {
            ConfigError::MinimumRecordSize => "minimum record size is above the maximum",
            ConfigError::MaximumRecordSize => "two records of the maximum size do not fit a leaf page",
            ConfigError::LeafPageSize => "leaf page size out of range",
            ConfigError::MaxKeyLen => "keys are too long for an inner node",
            ConfigError::CircularBufferSize => "buffer size set too small. Consider increasing it or not specifying at all",
            ConfigError::SnapshotFileInvalid => "not a snapshot file",
            ConfigError::PageTableFull => "the page table has no room for what the log adds",
        }
    }
}

/// Why a scan cannot start.
#[derive(Debug, Clone, Copy, PartialEq, Eq, Structural)]
pub enum ScanIterError {
    InvalidStartKey,
    InvalidEndKey,
    InvalidKeyRange,
    InvalidCount,
    /// Scans that may write are not offered by a tree without a disk.
    CacheOnlyMode,
}

} // verus!
