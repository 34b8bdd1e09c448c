//! A read-write-optimised range index over byte-string keys.
//!
//! A [BfTree] keeps its records in leaf pages that inner nodes lead to. Small
//! writes go to mini-pages in a page cache, which are merged into the pages on
//! disk when they grow too large or leave the cache. A tree can be scanned by
//! range, be captured in a snapshot while it is in use, and be brought back
//! from a snapshot and a write-ahead log.
use vstd::prelude::*;

pub mod circular_buffer;
pub mod codec;
pub mod config;
pub mod error;
pub mod fs;
pub mod laws;
pub mod model;
pub mod nodes;
pub mod order;
pub mod range_scan;
pub mod reshape;
pub mod snapshot;
pub mod storage;
pub mod tree;
pub mod utils;
pub mod wal;

pub use crate::config::{Config, StorageBackend, WalConfig};
pub use crate::error::{ConfigError, ScanIterError};
pub use crate::nodes::leaf_node::LeafReadResult;
pub use crate::range_scan::{ScanIter, ScanIterMut, ScanReturnField};
pub use crate::snapshot::steps::{SnapshotResult, SnapshotRun, StepResult};
pub use crate::tree::ops::LeafInsertResult;
pub use crate::tree::BfTree;
pub use crate::wal::log::WriteAheadLog;
pub use crate::wal::reader::{LogHeader, WalReader, WalSegment};

verus! {

} // verus!
