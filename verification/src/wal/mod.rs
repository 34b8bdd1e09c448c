//! The write-ahead log: operations are written to a log file before they are
//! done, so that they can be done again.
pub mod log;
pub mod operations;
pub mod reader;
pub mod replay;
