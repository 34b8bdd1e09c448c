//! What holds of the operations for all that call them, in terms of what goes in and
//! what comes out: keys, values and buffers as strings of bytes, trees as maps from keys
//! to values, and the numbers of the configuration.
pub mod logs;
pub mod operations;
pub mod pages;
pub mod scans;
pub mod snapshots;
