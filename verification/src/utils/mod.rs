//! Building blocks: the append-only mapping table and the node locks.
pub mod inner_lock;
pub mod mapping_table;
