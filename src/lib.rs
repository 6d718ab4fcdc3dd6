//! An ordered key-value store core in the log-structured merge-tree style:
//! the block and table formats, their iterators, and the merge lattice that
//! turns many sorted sources into one sorted, tombstone-free scan.
pub mod block;
pub mod iterators;
pub mod key;
pub mod lsm_iterator;
pub mod lsm_storage;
pub mod mem_table;
pub mod table;
pub mod util;

pub use key::compare_keys;
