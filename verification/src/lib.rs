//! A log-structured merge-tree storage engine for content-addressed chunk
//! stores.  An in-memory AVL-balanced index maps keys to payload values;
//! every `bias` inserts the resident payloads spill to a sorted string table
//! (SSTable) and the nodes keep only a routing pointer to that table.  Reads
//! consult the in-memory index first and fall back to the SSTable named by
//! the routing pointer.

pub mod chunkers;
pub mod codec;
pub mod db;
pub mod iterator;
pub mod keys;
pub mod node;
pub mod lsmtree;
pub mod sstable;
