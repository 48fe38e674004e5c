//! A small page-oriented storage engine: slotted B+ tree pages with a
//! byte-exact on-disk layout, an LRU page replacer, a write-ahead log record
//! format and the bookkeeping of a buffer pool.

pub mod error;
pub mod storage;
