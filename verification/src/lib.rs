//! A line deduplicator: byte search, boundary-aware chunking, a hash-trie set
//! of record fingerprints, and the engines that emit each distinct record once.

pub mod fastchr;
pub mod lumpy_chunks;
pub mod allocators;
pub mod gumshoe;
pub mod config;
pub mod error;
pub mod args;
pub mod records;
pub mod unsorted;
pub mod poirot;
pub mod output;
pub mod buffer;
pub mod stream;
