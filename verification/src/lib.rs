//! An embedded key/value store on an append-only log, with an in-memory index
//! that is journalled for crash recovery, and an LSM datastore: a memtable in
//! front of sorted segments, with a manifest, a Bloom filter and compaction.
//!
//! The library holds the content of its files as bytes and never touches a
//! file. Reading those bytes from disk and writing back what the library
//! appended is the caller's task.
//!
//! - [`file`]: the record codec, the log with its scanner, and the manifest.
//! - [`datastore`]: the records, the index, and the store engine with what
//!   holds of it.
//! - [`index`]: the memtable and the sorted table of a segment.
//! - [`db`]: the LSM datastore with its filter and its compaction.

mod clock;
pub mod data;
pub mod datastore;
pub mod db;
pub mod error;
pub mod file;
pub mod file_handler;
pub mod index;
pub mod simple_datastore;
pub mod text;

pub use datastore::{indexable, DBConfig, DBData, DBIndex, DBStore, Operation};
pub use error::StoreError;
