//! A log-structured key/value store: the record codec, the in-memory index
//! and the bookkeeping of the log files, with their contracts.
pub mod cache;
pub mod codec;
pub mod error;
pub mod files;
pub mod index;
pub mod laws;
pub mod protocol;
pub mod store;
