//! A log-structured key-value store.
//!
//! - `kvs_store`: the engine's state apart from the files: the index from
//!   key to record locator, the obsolete-byte count, the segments and the
//!   write position, with compaction planning.
//! - `model`: the dictionary that a sequence of records builds, and the laws
//!   of replaying, overwriting, removing and compacting.
//! - `segment`: segment file names and their generation numbers.
//! - `writer`: the positioned writer of the active segment.
//! - `net`, `server`: the wire messages and the answer to each request.
//! - `thread_pool`: the worker pool's messages and its supervisor.
//! - `common`, `error`: records, locators, the engine interface and errors.
pub mod common;
pub mod error;
pub mod kvs_store;
pub mod model;
pub mod net;
pub mod segment;
pub mod server;
pub mod thread_pool;
pub mod writer;
