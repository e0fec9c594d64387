//! A persistent, log-structured key/value store.
//!
//! The verified core keeps the store's segments, index and waste counter; the
//! program around it mirrors segment changes to files and serves clients.

pub mod codec;
mod engine;
mod error;
pub mod generation;
pub mod index;
pub mod kvs;
pub mod segment;
mod sled_engine;
pub mod thread_pool;

pub use error::{ErrorKind, Result};
pub use engine::{get_reply, remove_reply, KvsEngine, Message};
pub use kvs::{KvStore, SegmentOp, COMPACTION_THRESHOLD};
pub use segment::Segment;
pub use sled_engine::{removal_outcome, value_from_bytes, SledKvsEngine};
