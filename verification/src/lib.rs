//! A log-structured key/value engine.
//!
//! Keys and values are byte strings. Every write or deletion is appended as a
//! checksummed record to the active segment; an in-memory index maps each live
//! key to the place of its latest record. Segments are held as byte strings,
//! so that every operation is a function of values that the caller can store
//! wherever it likes.

pub mod accounting;
pub mod clock;
pub mod crc;
pub mod error;
pub mod fs;
pub mod index;
pub mod kv;
pub mod laws;
pub mod model;
pub mod order;
pub mod plan;
pub mod replay;
pub mod segments;
pub mod slack;
pub mod util;
pub mod wire;
pub mod xchg;

pub use error::{KvsError, Result};
pub use kv::KvStore;
