//! A key-value storage engine core over raw byte strings.
//!
//! Keys and values are arbitrary byte strings. Keys are ordered
//! lexicographically by unsigned byte value, and every engine offers point
//! lookups, overwriting inserts, idempotent deletes and ordered half-open
//! range scans behind one contract, [`StorageEngine`].

pub mod order;
pub mod error;
pub mod entry;
pub mod sorted;
pub mod table;
pub mod scan;
pub mod engine;
pub mod memory;
pub mod layers;
pub mod merge;
pub mod memtable;
pub mod lsm;
pub mod codec;
pub mod wal;
pub mod sstable;
pub mod manifest;
pub mod config;
pub mod mutation;
pub mod laws;

pub use config::{BackingMode, Engine, EngineConfig};
pub use engine::StorageEngine;
pub use entry::{Entry, Key, Sequence, Value};
pub use error::{KvError, Result};
pub use lsm::{CompactionTrigger, LsmEngine, LsmOptions};
pub use memory::MemoryEngine;
pub use scan::Scan;
