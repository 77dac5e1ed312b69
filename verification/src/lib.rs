//! A persistent key-value store built on a log-structured storage engine.
//!
//! The engine keeps every mutation as a record in an append-only segment,
//! numbered by generation.  An in-memory index maps each live key to the
//! location of its latest `Set` record.  Opening a directory replays the
//! segments in generation order; compaction rewrites the live records into a
//! fresh segment and drops the superseded ones.

mod codec;
mod error;
mod kvs;

pub use error::KvError;
pub use kvs::COMPACTION_THRESHOLD;
pub use kvs::KvStore;
pub use kvs::Segment;
pub use kvs::lemma_durability;
pub use kvs::lemma_generations;
pub use kvs::lemma_read_your_writes;
pub use kvs::lemma_tombstone;
pub use kvs::log_path;
pub use kvs::parse_log_name;
