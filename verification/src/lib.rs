//! A log-structured key-value store and the line-oriented codec that
//! accompanies it.
//!
//! The store keeps its durable state as an append-only command log; an
//! in-memory index maps each live key to the byte range of its most
//! recent `Set` record.  The log is modelled here as the byte string the
//! log file holds: an embedder reads the file, hands the bytes to
//! [`KvStore::open`], and persists the bytes the store exposes.
//!
//! The codec is a separate building block: a parser and serializer for
//! a textual line protocol of prefixed frames, with a ping/echo pair as
//! its demonstration.

pub mod codec;
pub mod de;
pub mod error;
pub mod index;
pub mod kv;
pub mod num;
pub mod ping;
pub mod replay;
pub mod resp;
pub mod ser;

pub use codec::Command;
pub use codec::CommandPos;
pub use de::Deserializer;
pub use error::KvsError;
pub use kv::KvStore;
pub use kv::COMPACTION_THRESHOLD;
pub use ping::Ping;
pub use ping::PingResponse;
pub use resp::Error;
pub use resp::RedisValue;
pub use ser::Serializer;
