//! A persistent key/value store: string keys and values kept in an
//! append-only, segmented log with an in-memory index, compacted once enough
//! of the log has gone stale, and served over a length-prefixed JSON protocol.
pub mod command;
pub mod engine;
pub mod error;
pub mod index;
pub mod json;
pub mod log;
pub mod names;
pub mod protocol;
pub mod server;

pub use command::Command;
pub use engine::{BufReaderWithPos, DiskOp, KvStore};
pub use error::KvError;
pub use names::Engine;
pub use protocol::{Payload, PayloadType, Response, YakvMessage};
pub use server::YakvEngine;
