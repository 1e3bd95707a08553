//! A persistent, embeddable key-value store with an append-only log of
//! segments, an in-memory index, and synchronous compaction, together with
//! the request/response protocol that exposes it over a connection.
//!
//! The storage engine operates on in-memory segment contents; the
//! surrounding application mirrors those contents to files on disk, hands
//! them back on open, and moves protocol values across sockets.
use vstd::prelude::*;

pub mod bufio;
pub mod common;
pub mod engines;
mod errors;
pub mod keydir;
pub mod names;
pub mod record;
pub mod scan;
pub mod server;
pub mod wire;

verus! {

pub use engines::KvEngine;
pub use engines::KvStore;
pub use errors::KvsErr;
pub use server::KvServer;
pub use server::Reply;

} // verus!
