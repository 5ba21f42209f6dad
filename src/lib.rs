//! An in-memory document archive: a sharded multimap used as a reverse
//! index, a document store, a compact binary wire protocol, and the
//! per-request decision logic of the server.
pub mod bytes;
pub mod database;
pub mod message;
pub mod multimap;
pub mod server;
