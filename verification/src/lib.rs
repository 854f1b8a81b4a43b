//! A minimal in-memory key-value store speaking a Redis-like wire protocol.
//!
//! The crate holds the three verified subsystems of such a server: the
//! protocol value model and its byte-stream codec, the storage engine with
//! optional per-key time-to-live, and the command dispatcher that interprets
//! a decoded request and drives the storage engine.  Socket handling is left
//! to the embedding program, which feeds raw bytes in and writes reply bytes
//! out.

pub mod codec;
pub mod dispatch;
pub mod storage;
pub mod resp;
