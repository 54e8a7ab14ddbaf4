//! A small log-structured key-value engine: a record codec, a write-ahead
//! log, a sorted in-memory table, an index over flushed segments, segment
//! compaction and the command layer of the wire protocol.
//!
//! The library reads and writes no file and no socket. The log and the
//! segments are values (`wal::Wal`, `sstable::SsTableDir`) that hold the
//! bytes of their files; `persist::Files::sync` says what the keeper of the
//! files has to write and remove, and in which order, so that the files hold
//! what the engine holds.
//!
//! Every function states its behaviour in a contract over mathematical
//! models (sequences of bytes, maps from keys to values) and is verified
//! against it.

pub mod cli;
pub mod compaction;
pub mod index;
pub mod keyvalue;
pub mod memtable;
pub mod persist;
pub mod server;
pub mod sorted_map;
pub mod sstable;
pub mod wal;
