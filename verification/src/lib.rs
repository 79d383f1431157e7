//! A transactional in-memory filesystem with a write-ahead log.
//!
//! The crate has three tightly coupled layers:
//! * a WAL engine (`wal`, `image`, `backend`): a monotonic, checksummed,
//!   append-only log of transactional operations with commit and rollback
//!   markers, truncation, and replay-based recovery;
//! * a filesystem layer (`fs`): an inode and directory tree whose mutations
//!   are always recorded in the WAL;
//! * a request server core (`protocol`, `handler`): a length-prefixed binary
//!   request/response codec and the per-session dispatch that drives the
//!   filesystem.

pub mod backend;
pub mod bytes;
pub mod consistency;
pub mod crc;
pub mod errors;
pub mod fs;
pub mod handler;
pub mod history;
pub mod image;
pub mod oplog;
pub mod protocol;
pub mod romulus;
pub mod selftest;
pub mod wal;
