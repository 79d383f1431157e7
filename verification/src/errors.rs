//! Error kinds surfaced by the WAL engine, the filesystem layer and the
//! legacy versioned-container experiments.

use vstd::prelude::*;

verus! {

/// Errors returned by the WAL engine and the filesystem layer.
///
/// On the wire each kind is transmitted as a negative `status` value; see
/// `handler::error_status`.
#[derive(Debug, Clone, Copy, PartialEq, Eq, Structural)]
pub enum DbfsError {
    /// A path component is missing.
    NoEntry,
    /// The name is already present, or is a reserved name.
    Exists,
    /// A directory operation was attempted on a non-directory.
    NotDir,
    /// A file operation was attempted on a directory.
    IsDir,
    /// A mutating operation was attempted without an active transaction,
    /// or a commit named a transaction other than the active one.
    NoTx,
    /// A backend failure, or a record whose checksum does not match.
    Io,
    /// The log header's magic or version does not match.
    Corrupt,
    /// A malformed argument, such as a record too short to carry its frame.
    InvalidArgument,
    /// An operation that is deliberately not implemented.
    Unsupported,
}

/// Error type of the versioned-container experiments that sat beside the
/// write-ahead logging code.
#[derive(Debug)]
pub enum VfsError {
    IoError(String),
    DbError(String),
}

} // verus!
