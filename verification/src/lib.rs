//! An embedded, transactional key/value core in the log-structured-merge
//! style: an in-memory copy-on-write index (`MemTable`), session-scoped
//! write-ahead logging (`LsmSession`), merged iteration over the mutable
//! table and persisted levels (`MultiCursor`), and a pluggable durable
//! tier behind the `Backend` trait.

use vstd::prelude::*;

pub mod keys;
pub mod vli;
pub mod mem_table;
pub mod wal;
pub mod multi_cursor;
pub mod lsm_session;
pub mod backend;
pub mod db;

verus! {

/// The error kinds this engine reports.
#[derive(Clone, Copy, Debug, PartialEq, Eq, Structural)]
pub enum DbErr {
    /// A transaction was started while one is already active on the session.
    TransactionConflict,
    /// Malformed log or variable-length-integer data was met on decode.
    Corruption,
    /// An underlying file or device failure.
    Io,
    /// The durable store at a path could not be opened.
    BackendOpenFailure,
    /// A mutual-exclusion acquisition failed.
    LockFailure,
}

/// The kind of transaction a session runs.
#[derive(Clone, Copy, Debug, PartialEq, Eq, Structural)]
pub enum TransactionType {
    Read,
    Write,
}

pub type DbResult<T> = Result<T, DbErr>;

} // verus!
