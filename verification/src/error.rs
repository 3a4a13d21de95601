//! Errors of the database core.

use vstd::prelude::*;

verus! {

/// What can go wrong inside the database core.
#[derive(Clone, Copy, Debug, PartialEq, Eq, Structural)]
pub enum SlateDBError {
    /// The part size of the cache is not a positive multiple of a kilobyte.
    InvalidCachePartSize,
    /// The write-ahead log is behind what the memtables were frozen at.
    InvalidDBState,
    /// The clock went backwards.
    InvalidClockTick,
}

/// What users of the library are told.
#[derive(Debug, PartialEq, Eq)]
pub enum Error {
    /// The library was used in a way that cannot work.
    Invalid(String),
    /// Something went wrong inside.
    Internal(SlateDBError),
}

} // verus!
