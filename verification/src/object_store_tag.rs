//! The tag that a table store puts on its object store calls.

use crate::object_store_intent::RetryReason;
use vstd::prelude::*;

verus! {

/// Which part of the database a table store serves.
#[derive(Clone, Copy, Debug, PartialEq, Eq, Structural)]
pub enum TableStoreKind {
    Main,
    Compactor,
    Reader,
    GC,
}

/// The kind of SST that a call is about.
#[derive(Clone, Copy, Debug, PartialEq, Eq, Structural)]
pub enum SstType {
    Wal,
    Compacted,
}

/// Who issues a call, for what, and whether it is a retry.
#[derive(Clone, Copy, Debug, PartialEq, Eq, Structural)]
pub struct ObjectStoreCallTag {
    pub kind: TableStoreKind,
    pub sst_type: SstType,
    pub retry: Option<RetryReason>,
}

} // verus!
