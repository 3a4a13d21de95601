//! A cache of object store reads and writes on local disk.

pub mod builder;
pub mod cached_store;
pub mod evictor;
pub mod file_handles;
pub mod layout;
pub mod options;
pub mod pacing;
pub mod parts;
pub mod policy;
pub mod requests;
pub mod storage_fs;
pub mod storage_uring;
pub mod tee;
pub mod uring_worker;
