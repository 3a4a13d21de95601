//! Verified core of the SlateDB on-disk object cache.

pub mod buffers;
pub mod cached_object_store;
pub mod db_common;
pub mod error;
pub mod filter_policy;
pub mod object_store_intent;
pub mod object_store_tag;
pub mod path;
pub mod random;
pub mod sorting;
pub mod text;
