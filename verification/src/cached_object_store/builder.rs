//! Making a caching store from settings.

use crate::cached_object_store::cached_store;
use crate::cached_object_store::cached_store::CachedObjectStore;
use crate::cached_object_store::options::{Interval, ObjectStoreCacheOptions};
use crate::error::{Error, SlateDBError};
use vstd::prelude::*;
use vstd::string::*;

verus! {

/// Builds a [`CachedObjectStore`]. The root folder is required; everything else has a
/// default.
#[derive(Debug)]
pub struct CachedObjectStoreBuilder {
    pub options: ObjectStoreCacheOptions,
}

impl CachedObjectStore {
    /// A builder with the default settings.
    pub fn builder() -> (r: CachedObjectStoreBuilder)
        ensures
            r.options.root_folder is None,
            r.options.max_cache_size_bytes == Some(
                crate::cached_object_store::options::default_max_cache_size() as usize,
            ),
            r.options.part_size_bytes == 4194304,
            !r.options.cache_puts,
            r.options.scan_interval == Some(Interval { secs: 3600, nanos: 0 }),
            r.options.max_open_file_handles == 1000,
    {
        CachedObjectStoreBuilder { options: ObjectStoreCacheOptions::default() }
    }

    /// The store for these settings, or none if no root folder is set, which means that
    /// nothing is to be cached.
    pub fn from_config(options: &ObjectStoreCacheOptions) -> (r: Result<
        Option<CachedObjectStore>,
        SlateDBError,
    >)
        ensures
            (r is Ok && r->Ok_0 is None) <==> options.root_folder is None,
            r is Err <==> options.root_folder is Some && !cached_store::is_valid_part_size(
                options.part_size_bytes as int,
            ),
            r matches Err(e) ==> e == SlateDBError::InvalidCachePartSize,
            r matches Ok(Some(store)) ==> store.part_size() == options.part_size_bytes
                && store.caches_puts() == options.cache_puts && store.root() is None,
    {
        if options.root_folder.is_none() {
            return Ok(None);
        }
        match CachedObjectStore::new(options.part_size_bytes, options.cache_puts) {
            Ok(store) => Ok(Some(store)),
            Err(e) => Err(e),
        }
    }
}

impl CachedObjectStoreBuilder {
    /// The folder in which the files of the cache lie. Required.
    pub fn root_folder(self, path: String) -> (r: CachedObjectStoreBuilder)
        ensures
            r.options == (ObjectStoreCacheOptions { root_folder: Some(path), ..self.options }),
    {
        let mut r = self;
        r.options.root_folder = Some(path);
        r
    }

    /// Whether writes go to the cache.
    pub fn cache_puts(self, enabled: bool) -> (r: CachedObjectStoreBuilder)
        ensures
            r.options == (ObjectStoreCacheOptions { cache_puts: enabled, ..self.options }),
    {
        let mut r = self;
        r.options.cache_puts = enabled;
        r
    }

    /// The size of a part, a multiple of 1 KB.
    pub fn part_size_bytes(self, bytes: usize) -> (r: CachedObjectStoreBuilder)
        ensures
            r.options == (ObjectStoreCacheOptions { part_size_bytes: bytes, ..self.options }),
    {
        let mut r = self;
        r.options.part_size_bytes = bytes;
        r
    }

    /// The limit of the cache in bytes.
    pub fn max_cache_size_bytes(self, bytes: usize) -> (r: CachedObjectStoreBuilder)
        ensures
            r.options == (ObjectStoreCacheOptions {
                max_cache_size_bytes: Some(bytes),
                ..self.options
            }),
    {
        let mut r = self;
        r.options.max_cache_size_bytes = Some(bytes);
        r
    }

    /// How often the folder is scanned. Without an interval it is scanned once, at the start.
    pub fn scan_interval(self, interval: Option<Interval>) -> (r: CachedObjectStoreBuilder)
        ensures
            r.options == (ObjectStoreCacheOptions { scan_interval: interval, ..self.options }),
    {
        let mut r = self;
        r.options.scan_interval = interval;
        r
    }

    /// How many files to keep open.
    pub fn max_open_file_handles(self, n: usize) -> (r: CachedObjectStoreBuilder)
        ensures
            r.options == (ObjectStoreCacheOptions { max_open_file_handles: n, ..self.options }),
    {
        let mut r = self;
        r.options.max_open_file_handles = n;
        r
    }

    /// Replaces all settings. What is set afterwards overrides single ones.
    pub fn options(self, options: ObjectStoreCacheOptions) -> (r: CachedObjectStoreBuilder)
        ensures
            r.options == options,
    {
        CachedObjectStoreBuilder { options }
    }

    /// The store. Fails if no root folder is set, or if the part size is not valid.
    pub fn build(&self) -> (r: Result<CachedObjectStore, Error>)
        ensures
            r is Ok <==> self.options.root_folder is Some && cached_store::is_valid_part_size(
                self.options.part_size_bytes as int,
            ),
            r matches Ok(store) ==> store.part_size() == self.options.part_size_bytes
                && store.caches_puts() == self.options.cache_puts && store.root() is None,
            r matches Err(e) ==> match e {
                Error::Invalid(message) => self.options.root_folder is None && message@
                    == "CachedObjectStore::builder() requires root_folder"@,
                Error::Internal(inner) => self.options.root_folder is Some && inner
                    == SlateDBError::InvalidCachePartSize,
            },
    {
        match CachedObjectStore::from_config(&self.options) {
            Ok(Some(store)) => Ok(store),
            Ok(None) => Err(
                Error::Invalid(
                    String::from_str("CachedObjectStore::builder() requires root_folder"),
                ),
            ),
            Err(e) => Err(Error::Internal(e)),
        }
    }
}

} // verus!
