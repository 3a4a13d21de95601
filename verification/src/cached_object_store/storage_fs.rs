//! The state of the cache storage on the file system.

use crate::cached_object_store::evictor;
use crate::cached_object_store::evictor::{FsCacheEvictor, FsCacheEvictorInner};
use crate::cached_object_store::file_handles::FileHandleCache;
use crate::cached_object_store::layout;
use crate::cached_object_store::parts::PartID;
use crate::path::Path;
use crate::random::DbRand;
use vstd::prelude::*;
use vstd::string::*;

verus! {

/// The length of the random suffix of a temporary file.
pub const ATOMIC_SUFFIX_LEN: usize = 24;

/// The evictor of a storage: the intake before its queue, and its accounting.
pub struct CacheEvictor {
    pub intake: FsCacheEvictor,
    pub inner: FsCacheEvictorInner,
}

/// Where the files of the cache lie, which of them are kept open, the source of random choices,
/// and, where the cache has a limit, the evictor.
pub struct FsCacheStorage {
    pub root_folder: String,
    pub evictor: Option<CacheEvictor>,
    pub file_handle_cache: FileHandleCache,
    pub rand: DbRand,
}

impl FsCacheStorage {
    /// The accounting of the evictor holds together.
    pub open spec fn wf(self) -> bool {
        self.evictor matches Some(e) ==> e.inner.wf()
    }

    /// A storage that knows of no files yet. There is an evictor only if there is a limit.
    pub fn new(
        root_folder: String,
        max_cache_size_bytes: Option<usize>,
        max_open_file_handles: usize,
        rand: DbRand,
    ) -> (r: FsCacheStorage)
        ensures
            r.wf(),
            r.root_folder@ == root_folder@,
            r.rand == rand,
            r.file_handle_cache.kept() == Map::<Seq<char>, u64>::empty(),
            r.evictor is Some <==> max_cache_size_bytes is Some,
            r.evictor matches Some(e) ==> e.inner.limit() == max_cache_size_bytes->0
                && e.inner.contents() == evictor::CacheContents::empty() && e.inner.total() == 0
                && !e.intake.has_started() && e.intake.full_count() == 0
                && e.intake.last_warning_ms() == i64::MIN,
    {
        let file_handle_cache = FileHandleCache::new(max_open_file_handles);
        let evictor = match max_cache_size_bytes {
            None => None,
            Some(limit) => Some(
                CacheEvictor {
                    intake: FsCacheEvictor::new(),
                    inner: FsCacheEvictorInner::new(limit),
                },
            ),
        };
        FsCacheStorage { root_folder, evictor, file_handle_cache, rand }
    }

    /// Where a part lies.
    pub fn part_path(&self, location: &Path, part_number: PartID, part_size: usize) -> (r: String)
        ensures
            r@ == layout::part_path(
                self.root_folder@,
                location@,
                part_number as int,
                part_size as int,
            ),
    {
        layout::make_part_path(self.root_folder.as_str(), location, part_number, part_size)
    }

    /// Where the head of an object lies.
    pub fn head_path(&self, location: &Path) -> (r: String)
        ensures
            r@ == layout::head_path(self.root_folder@, location@),
    {
        layout::make_head_path(self.root_folder.as_str(), location)
    }

    /// The folder of an object.
    pub fn folder(&self, location: &Path) -> (r: String)
        ensures
            r@ == layout::folder_of(self.root_folder@, location@),
    {
        layout::make_folder_path(self.root_folder.as_str(), location)
    }

    /// Takes files that were removed from disk out of the accounting. Returns how many of
    /// them were known and how many bytes they had, or nothing if there is no evictor that
    /// has started, or no file.
    pub fn forget_removed(&mut self, entries: &Vec<(String, u64)>) -> (r: Option<(u64, u64)>)
        requires
            old(self).wf(),
        ensures
            final(self).wf(),
            final(self).root_folder@ == old(self).root_folder@,
            final(self).rand == old(self).rand,
            final(self).file_handle_cache.kept() == old(self).file_handle_cache.kept(),
            final(self).evictor is Some <==> old(self).evictor is Some,
            r is Some <==> entries@.len() > 0 && old(self).evictor is Some && old(
                self,
            ).evictor->0.intake.has_started(),
            old(self).evictor matches Some(e) ==> {
                let now = final(self).evictor->0;
                &&& now.intake == e.intake
                &&& now.inner.limit() == e.inner.limit()
                &&& now.inner.contents() == if r is Some {
                    e.inner.contents().remove_keys(evictor::entry_names(entries@))
                } else {
                    e.inner.contents()
                }
                &&& r is None ==> now.inner.total() == e.inner.total() && now.inner.names()
                    == e.inner.names()
                &&& r matches Some(gone) ==> gone.0 == e.inner.names().len()
                    - now.inner.names().len() && gone.1 == e.inner.total() - now.inner.total()
            },
    {
        let mut evictor = None;
        std::mem::swap(&mut evictor, &mut self.evictor);
        match evictor {
            None => None,
            Some(e) => {
                let mut e = e;
                let mut gone = None;
                if e.intake.should_forget(entries.len()) {
                    gone = Some(e.inner.forget_entries(entries));
                }
                self.evictor = Some(e);
                gone
            },
        }
    }

    /// The name of the storage, for people.
    pub fn description(&self) -> (r: String)
        ensures
            r@ == "FsCacheStorage("@ + self.root_folder@ + ")"@,
    {
        let mut r = String::from_str("FsCacheStorage(");
        r.append(self.root_folder.as_str());
        r.append(")");
        r
    }
}

} // verus!
