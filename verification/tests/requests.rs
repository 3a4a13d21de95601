use bytes::Bytes;
use object_store::Extensions;
use slatedb::cached_object_store::cached_store::{CachedObjectStore, GetRange};
use slatedb::cached_object_store::layout::{
    cached_parts, file_name, make_folder_path, make_head_path, make_part_path,
};
use slatedb::cached_object_store::parts::PartSplitter;
use slatedb::cached_object_store::requests::{
    part_extensions, route_get, slice_part, GetEvent, GetRequest, GetRoute, GetStep, HeadEvent,
    HeadStep, OpenStep, PartEvent, PartStep,
};
use slatedb::object_store_intent::{ReadIntent, RetryReason, WriteIntent};
use slatedb::path::Path;
use std::collections::BTreeMap;
use std::ops::Range;

const ROOT: &str = "/cache";

/// A store behind the cache, the disk under it, and the calls that were made.
struct World {
    store: CachedObjectStore,
    /// Objects by full location.
    objects: BTreeMap<String, Vec<u8>>,
    /// What every location of the store behind the cache is prefixed with.
    prefix: String,
    /// The location that metadata claims, where it lies.
    claimed: Option<String>,
    /// Part files by path.
    files: BTreeMap<String, Vec<u8>>,
    /// Heads by path: location and size.
    heads: BTreeMap<String, u64>,
    /// Intents of the calls to the store behind the cache.
    calls: Vec<Option<ReadIntent>>,
}

struct Answer {
    meta_location: Path,
    size: u64,
    range: Range<u64>,
    bytes: Vec<u8>,
}

impl World {
    fn new(part_size: usize, cache_puts: bool, prefix: &str) -> World {
        World {
            store: CachedObjectStore::new(part_size, cache_puts).unwrap(),
            objects: BTreeMap::new(),
            prefix: prefix.to_string(),
            claimed: None,
            files: BTreeMap::new(),
            heads: BTreeMap::new(),
            calls: vec![],
        }
    }

    fn full(&self, location: &Path) -> String {
        Path::from(&self.prefix).join(location).as_str().to_string()
    }

    /// What the store behind the cache answers.
    fn upstream(
        &mut self,
        location: &Path,
        range: Option<GetRange>,
        extensions: &Extensions,
    ) -> Result<Answer, String> {
        self.calls.push(ReadIntent::from_extensions(extensions));
        let full = self.full(location);
        let data = self.objects.get(&full).ok_or("not found")?;
        let size = data.len() as u64;
        let range = match range {
            None => 0..size,
            Some(GetRange::Bounded(r)) => {
                if r.start >= size {
                    return Err(format!("range start {} too large", r.start));
                }
                if r.start >= r.end {
                    return Err(format!("range {}..{} inconsistent", r.start, r.end));
                }
                r.start..r.end.min(size)
            }
            Some(GetRange::Offset(o)) => {
                if o >= size {
                    return Err(format!("range offset {} too large", o));
                }
                o..size
            }
            Some(GetRange::Suffix(s)) => size.saturating_sub(s)..size,
        };
        let bytes = data[range.start as usize..range.end as usize].to_vec();
        let meta_location = match &self.claimed {
            Some(claimed) => Path::from(claimed),
            None => Path::from_raw(full).unwrap(),
        };
        Ok(Answer {
            meta_location,
            size,
            range,
            bytes,
        })
    }

    fn save_parts(&mut self, key: &Path, splitter: PartSplitter, chunks: Vec<&[u8]>) -> u64 {
        let mut splitter = splitter;
        let part_size = self.store.part_size_bytes();
        let mut out = vec![];
        for chunk in chunks {
            out.extend(splitter.push(chunk));
        }
        out.extend(splitter.flush());
        for (number, bytes) in out {
            let path = make_part_path(ROOT, key, number, part_size);
            self.files.insert(path, bytes.to_vec());
        }
        splitter.total_bytes()
    }

    fn save_result(&mut self, answer: &Answer) -> u64 {
        let head = make_head_path(ROOT, &answer.meta_location);
        self.heads.insert(head, answer.size);
        let splitter = self.store.save_splitter(&answer.range, answer.size);
        let chunks = answer.bytes.chunks(300).collect();
        self.save_parts(&answer.meta_location, splitter, chunks);
        answer.size
    }

    fn read_part(
        &mut self,
        location: &Path,
        id: usize,
        range: Range<usize>,
        extensions: &Extensions,
    ) -> Result<Vec<u8>, String> {
        let mut event = PartEvent::Begin;
        let mut fetched: Option<Answer> = None;
        loop {
            let step = self.store.next_part_step(location, id, event);
            event = match step {
                PartStep::ReadCached { cache_location } => {
                    let path =
                        make_part_path(ROOT, &cache_location, id, self.store.part_size_bytes());
                    match self.files.get(&path) {
                        Some(part) if part.len() >= range.end => {
                            return Ok(part[range].to_vec());
                        }
                        _ => PartEvent::Missed,
                    }
                }
                PartStep::Fetch { range } => {
                    let answer = self.upstream(location, Some(range), extensions)?;
                    let meta_location = answer.meta_location.clone();
                    fetched = Some(answer);
                    PartEvent::Fetched { meta_location }
                }
                PartStep::SaveAndDeliver { cache_location } => {
                    let answer = fetched.take().unwrap();
                    self.heads
                        .insert(make_head_path(ROOT, &cache_location), answer.size);
                    let path =
                        make_part_path(ROOT, &cache_location, id, self.store.part_size_bytes());
                    self.files.insert(path, answer.bytes.clone());
                    return Ok(slice_part(&Bytes::from(answer.bytes), &range).to_vec());
                }
                PartStep::Deliver => {
                    let answer = fetched.take().unwrap();
                    return Ok(slice_part(&Bytes::from(answer.bytes), &range).to_vec());
                }
            };
        }
    }

    fn cached_get(
        &mut self,
        location: &Path,
        range: Option<GetRange>,
        extensions: &Extensions,
    ) -> Result<(Range<u64>, Vec<u8>), String> {
        let request = GetRequest {
            location: location.clone(),
            range,
        };
        let mut event = GetEvent::Begin;
        let mut fetched: Option<Answer> = None;
        loop {
            let step = self.store.next_get_step(&request, event);
            event = match step {
                GetStep::ReadHead { cache_location } => {
                    let found = self.heads.get(&make_head_path(ROOT, &cache_location));
                    GetEvent::HeadRead(found.copied())
                }
                GetStep::Fetch { aligned } => {
                    let answer = self.upstream(location, aligned, extensions)?;
                    let (meta_location, size) = (answer.meta_location.clone(), answer.size);
                    let range = answer.range.clone();
                    fetched = Some(answer);
                    GetEvent::Fetched {
                        meta_location,
                        size,
                        range,
                    }
                }
                GetStep::Save => {
                    let answer = fetched.take().unwrap();
                    let size = self.save_result(&answer);
                    GetEvent::Settled { size }
                }
                GetStep::PassThrough => {
                    let answer = self.upstream(location, request.range, extensions)?;
                    return Ok((answer.range, answer.bytes));
                }
                GetStep::ReadParts { range, parts } => {
                    let mut out = vec![];
                    for (id, range_in_part) in parts {
                        let own = part_extensions(extensions);
                        out.extend(self.read_part(location, id, range_in_part, &own)?);
                    }
                    return Ok((range, out));
                }
                GetStep::Reject(e) => return Err(e.message()),
            };
        }
    }

    fn head(&mut self, location: &Path, extensions: &Extensions) -> Result<u64, String> {
        let mut event = HeadEvent::Begin;
        let mut size = 0;
        loop {
            event = match self.store.next_head_step(location, event) {
                HeadStep::ReadHead { cache_location } => {
                    let found = self.heads.get(&make_head_path(ROOT, &cache_location));
                    size = found.copied().unwrap_or(0);
                    HeadEvent::HeadRead {
                        found: found.is_some(),
                    }
                }
                HeadStep::Fetch => {
                    let answer = self.upstream(location, None, extensions)?;
                    size = answer.size;
                    HeadEvent::Fetched {
                        meta_location: answer.meta_location,
                    }
                }
                HeadStep::Save => {
                    let key = self.store.cache_location_for(location).unwrap();
                    self.heads.insert(make_head_path(ROOT, &key), size);
                    HeadEvent::Settled
                }
                HeadStep::Answer => return Ok(size),
            };
        }
    }

    fn drop_entry(&mut self, key: &Path) {
        let folder = make_folder_path(ROOT, key) + "/";
        self.files.retain(|path, _| !path.starts_with(&folder));
        self.heads.retain(|path, _| !path.starts_with(&folder));
    }

    fn evict_entry(&mut self, location: &Path) {
        if let Some(key) = self.store.cache_location_for(location) {
            self.drop_entry(&key);
        }
    }

    fn get(
        &mut self,
        location: &Path,
        range: Option<GetRange>,
        extensions: &Extensions,
    ) -> Result<Vec<u8>, String> {
        match self.store.open_get(false, extensions, location) {
            OpenStep::Head => unreachable!(),
            OpenStep::Upstream => Ok(self.upstream(location, range, extensions)?.bytes),
            OpenStep::DropEntry { cache_location } => {
                self.drop_entry(&cache_location);
                Ok(self.cached_get(location, range, extensions)?.1)
            }
            OpenStep::Read => Ok(self.cached_get(location, range, extensions)?.1),
        }
    }

    fn put(&mut self, location: &Path, payload: &[u8], extensions: &Extensions) {
        let full = self.full(location);
        self.objects.insert(full, payload.to_vec());
        if !self.store.admits_put(extensions) {
            return;
        }
        if let Some(key) = self.store.cache_location_for(location) {
            let splitter = PartSplitter::new(self.store.part_size_bytes(), 0);
            self.save_parts(&key, splitter, vec![payload]);
        }
    }

    fn parts_at(&self, key: &Path) -> Vec<usize> {
        let folder = make_folder_path(ROOT, key) + "/";
        let names = self
            .files
            .keys()
            .filter(|path| path.starts_with(&folder))
            .map(|path| file_name(path))
            .collect();
        cached_parts(&names)
    }

    fn parts_of(&self, location: &Path) -> Vec<usize> {
        self.parts_at(&self.store.cache_location_for(location).unwrap())
    }
}

fn payload(len: usize, seed: u32) -> Vec<u8> {
    let mut x = seed.wrapping_mul(2654435761).wrapping_add(1);
    (0..len)
        .map(|_| {
            x = x.wrapping_mul(1664525).wrapping_add(1013904223);
            (x >> 24) as u8
        })
        .collect()
}

fn untagged() -> Extensions {
    Extensions::new()
}

fn prime_cache_root(world: &mut World) {
    let path = Path::from("data/warmup_sentinel");
    let full = world.full(&path);
    world.objects.insert(full, payload(256, 99));
    let extensions = ReadIntent::foreground().into_extensions();
    world.get(&path, None, &extensions).unwrap();
}

#[test]
fn test_lazy_resolve_root_from_meta_location() {
    let mut world = World::new(1024, false, "tenant-a");
    let relative_location = Path::from("manifest/0001.manifest");
    let full_location = Path::from("tenant-a/manifest/0001.manifest");
    let data = b"tenant-a-manifest".to_vec();
    world
        .objects
        .insert(full_location.as_str().to_string(), data.clone());

    assert_eq!(world.store.resolved_root(), None);
    let got = world.cached_get(&relative_location, None, &untagged());
    assert_eq!(got.unwrap().1, data);
    assert_eq!(world.store.resolved_root(), Some(Path::from("tenant-a")));

    assert_eq!(world.parts_at(&full_location).len(), 1);
    assert_eq!(world.parts_at(&relative_location).len(), 0);

    world.objects.clear();
    let got = world.cached_get(&relative_location, None, &untagged());
    assert_eq!(got.unwrap().1, data);
}

#[test]
fn test_shared_cache_with_prefix_stores_does_not_collide() {
    let mut a = World::new(1024, false, "db-a");
    let mut b = World::new(1024, false, "db-b");
    let relative = Path::from("manifest/0001.manifest");
    let full_a = Path::from("db-a/manifest/0001.manifest");
    let full_b = Path::from("db-b/manifest/0001.manifest");
    a.objects
        .insert(full_a.as_str().to_string(), b"tenant-a-data".to_vec());
    b.objects
        .insert(full_b.as_str().to_string(), b"tenant-b-data".to_vec());

    assert_eq!(
        a.cached_get(&relative, None, &untagged()).unwrap().1,
        b"tenant-a-data"
    );
    // both stores write to one disk
    b.files = a.files.clone();
    b.heads = a.heads.clone();
    assert_eq!(
        b.cached_get(&relative, None, &untagged()).unwrap().1,
        b"tenant-b-data"
    );
    a.files = b.files.clone();
    a.heads = b.heads.clone();
    assert_eq!(a.store.resolved_root(), Some(Path::from("db-a")));
    assert_eq!(b.store.resolved_root(), Some(Path::from("db-b")));
    assert_eq!(a.parts_at(&relative).len(), 0);
    assert_eq!(a.parts_at(&full_a).len(), 1);
    assert_eq!(a.parts_at(&full_b).len(), 1);

    a.objects.clear();
    b.objects.clear();
    assert_eq!(
        a.cached_get(&relative, None, &untagged()).unwrap().1,
        b"tenant-a-data"
    );
    assert_eq!(
        b.cached_get(&relative, None, &untagged()).unwrap().1,
        b"tenant-b-data"
    );
}

#[test]
fn test_meta_location_mismatch_bypasses_cache() {
    let mut world = World::new(1024, false, "");
    world.claimed = Some("wrong/root".to_string());
    let location = Path::from("data/file.sst");
    world
        .objects
        .insert("data/file.sst".to_string(), b"payload".to_vec());

    assert_eq!(world.store.resolved_root(), None);
    let got = world.cached_get(&location, None, &untagged()).unwrap();
    assert_eq!(got.1, b"payload");
    assert_eq!(world.store.resolved_root(), None);
    assert_eq!(world.parts_at(&location).len(), 0);
}

#[test]
fn test_save_result_not_aligned() {
    let data = payload(1024 * 3 + 32, 1);
    let mut world = World::new(1024, false, "");
    let location = Path::from("/data/testfile1");
    let full = world.full(&location);
    world.objects.insert(full, data.clone());
    let answer = world.upstream(&location, None, &untagged()).unwrap();
    assert_eq!(world.save_result(&answer), 1024 * 3 + 32);

    assert_eq!(
        world.heads.get("/cache/data/testfile1/_head"),
        Some(&(1024 * 3 + 32))
    );
    assert_eq!(world.parts_at(&location), vec![0, 1, 2, 3]);
    let part = |w: &World, n: usize| w.files.get(&make_part_path(ROOT, &location, n, 1024)).cloned();
    assert_eq!(part(&world, 0), Some(data[0..1024].to_vec()));
    assert_eq!(part(&world, 1), Some(data[1024..2048].to_vec()));
    assert_eq!(part(&world, 2), Some(data[2048..3072].to_vec()));
    // the part off the alignment was also cached
    assert_eq!(part(&world, 3), Some(data[3072..3104].to_vec()));

    world.files.remove(&make_part_path(ROOT, &location, 2, 1024));
    assert_eq!(part(&world, 2), None);
    assert_eq!(world.parts_at(&location), vec![0, 1, 3]);
    world.files.remove(&make_part_path(ROOT, &location, 3, 1024));
    assert_eq!(world.parts_at(&location), vec![0, 1]);
}

#[test]
fn test_save_result_aligned() {
    let data = payload(1024 * 3, 2);
    let mut world = World::new(1024, false, "");
    let location = Path::from("/data/testfile1");
    let full = world.full(&location);
    world.objects.insert(full, data.clone());
    let answer = world.upstream(&location, None, &untagged()).unwrap();
    assert_eq!(world.save_result(&answer), 1024 * 3);
    assert_eq!(world.parts_at(&location).len(), 3);
    let part = |w: &World, n: usize| w.files.get(&make_part_path(ROOT, &location, n, 1024)).cloned();
    assert_eq!(part(&world, 0), Some(data[0..1024].to_vec()));
    assert_eq!(part(&world, 1), Some(data[1024..2048].to_vec()));
    assert_eq!(part(&world, 2), Some(data[2048..3072].to_vec()));
    world.files.remove(&make_part_path(ROOT, &location, 2, 1024));
    assert_eq!(world.parts_at(&location).len(), 2);
}

#[test]
fn test_cached_object_store_impl_object_store() {
    let mut world = World::new(1024, false, "");
    let test_path = Path::from("/data/testdata1");
    let full = world.full(&test_path);
    world.objects.insert(full, payload(1024 * 3 + 2, 3));

    let test_ranges = vec![
        Some(GetRange::Offset(260817)),
        None,
        Some(GetRange::Bounded(1000..2048)),
        Some(GetRange::Bounded(1000..260817)),
        Some(GetRange::Suffix(10)),
        Some(GetRange::Suffix(260817)),
        Some(GetRange::Offset(1000)),
        Some(GetRange::Offset(0)),
        Some(GetRange::Offset(1028)),
        Some(GetRange::Offset(260817)),
        Some(GetRange::Offset(1024 * 3 + 2)),
        Some(GetRange::Offset(1024 * 3 + 1)),
        #[allow(clippy::reversed_empty_ranges)]
        Some(GetRange::Bounded(2900..2048)),
        Some(GetRange::Bounded(10..10)),
    ];

    for range in test_ranges.iter() {
        let want = world.upstream(&test_path, range.clone(), &untagged());
        let got = world.cached_get(&test_path, range.clone(), &untagged());
        match (want, got) {
            (Ok(want), Ok((got_range, got_bytes))) => {
                assert_eq!(want.range, got_range);
                assert_eq!(want.bytes, got_bytes);
            }
            (Err(want), Err(got)) => {
                if want.to_lowercase().contains("range") {
                    assert!(got.to_lowercase().contains("range"));
                }
            }
            (want, got) => {
                panic!("expect: {:?}, got: {:?}", want.is_ok(), got);
            }
        }
    }
}

#[test]
fn test_delete() {
    let location1 = Path::from("/data/testfile1");
    let location2 = Path::from("/data/testfile2");
    for cached in [true, false] {
        let mut world = World::new(1024, false, "");
        let data = payload(1024 * 3, 4);
        for location in [&location1, &location2] {
            let full = world.full(location);
            world.objects.insert(full, data.clone());
        }
        if cached {
            world.get(&location1, None, &untagged()).unwrap();
        }
        world.get(&location2, None, &untagged()).unwrap();
        assert_eq!(world.parts_of(&location1).len(), if cached { 3 } else { 0 });
        assert_eq!(world.parts_of(&location2).len(), 3);

        // deleting an object drops its files and no others, and doing so twice is no error
        for _ in 0..2 {
            world.evict_entry(&location1);
            assert_eq!(world.parts_of(&location1).len(), 0);
            assert_eq!(world.parts_of(&location2).len(), 3);
        }
    }
}

#[test]
fn put_with_wal_intent_skips_cache() {
    let mut world = World::new(1024, true, "");
    prime_cache_root(&mut world);
    let path = Path::from("data/wal_skipped.sst");
    let data = payload(2048, 5);
    world.put(&path, &data, &WriteIntent::wal().into_extensions());
    assert_eq!(world.objects.get("data/wal_skipped.sst"), Some(&data));
    assert!(world.parts_of(&path).is_empty(), "expected no parts cached for Wal put");
}

#[test]
fn put_with_manifest_intent_skips_cache() {
    let mut world = World::new(1024, true, "");
    prime_cache_root(&mut world);
    let path = Path::from("manifest/00000000000000000001.manifest");
    let extensions = WriteIntent::transactional_metadata().into_extensions();
    world.put(&path, &payload(2048, 6), &extensions);
    assert!(
        world.parts_of(&path).is_empty(),
        "expected no parts cached for Manifest put"
    );
}

#[test]
fn put_with_flush_intent_caches() {
    let mut world = World::new(1024, true, "");
    prime_cache_root(&mut world);
    let path = Path::from("data/l0_cached.sst");
    let extensions = WriteIntent::flush().into_extensions();
    world.put(&path, &payload(2048, 7), &extensions);
    assert!(
        !world.parts_of(&path).is_empty(),
        "expected Flush put to be cached after write-through"
    );
    assert_eq!(world.parts_of(&path), vec![0, 1]);
}

#[test]
fn read_with_compaction_input_intent_bypasses_cache() {
    let mut world = World::new(1024, true, "");
    prime_cache_root(&mut world);
    let path = Path::from("data/compaction_input.sst");
    let data = payload(2048, 8);
    world
        .objects
        .insert("data/compaction_input.sst".to_string(), data.clone());
    let extensions = ReadIntent::compaction_input().into_extensions();
    for _ in 0..3 {
        assert_eq!(world.get(&path, None, &extensions).unwrap(), data);
    }
    let parts = world.parts_of(&path);
    assert!(
        parts.is_empty(),
        "expected no parts cached for CompactionInput reads, found {parts:?}"
    );
}

#[test]
fn head_miss_preserves_read_intent_to_inner_store() {
    let mut world = World::new(1024, true, "");
    let path = Path::from("data/head_miss.sst");
    world
        .objects
        .insert("data/head_miss.sst".to_string(), payload(2048, 9));
    let extensions = ReadIntent::warmup().into_extensions();
    assert_eq!(route_get(true, &extensions), GetRoute::Head);
    assert_eq!(world.head(&path, &extensions).unwrap(), 2048);
    assert_eq!(world.calls, vec![Some(ReadIntent::warmup())]);
    // the second time the head is served from the cache
    assert_eq!(world.head(&path, &extensions).unwrap(), 2048);
    assert_eq!(world.calls.len(), 1);
}

#[test]
fn part_miss_preserves_read_intent_to_inner_store() {
    let mut world = World::new(1024, true, "");
    let path = Path::from("data/part_miss.sst");
    let data = payload(2048, 10);
    world
        .objects
        .insert("data/part_miss.sst".to_string(), data.clone());
    prime_cache_root(&mut world);
    let key = world.store.cache_location_for(&path).unwrap();
    world.heads.insert(make_head_path(ROOT, &key), 2048);
    world.calls.clear();

    let extensions = ReadIntent::warmup().into_extensions();
    let got = world.get(&path, Some(GetRange::Bounded(0..512)), &extensions);
    assert_eq!(got.unwrap(), data[0..512].to_vec());
    assert_eq!(world.calls, vec![Some(ReadIntent::warmup())]);
    assert_eq!(world.parts_of(&path), vec![0]);
}

#[test]
fn retry_tagged_read_evicts_cached_entry() {
    let mut world = World::new(1024, true, "");
    let path = Path::from("data/decoded_then_corrupted.sst");
    let original = payload(2048, 11);
    world.objects.insert(path.as_str().to_string(), original.clone());

    let warm = ReadIntent::foreground().into_extensions();
    assert_eq!(world.get(&path, None, &warm).unwrap(), original);
    assert!(
        !world.parts_of(&path).is_empty(),
        "expected cache populated after warm read"
    );

    let replacement = payload(2048, 12);
    world.objects.insert(path.as_str().to_string(), replacement.clone());
    // the cache still serves what it holds
    assert_eq!(world.get(&path, None, &warm).unwrap(), original);

    let retry = ReadIntent::foreground()
        .with_retry(RetryReason::CrcMismatch)
        .into_extensions();
    assert_eq!(
        world.get(&path, None, &retry).unwrap(),
        replacement,
        "retry-tagged read should have refetched fresh bytes from upstream"
    );
    // later reads find the new bytes in the cache
    world.calls.clear();
    assert_eq!(world.get(&path, None, &warm).unwrap(), replacement);
    let tail = world.get(&path, Some(GetRange::Suffix(100)), &untagged());
    assert_eq!(tail.unwrap(), replacement[1948..].to_vec());
    assert!(world.calls.is_empty());
}

#[test]
fn a_retried_read_drops_the_entry_before_it_reads() {
    let mut store = CachedObjectStore::new(1024, false).unwrap();
    let path = Path::from("manifest/1");
    let retry = ReadIntent::foreground()
        .with_retry(RetryReason::BlockDecodeError)
        .into_extensions();
    let wal = ReadIntent::wal()
        .with_retry(RetryReason::CrcMismatch)
        .into_extensions();
    // nothing is cached before the root is known
    assert!(matches!(store.open_get(false, &retry, &path), OpenStep::Read));
    assert!(store.resolve_root(&path, &Path::from("tenant/manifest/1")));
    match store.open_get(false, &retry, &path) {
        OpenStep::DropEntry { cache_location } => {
            assert_eq!(cache_location, Path::from("tenant/manifest/1"));
        }
        _ => panic!("expected the entry to be dropped"),
    }
    assert!(matches!(store.open_get(false, &untagged(), &path), OpenStep::Read));
    assert!(matches!(store.open_get(false, &wal, &path), OpenStep::Upstream));
    assert!(matches!(store.open_get(true, &retry, &path), OpenStep::Head));
}

#[test]
fn a_cold_suffix_read_asks_for_whole_parts() {
    let path = Path::from("data/suffix");
    let suffix = Some(GetRange::Suffix(10));
    // an object that ends on a part: the answer is saved with one request
    let mut world = World::new(1024, false, "");
    let data = payload(3072, 15);
    world.objects.insert("data/suffix".to_string(), data.clone());
    let request = GetRequest {
        location: path.clone(),
        range: suffix.clone(),
    };
    let step = world.store.next_get_step(&request, GetEvent::Begin);
    match step {
        GetStep::Fetch { aligned } => assert_eq!(aligned, Some(GetRange::Suffix(1024))),
        _ => panic!("expected a prefetch"),
    }
    let got = world.cached_get(&path, suffix.clone(), &untagged());
    assert_eq!(got, Ok((3062..3072, data[3062..].to_vec())));
    assert_eq!(world.calls.len(), 1);
    assert_eq!(world.parts_of(&path), vec![2]);

    // an object that does not: the answer begins inside a part, and the parts come one by one
    let mut world = World::new(1024, false, "");
    let data = payload(3074, 15);
    world.objects.insert("data/suffix".to_string(), data.clone());
    let got = world.cached_get(&path, suffix.clone(), &untagged());
    assert_eq!(got, Ok((3064..3074, data[3064..].to_vec())));
    assert_eq!(world.calls.len(), 3);
    assert_eq!(world.parts_of(&path), vec![2, 3]);
    world.calls.clear();
    let got = world.cached_get(&path, suffix, &untagged());
    assert_eq!(got, Ok((3064..3074, data[3064..].to_vec())));
    assert!(world.calls.is_empty());

    // a suffix longer than the object is the object
    let mut world = World::new(1024, false, "");
    world.objects.insert("data/suffix".to_string(), data.clone());
    let suffix = Some(GetRange::Suffix(260817));
    let got = world.cached_get(&path, suffix, &untagged());
    assert_eq!(got, Ok((0..3074, data)));
    assert_eq!(world.calls.len(), 1);
    assert_eq!(world.parts_of(&path), vec![0, 1, 2, 3]);
}

#[test]
fn an_answer_is_saved_only_from_the_beginning_of_a_part() {
    let mut store = CachedObjectStore::new(1024, false).unwrap();
    assert!(store.can_save(&(0..3074), 3074));
    assert!(store.can_save(&(1024..2048), 3074));
    assert!(!store.can_save(&(2050..3074), 3074));
    assert!(!store.can_save(&(1024..2047), 3074));
    let request = GetRequest {
        location: Path::from("a"),
        range: Some(GetRange::Suffix(10)),
    };
    for (range, saved) in [(2050..3074, false), (2048..3074, true)] {
        let event = GetEvent::Fetched {
            meta_location: Path::from("a"),
            size: 3074,
            range,
        };
        match store.next_get_step(&request, event) {
            GetStep::Save => assert!(saved),
            GetStep::ReadParts { range, parts } => {
                assert!(!saved);
                assert_eq!(range, 3064..3074);
                assert_eq!(parts, vec![(2, 1016..1024), (3, 0..2)]);
            }
            _ => panic!("expected an answer"),
        }
    }
}

#[test]
fn a_read_is_answered_alike_whatever_is_cached() {
    let path = Path::from("data/some");
    let data = payload(3074, 16);
    let ranges = [
        None,
        Some(GetRange::Bounded(1000..2048)),
        Some(GetRange::Bounded(2000..9000)),
        Some(GetRange::Offset(3073)),
        Some(GetRange::Offset(3074)),
        Some(GetRange::Suffix(1025)),
    ];
    // every set of cached parts
    for cached in 0..16 {
        for range in &ranges {
            let mut world = World::new(1024, false, "");
            prime_cache_root(&mut world);
            world.objects.insert("data/some".to_string(), data.clone());
            world.heads.insert(make_head_path(ROOT, &path), 3074);
            for (i, part) in data.chunks(1024).enumerate() {
                if cached & (1 << i) != 0 {
                    let place = make_part_path(ROOT, &path, i, 1024);
                    world.files.insert(place, part.to_vec());
                }
            }
            let want = world.upstream(&path, range.clone(), &untagged());
            let got = world.cached_get(&path, range.clone(), &untagged());
            match want {
                Ok(want) => assert_eq!(got, Ok((want.range, want.bytes))),
                Err(_) => assert!(got.is_err()),
            }
        }
    }
}

#[test]
fn a_stream_that_breaks_off_leaves_full_parts() {
    let data = payload(2500, 17);
    let mut splitter = PartSplitter::new(1024, 0);
    let mut out = vec![];
    for chunk in data[..2400].chunks(300) {
        out.extend(splitter.push(chunk));
    }
    assert_eq!(out.len(), 2);
    for (i, (number, bytes)) in out.iter().enumerate() {
        assert_eq!(*number, i);
        assert_eq!(bytes.to_vec(), data[i * 1024..(i + 1) * 1024].to_vec());
    }
    assert_eq!(splitter.total_bytes(), 2400);
}

#[test]
fn a_cold_ranged_read_saves_whole_parts() {
    let mut world = World::new(1024, false, "");
    let path = Path::from("data/ranged");
    let data = payload(5000, 13);
    world.objects.insert("data/ranged".to_string(), data.clone());
    let range = Some(GetRange::Bounded(1500..2100));
    let (got, bytes) = world.cached_get(&path, range, &untagged()).unwrap();
    assert_eq!(got, 1500..2100);
    assert_eq!(bytes, data[1500..2100].to_vec());
    // parts 1 and 2 came in with one request
    assert_eq!(world.parts_of(&path), vec![1, 2]);
    assert_eq!(world.calls.len(), 1);
    let second = world.files.get("/cache/data/ranged/_part1kb-000000002");
    assert_eq!(second, Some(&data[2048..3072].to_vec()));
    // a later read of the whole object fetches what is missing
    assert_eq!(world.cached_get(&path, None, &untagged()).unwrap().1, data);
    assert_eq!(world.parts_of(&path), vec![0, 1, 2, 3, 4]);
}

#[test]
fn a_splitter_cuts_a_stream_however_it_is_chunked() {
    let data = payload(2500, 14);
    for step in [1, 300, 1024, 2500] {
        let mut splitter = PartSplitter::new(1024, 7);
        let mut out = vec![];
        for chunk in data.chunks(step) {
            out.extend(splitter.push(chunk));
        }
        assert_eq!(splitter.held_bytes(), 2500 - 2048);
        assert_eq!(splitter.next_part_number(), 9);
        out.extend(splitter.flush());
        let numbers: Vec<usize> = out.iter().map(|(n, _)| *n).collect();
        assert_eq!(numbers, vec![7, 8, 9]);
        let joined: Vec<u8> = out.iter().flat_map(|(_, b)| b.to_vec()).collect();
        assert_eq!(joined, data);
        assert_eq!(splitter.total_bytes(), 2500);
        assert!(splitter.flush().is_none());
    }
}
