use slatedb::cached_object_store::evictor::{
    nth_available, pick_random_available_index, DeleteOutcome, FsCacheEvictor,
    FsCacheEvictorInner, SendOutcome,
};
use slatedb::cached_object_store::layout::sweep;
use slatedb::cached_object_store::storage_fs::FsCacheStorage;
use slatedb::path::Path;
use slatedb::random::DbRand;

/// Nine tenths of the limit.
fn target(limit: usize) -> u64 {
    (limit as f64 * 0.9) as u64
}

fn rng() -> DbRand {
    DbRand::default()
}

/// Every file was deleted.
fn all_deleted(targets: &[(String, usize)]) -> Vec<DeleteOutcome> {
    targets.iter().map(|_| DeleteOutcome::Deleted).collect()
}

#[test]
fn test_evictor() {
    let limit = 1024 * 2;
    let mut evictor = FsCacheEvictorInner::new(limit);
    let mut files = vec!["file0", "file1", "file2"];
    for (time, file) in ["file0", "file1"].iter().enumerate() {
        let targets = evictor.track_entry_accessed(
            file.to_string(),
            1024,
            time as i128,
            true,
            target(limit),
            &mut rng(),
        );
        assert!(targets.is_empty());
    }
    let targets = evictor.track_entry_accessed("file2".to_string(), 1024, 2, true, target(limit), &mut rng());
    files.retain(|f| !targets.iter().any(|(t, _)| t == f));
    let (keys, bytes) = evictor.complete_eviction(&targets, &all_deleted(&targets));
    assert_eq!((keys, bytes), (2, 2048));
    // the newest file stays
    assert_eq!(files, vec!["file2"]);
    assert_eq!(evictor.cache_size_bytes(), 1024);
    assert_eq!(evictor.entry_count(), 1);
}

#[test]
fn test_evictor_track_entry_accessed_backpressure() {
    let mut evictor = FsCacheEvictor::new();
    assert!(!evictor.started());
    evictor.start();
    assert!(evictor.started());
    for _ in 0..100 {
        let (accepted, _) = evictor.record_send(SendOutcome::Sent);
        assert!(accepted);
    }
    let (accepted, warning) = evictor.record_send(SendOutcome::Full { now_ms: 0 });
    assert!(!accepted);
    assert_eq!(warning, Some(1));
    let (accepted, warning) = evictor.record_send(SendOutcome::Closed);
    assert!(!accepted);
    assert_eq!(warning, None);
}

#[test]
fn warnings_about_a_full_queue_are_rare() {
    let mut evictor = FsCacheEvictor::new();
    evictor.start();
    let full = |e: &mut FsCacheEvictor, now_ms: i64| e.record_send(SendOutcome::Full { now_ms }).1;
    assert_eq!(full(&mut evictor, 1_000), Some(1));
    assert_eq!(full(&mut evictor, 1_001), None);
    assert_eq!(full(&mut evictor, 30_999), None);
    assert_eq!(full(&mut evictor, 31_000), Some(3));
    assert_eq!(full(&mut evictor, 31_001), None);
}

#[test]
fn test_evictor_pick() {
    let mut evictor = FsCacheEvictorInner::new(1024 * 2);
    assert!(evictor
        .track_entry_accessed("file0".to_string(), 1024, 0, false, 0, &mut rng())
        .is_empty());
    assert!(evictor
        .track_entry_accessed("file1".to_string(), 1025, 5, false, 0, &mut rng())
        .is_empty());

    let targets = evictor.pick_evict_targets(&mut rng(), 1025);

    assert_eq!(targets.len(), 1);
    let (target_path, size) = &targets[0];
    assert_eq!(target_path, "file0");
    assert_eq!(*size, 1024);
}

#[test]
fn test_evictor_rescan() {
    let mut evictor = FsCacheEvictorInner::new(1024 * 2);
    // scan two times, the cache size should be 2049 unchanged
    for time in 0..2 {
        evictor.track_entry_accessed("file0".to_string(), 1024, time, false, 0, &mut rng());
        evictor.track_entry_accessed("file1".to_string(), 1025, time, false, 0, &mut rng());
        assert_eq!(evictor.cache_size_bytes(), 2049);
    }
    // a known file keeps its size
    evictor.track_entry_accessed("file1".to_string(), 1, 2, false, 0, &mut rng());
    assert_eq!(evictor.cache_size_bytes(), 2049);
}

#[test]
fn a_scan_accounts_for_every_file_that_is_kept() {
    let folder = "/cache/compacted/x.sst";
    let found: Vec<String> = [
        "_head",
        "_part1kb-000000000",
        "_part1kb-000000001.tmp-ab",
        "_head.tmp-cd",
    ]
    .iter()
    .map(|name| format!("{folder}/{name}"))
    .collect();
    let (keep, orphans) = sweep(&found);
    assert_eq!(keep, found[..2].to_vec());
    assert_eq!(orphans, found[2..].to_vec());
    let mut evictor = FsCacheEvictorInner::new(1024 * 1024);
    for time in 0..2 {
        for (path, bytes) in keep.iter().zip([100, 1024]) {
            evictor.track_entry_accessed(path.clone(), bytes, time, false, 0, &mut rng());
        }
        assert_eq!(evictor.cache_size_bytes(), 1124);
        assert_eq!(evictor.entry_count(), 2);
    }
}

#[test]
fn test_pick_random_available_index() {
    let cases: Vec<(usize, Vec<usize>, Option<usize>, Vec<usize>)> = vec![
        // 2 keys, nothing picked, no exclusion
        (2, vec![], None, vec![0, 1]),
        // 2 keys, nothing picked, exclude index 0
        (2, vec![], Some(0), vec![1]),
        // 2 keys, nothing picked, exclude index 1
        (2, vec![], Some(1), vec![0]),
        // 3 keys, index 0 picked, no exclusion
        (3, vec![0], None, vec![1, 2]),
        // 3 keys, index 0 picked, exclude index 1
        (3, vec![0], Some(1), vec![2]),
        // 4 keys, indices 0,1 picked, no exclusion
        (4, vec![0, 1], None, vec![2, 3]),
        // 4 keys, indices 0,1 picked, exclude 2
        (4, vec![0, 1], Some(2), vec![3]),
        // index 0 is both picked and excluded
        (2, vec![0], Some(0), vec![1]),
        // all picked or excluded
        (2, vec![0], Some(1), vec![]),
    ];
    for (len, picked_indices, exclude_idx, expected_possible) in cases {
        let picked: Vec<bool> = (0..len).map(|i| picked_indices.contains(&i)).collect();
        if expected_possible.is_empty() {
            let result = pick_random_available_index(&mut rng(), &picked, exclude_idx);
            assert!(
                result.is_none(),
                "pick_random_available_index should return None, got {:?}",
                result
            );
        } else {
            for _ in 0..100 {
                let result = pick_random_available_index(&mut rng(), &picked, exclude_idx);
                assert!(
                    result.is_some_and(|r| expected_possible.contains(&r)),
                    "pick_random_available_index returned {:?}, expected one of {:?}",
                    result,
                    expected_possible
                );
            }
            for (rank, expected) in expected_possible.iter().enumerate() {
                assert_eq!(nth_available(&picked, exclude_idx, rank), *expected);
            }
        }
    }
}

#[test]
fn every_available_index_comes_up() {
    let picked = vec![false, true, false, false];
    let mut seen = [false; 4];
    let mut rng = rng();
    for _ in 0..500 {
        seen[pick_random_available_index(&mut rng, &picked, None).unwrap()] = true;
    }
    assert_eq!(seen, [true, false, true, true]);
}

#[test]
fn test_should_record_cache_and_eviction_metrics() {
    let limit = 1024 * 2;
    let mut evictor = FsCacheEvictorInner::new(limit);
    evictor.track_entry_accessed("file0".to_string(), 1024, 0, true, target(limit), &mut rng());
    evictor.track_entry_accessed("file1".to_string(), 1024, 1, true, target(limit), &mut rng());
    assert_eq!(evictor.entry_count(), 2);
    assert_eq!(evictor.cache_size_bytes(), 2048);

    let targets = evictor.track_entry_accessed("file2".to_string(), 1024, 2, true, target(limit), &mut rng());
    let (evicted_keys, evicted_bytes) =
        evictor.complete_eviction(&targets, &all_deleted(&targets));
    assert!(
        evicted_keys >= 1,
        "expected evicted_keys >= 1, got {evicted_keys}"
    );
    assert!(
        evicted_bytes >= 1024,
        "expected evicted_bytes >= 1024, got {evicted_bytes}"
    );
    let keys = evictor.entry_count();
    assert!(keys >= 1, "expected cache_keys >= 1, got {keys}");
}

#[test]
fn files_that_could_not_be_deleted_stay_in_the_accounting() {
    let mut evictor = FsCacheEvictorInner::new(10);
    for i in 0..4 {
        evictor.track_entry_accessed(format!("file{i}"), 10, i, false, 0, &mut rng());
    }
    let targets = evictor.pick_evict_targets(&mut rng(), 10);
    assert_eq!(targets.len(), 3);
    // one of the three could not be deleted, and one was gone already
    let outcomes = vec![
        DeleteOutcome::Failed,
        DeleteOutcome::Deleted,
        DeleteOutcome::Missing,
    ];
    assert_eq!(evictor.complete_eviction(&targets, &outcomes), (2, 20));
    assert_eq!(evictor.cache_size_bytes(), 20);
    assert_eq!(evictor.entry_count(), 2);
    assert_eq!(evictor.forget(&targets[0].0), Some(10));
    // a second report of the others frees no more bytes
    assert_eq!(evictor.complete_eviction(&targets, &outcomes).1, 0);
    assert_eq!(evictor.cache_size_bytes(), 10);
}

#[test]
fn a_single_file_is_never_evicted() {
    let mut evictor = FsCacheEvictorInner::new(1);
    let targets = evictor.track_entry_accessed("only".to_string(), 100, 0, true, 0, &mut rng());
    assert!(targets.is_empty());
    assert_eq!(evictor.cache_size_bytes(), 100);
}

#[test]
fn test_remove_drops_parts_head_and_evictor_accounting() {
    let mut storage = FsCacheStorage::new("/cache".to_string(), Some(1024 * 1024), 1000, DbRand::new(1));
    let location = Path::from("compacted/x.sst");
    let mut entries = vec![];
    storage.evictor.as_mut().unwrap().intake.start();
    for part_number in 0..3 {
        let path = storage.part_path(&location, part_number, 1024);
        let evictor = storage.evictor.as_mut().unwrap();
        evictor
            .inner
            .track_entry_accessed(path.clone(), 1024, 0, true, 0, &mut rng());
        // the size that comes with a removed file is only a hint
        entries.push((path, 1));
    }
    let head = storage.head_path(&location);
    let evictor = storage.evictor.as_mut().unwrap();
    evictor
        .inner
        .track_entry_accessed(head.clone(), 77, 0, true, 0, &mut rng());
    entries.push((head, 77));
    assert!(evictor.inner.cache_size_bytes() > 0);

    assert_eq!(storage.forget_removed(&entries), Some((4, 3 * 1024 + 77)));
    let evictor = storage.evictor.as_ref().unwrap();
    assert_eq!(evictor.inner.cache_size_bytes(), 0);
    assert_eq!(evictor.inner.entry_count(), 0);
}

#[test]
fn test_remove_missing_location_is_ok() {
    let mut storage = FsCacheStorage::new("/cache".to_string(), Some(1024), 1000, DbRand::new(1));
    storage.evictor.as_mut().unwrap().intake.start();
    assert_eq!(storage.forget_removed(&vec![]), None);
    let unknown = vec![("/cache/never/seen.sst/_head".to_string(), 5)];
    assert_eq!(storage.forget_removed(&unknown), Some((0, 0)));
    // the first time that the queue is full is told
    let intake = &mut storage.evictor.as_mut().unwrap().intake;
    let full = SendOutcome::Full { now_ms: 0 };
    assert_eq!(intake.record_send(full), (false, Some(1)));
    // without an evictor there is nothing to forget
    let mut unlimited = FsCacheStorage::new("/cache".to_string(), None, 1000, DbRand::new(1));
    assert!(unlimited.evictor.is_none());
    assert_eq!(unlimited.forget_removed(&unknown), None);
    assert_eq!(unlimited.description(), "FsCacheStorage(/cache)");
}

#[test]
fn test_scan_sweeps_orphan_tee_tmp_files() {
    let legit = "/cache/compacted/orphan.sst/_part1kb-000000000".to_string();
    let orphan_part = "/cache/compacted/orphan.sst/_part1kb-000000000.tmp-abcdef".to_string();
    let orphan_head = "/cache/compacted/orphan.sst/_head.tmp-xyz".to_string();
    let found = vec![legit.clone(), orphan_part.clone(), orphan_head.clone()];
    let (keep, orphans) = sweep(&found);
    assert_eq!(keep, vec![legit]);
    assert_eq!(orphans, vec![orphan_part, orphan_head]);
}

#[test]
fn a_seed_decides_which_files_leave() {
    let picks = |seed: u64| {
        let mut evictor = FsCacheEvictorInner::new(100);
        for i in 0..20 {
            let path = format!("file{i}");
            evictor.track_entry_accessed(path, 10, i, false, 0, &mut DbRand::new(0));
        }
        let mut rng = DbRand::new(seed);
        evictor.pick_evict_targets(&mut rng, 50)
    };
    assert_eq!(picks(1), picks(1));
    assert_eq!(picks(u64::MAX), picks(u64::MAX));
    assert!((2..50).any(|seed| picks(seed) != picks(1)));
    assert_eq!(picks(1).len(), 15);
}
