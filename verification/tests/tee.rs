use bytes::Bytes;
use slatedb::cached_object_store::layout::{is_orphan, make_head_path, make_part_path};
use slatedb::cached_object_store::storage_uring::IoUringCacheTee;
use slatedb::cached_object_store::tee::{tracking_events, FsCacheTee, ObjectHead, TeeOutcome};
use slatedb::path::Path;
use slatedb::random::DbRand;
use std::collections::BTreeMap;

type Disk = BTreeMap<String, Vec<u8>>;

fn payload() -> Vec<u8> {
    (0..2500u32).map(|i| (i % 251) as u8).collect()
}

#[test]
fn test_tee_commit_populates_parts_and_head() {
    let mut rng = DbRand::default();
    let location = Path::from("compacted/tee.sst");
    let part_size = 1024;
    let data = payload();
    let mut disk = Disk::new();
    let mut tee = FsCacheTee::new("/cache".to_string(), location.clone(), part_size);
    // irregular chunks, across the boundaries of parts
    for chunk in data.chunks(300) {
        for write in tee.extend(&mut rng, chunk) {
            disk.insert(write.tmp_path, write.bytes.to_vec());
        }
    }
    let (mut sealed, tail) = tee.seal(&mut rng);
    let tail = tail.unwrap();
    disk.insert(tail.tmp_path, tail.bytes.to_vec());
    assert_eq!(sealed.total_bytes(), 2500);
    // the size of the head is that of what came in
    let meta = sealed.head(ObjectHead {
        location: location.clone(),
        last_modified: (12, 34),
        size: 1,
        e_tag: Some("tag".to_string()),
        version: None,
    });
    assert_eq!(meta.size, 2500);
    assert_eq!(meta.location, location);
    assert_eq!(meta.last_modified, (12, 34));
    assert_eq!(meta.e_tag, Some("tag".to_string()));
    assert_eq!(meta.version, None);
    let head = sealed.reserve_head(&mut rng, Bytes::from_static(b"head"));
    disk.insert(head.tmp_path, head.bytes.to_vec());
    assert_eq!(disk.len(), 4);
    assert!(disk.keys().all(|path| is_orphan(path)));

    let renames = match sealed.finish(true) {
        TeeOutcome::Rename(renames) => renames,
        TeeOutcome::CleanUp(_) => panic!("expected renames"),
    };
    let places: Vec<String> = renames.iter().map(|(_, place)| place.clone()).collect();
    assert_eq!(
        places,
        vec![
            make_part_path("/cache", &location, 0, part_size),
            make_part_path("/cache", &location, 1, part_size),
            make_part_path("/cache", &location, 2, part_size),
            make_head_path("/cache", &location),
        ]
    );
    for (tmp, place) in renames {
        let bytes = disk.remove(&tmp).unwrap();
        disk.insert(place, bytes);
    }
    let mut got: Vec<u8> = vec![];
    for place in &places[..3] {
        got.extend(disk.get(place).unwrap());
    }
    assert_eq!(got, data);
    assert_eq!(disk.get(&places[3]).unwrap(), b"head");

    let renamed = vec![(places[0].clone(), 1024), (places[3].clone(), 4)];
    assert_eq!(
        tracking_events(&renamed),
        vec![
            (places[0].clone(), 1024, false),
            (places[3].clone(), 4, true),
        ]
    );
}

#[test]
fn test_tee_drop_without_commit_leaves_no_temp_files() {
    let mut rng = DbRand::default();
    let mut disk = Disk::new();
    let location = Path::from("compacted/abort.sst");
    let mut tee = FsCacheTee::new("/cache".to_string(), location, 1024);
    for write in tee.extend(&mut rng, &[0xab; 2048]) {
        disk.insert(write.tmp_path, write.bytes.to_vec());
    }
    assert_eq!(disk.len(), 2);
    for tmp in tee.abandon() {
        disk.remove(&tmp);
    }
    assert!(
        disk.is_empty(),
        "expected no cache files after drop without commit, found {:?}",
        disk.keys()
    );
}

#[test]
fn a_failed_write_poisons_a_tee() {
    let mut rng = DbRand::default();
    let location = Path::from("compacted/bad.sst");
    let mut tee = FsCacheTee::new("/cache".to_string(), location, 1024);
    assert_eq!(tee.extend(&mut rng, &[1; 1500]).len(), 1);
    assert!(!tee.poisoned());
    tee.poison();
    assert!(tee.poisoned());
    // what comes now is dropped
    assert!(tee.extend(&mut rng, &[2; 4096]).is_empty());
    let (mut sealed, tail) = tee.seal(&mut rng);
    assert!(tail.is_none());
    let head = sealed.reserve_head(&mut rng, Bytes::new());
    match sealed.finish(true) {
        TeeOutcome::CleanUp(files) => {
            assert_eq!(files.len(), 2);
            assert_eq!(files[1], head.tmp_path);
        }
        TeeOutcome::Rename(_) => panic!("a poisoned tee must not commit"),
    }
}

#[test]
fn a_tee_whose_worker_failed_is_cleaned_up() {
    let mut rng = DbRand::default();
    let location = Path::from("compacted/bad.sst");
    let tee = FsCacheTee::new("/cache".to_string(), location.clone(), 1024);
    let (mut sealed, tail) = tee.seal(&mut rng);
    assert!(tail.is_none());
    let head = sealed.reserve_head(&mut rng, Bytes::new());
    sealed.poison();
    match sealed.finish(true) {
        TeeOutcome::CleanUp(files) => assert_eq!(files, vec![head.tmp_path]),
        TeeOutcome::Rename(_) => panic!("a poisoned tee must not commit"),
    }
    let (sealed, _) = FsCacheTee::new("/cache".to_string(), location, 1024).seal(&mut rng);
    assert!(matches!(sealed.finish(false), TeeOutcome::CleanUp(files) if files.is_empty()));
}

#[test]
fn a_seed_decides_the_temporary_names() {
    let location = Path::from("x");
    let names = |seed: u64| {
        let mut rng = DbRand::new(seed);
        let mut tee = FsCacheTee::new("/cache".to_string(), location.clone(), 1024);
        let mut names: Vec<String> = vec![];
        for write in tee.extend(&mut rng, &[7; 2100]) {
            names.push(write.tmp_path);
        }
        let (mut sealed, tail) = tee.seal(&mut rng);
        names.push(tail.unwrap().tmp_path);
        names.push(sealed.reserve_head(&mut rng, Bytes::new()).tmp_path);
        names
    };
    let mut rng = DbRand::new(5);
    let suffixes: Vec<String> = (0..4).map(|_| rng.rand_suffix(16)).collect();
    assert_eq!(
        names(5),
        vec![
            format!("/cache/x/_part1kb-000000000.tmp-{}", suffixes[0]),
            format!("/cache/x/_part1kb-000000001.tmp-{}", suffixes[1]),
            format!("/cache/x/_part1kb-000000002.tmp-{}", suffixes[2]),
            format!("/cache/x/_head.tmp-{}", suffixes[3]),
        ]
    );
    assert_ne!(names(5), names(6));
}

#[test]
fn a_uring_tee_renames_what_was_written() {
    let location = Path::from("compacted/tee.sst");
    let data = payload();
    let mut tee = IoUringCacheTee::new("/cache".to_string(), location.clone(), 1024, 7);
    let mut seen = vec![];
    for chunk in data.chunks(300) {
        for part in tee.extend(chunk) {
            seen.extend(part.bytes.to_vec());
            tee.record_write(true);
        }
    }
    let tail = tee.flush().unwrap();
    assert_eq!(
        tail.tmp_path,
        "/cache/compacted/tee.sst/_part1kb-000000002._tee7-2"
    );
    seen.extend(tail.bytes.to_vec());
    assert_eq!(seen, data);
    tee.record_write(true);
    assert!(!tee.poisoned());
    let (head_tmp, head_place) = tee.head_paths();
    assert_eq!(head_tmp, "/cache/compacted/tee.sst/_head._tee7-head");
    assert_eq!(head_place, "/cache/compacted/tee.sst/_head");
    match tee.finish(true) {
        TeeOutcome::Rename(renames) => {
            assert_eq!(renames.len(), 4);
            assert_eq!(
                renames[0],
                (
                    "/cache/compacted/tee.sst/_part1kb-000000000._tee7-0".to_string(),
                    "/cache/compacted/tee.sst/_part1kb-000000000".to_string(),
                )
            );
            assert_eq!(renames[3], (head_tmp, head_place));
        }
        TeeOutcome::CleanUp(_) => panic!("expected renames"),
    }
}

#[test]
fn a_uring_tee_that_failed_is_cleaned_up() {
    let location = Path::from("x");
    let mut tee = IoUringCacheTee::new("/cache".to_string(), location.clone(), 1024, 0);
    let parts = tee.extend(&[0; 2048]);
    assert_eq!(parts.len(), 2);
    let written = parts[0].tmp_path.clone();
    tee.record_write(true);
    tee.record_write(false);
    assert!(tee.poisoned());
    assert!(tee.extend(&[0; 2048]).is_empty());
    assert!(tee.flush().is_none());
    assert!(matches!(tee.finish(true), TeeOutcome::CleanUp(files) if files == vec![written]));

    // a head that could not be written is deleted with the rest
    let tee = IoUringCacheTee::new("/cache".to_string(), location, 1024, 3);
    let (head_tmp, _) = tee.head_paths();
    assert!(matches!(tee.finish(false), TeeOutcome::CleanUp(files) if files == vec![head_tmp]));
}
