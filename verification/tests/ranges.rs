use slatedb::cached_object_store::cached_store::{
    CachedObjectStore, GetRange, GetRangeKey, InvalidGetRange,
};
use slatedb::error::SlateDBError;
use slatedb::path::Path;

fn store() -> CachedObjectStore {
    CachedObjectStore::new(1024, false).unwrap()
}

#[test]
fn test_infer_root() {
    assert_eq!(
        CachedObjectStore::infer_root(
            &Path::from("manifest/0001.manifest"),
            &Path::from("tenant-a/manifest/0001.manifest")
        ),
        Some(Path::from("tenant-a"))
    );
    assert_eq!(
        CachedObjectStore::infer_root(
            &Path::from("manifest/0001.manifest"),
            &Path::from("other/path")
        ),
        None
    );
    assert_eq!(
        CachedObjectStore::infer_root(&Path::from("b/c"), &Path::from("ab/c")),
        None
    );
}

#[test]
fn infer_root_at_the_edges() {
    // nothing requested: the answer is the root
    assert_eq!(
        CachedObjectStore::infer_root(&Path::from(""), &Path::from("a/b")),
        Some(Path::from("a/b"))
    );
    // the same location: the root is empty
    assert_eq!(
        CachedObjectStore::infer_root(&Path::from("a/b"), &Path::from("a/b")),
        Some(Path::from(""))
    );
    // a request longer than the answer
    assert_eq!(
        CachedObjectStore::infer_root(&Path::from("a/b/c"), &Path::from("b/c")),
        None
    );
    assert_eq!(
        CachedObjectStore::infer_root(&Path::from("c"), &Path::from("a/b/c")),
        Some(Path::from("a/b"))
    );
    // a root is taken as it stands, and not encoded once more
    let root = Path::from("a%");
    assert_eq!(root.as_str(), "a%25");
    let requested = Path::from("b/c");
    let inferred = CachedObjectStore::infer_root(&requested, &root.join(&requested)).unwrap();
    assert_eq!(inferred, root);
    assert_eq!(inferred.join(&requested).as_str(), "a%25/b/c");
}

#[test]
fn test_split_range_into_parts() {
    let cached_store = store();
    let tests: Vec<(
        (Option<GetRange>, usize),
        Vec<(usize, std::ops::Range<usize>)>,
    )> = vec![
        (
            (None, 1024 * 3),
            vec![(0, 0..1024), (1, 0..1024), (2, 0..1024)],
        ),
        (
            (None, 1024 * 3 + 12),
            vec![(0, 0..1024), (1, 0..1024), (2, 0..1024), (3, 0..12)],
        ),
        ((None, 12), vec![(0, 0..12)]),
        (
            (Some(GetRange::Bounded(0..1024)), 1024),
            vec![(0, 0..1024)],
        ),
        (
            (Some(GetRange::Bounded(128..1024)), 20000),
            vec![(0, 128..1024)],
        ),
        (
            (Some(GetRange::Bounded(128..1024 + 12)), 20000),
            vec![(0, 128..1024), (1, 0..12)],
        ),
        (
            (Some(GetRange::Bounded(128..1024 * 2 + 12)), 20000),
            vec![(0, 128..1024), (1, 0..1024), (2, 0..12)],
        ),
        (
            (Some(GetRange::Bounded(1024 * 2..1024 * 3 + 12)), 200000),
            vec![(2, 0..1024), (3, 0..12)],
        ),
        (
            (
                Some(GetRange::Bounded(1024 * 2 - 2..1024 * 3 + 12)),
                20000,
            ),
            vec![(1, 1022..1024), (2, 0..1024), (3, 0..12)],
        ),
        ((Some(GetRange::Suffix(128)), 1024), vec![(0, 896..1024)]),
        (
            (Some(GetRange::Suffix(1024 * 2 + 8)), 1024 * 4),
            vec![(1, 1016..1024), (2, 0..1024), (3, 0..1024)],
        ),
        (
            (Some(GetRange::Offset(8)), 1024 * 4),
            vec![(0, 8..1024), (1, 0..1024), (2, 0..1024), (3, 0..1024)],
        ),
        (
            (Some(GetRange::Offset(1024 * 2 + 8)), 1024 * 4),
            vec![(2, 8..1024), (3, 0..1024)],
        ),
        (
            (Some(GetRange::Offset(1024 * 2 + 8)), 1024 * 4 + 2),
            vec![(2, 8..1024), (3, 0..1024), (4, 0..2)],
        ),
    ];

    for (input, expect) in tests.iter() {
        let range = cached_store
            .canonicalize_range(input.0.clone(), input.1 as u64)
            .unwrap();
        let parts = cached_store.split_range_into_parts(range);
        assert_eq!(&parts, expect, "input: {:?}", input);
    }
}

#[test]
fn test_align_range() {
    let cached_store = store();
    let aligned = cached_store.align_range(&(9..1025), 1024);
    assert_eq!(aligned, 0..2048);
    let aligned = cached_store.align_range(&(1024 + 1..2048 + 4), 1024);
    assert_eq!(aligned, 1024..3072);
}

#[test]
fn test_align_get_range() {
    let cached_store = store();
    let aligned = cached_store.align_get_range(&GetRange::Bounded(9..1025));
    assert_eq!(aligned, GetRange::Bounded(0..2048));
    let aligned = cached_store.align_get_range(&GetRange::Bounded(9..2048));
    assert_eq!(aligned, GetRange::Bounded(0..2048));
    let aligned = cached_store.align_get_range(&GetRange::Suffix(12));
    assert_eq!(aligned, GetRange::Suffix(1024));
    let aligned = cached_store.align_get_range(&GetRange::Suffix(1024));
    assert_eq!(aligned, GetRange::Suffix(1024));
    let aligned = cached_store.align_get_range(&GetRange::Offset(1024));
    assert_eq!(aligned, GetRange::Offset(1024));
    let aligned = cached_store.align_get_range(&GetRange::Offset(12));
    assert_eq!(aligned, GetRange::Offset(0));
}

#[test]
fn empty_and_reversed_ranges_touch_few_parts() {
    let cached_store = store();
    assert!(cached_store.split_range_into_parts(0..0).is_empty());
    assert!(cached_store.split_range_into_parts(2048..1024).is_empty());
    assert_eq!(
        cached_store.split_range_into_parts(1024..1025),
        vec![(1, 0..1)]
    );
}

#[test]
fn ranges_that_do_not_fit_are_refused() {
    let cached_store = store();
    let too_large = cached_store
        .canonicalize_range(Some(GetRange::Bounded(10..20)), 10)
        .unwrap_err();
    assert_eq!(
        too_large,
        InvalidGetRange::StartTooLarge {
            requested: 10,
            length: 10
        }
    );
    assert_eq!(
        too_large.message(),
        "Range start too large, requested: 10, length: 10"
    );
    let inconsistent = cached_store
        .canonicalize_range(Some(GetRange::Bounded(2900..2048)), 3074)
        .unwrap_err();
    assert_eq!(
        inconsistent,
        InvalidGetRange::Inconsistent {
            start: 2900,
            end: 2048
        }
    );
    assert_eq!(
        inconsistent.message(),
        "Range started at 2900 and ended at 2048"
    );
    assert_eq!(
        cached_store.canonicalize_range(Some(GetRange::Offset(260817)), 3074),
        Err(InvalidGetRange::StartTooLarge {
            requested: 260817,
            length: 3074
        })
    );
    assert_eq!(
        cached_store.canonicalize_range(Some(GetRange::Suffix(260817)), 3074),
        Ok(0..3074)
    );
    assert_eq!(
        cached_store.canonicalize_range(Some(GetRange::Bounded(1000..260817)), 3074),
        Ok(1000..3074)
    );
}

#[test]
fn range_keys_keep_kind_and_numbers() {
    assert_eq!(
        GetRangeKey::from(GetRange::Bounded(1..2)),
        GetRangeKey::Bounded(1..2)
    );
    assert_eq!(
        GetRangeKey::from(GetRange::Offset(7)),
        GetRangeKey::Offset(7)
    );
    assert_eq!(
        GetRangeKey::from(GetRange::Suffix(7)),
        GetRangeKey::Suffix(7)
    );
}

#[test]
fn part_sizes_are_multiples_of_a_kilobyte() {
    assert_eq!(
        CachedObjectStore::new(0, false).unwrap_err(),
        SlateDBError::InvalidCachePartSize
    );
    assert_eq!(
        CachedObjectStore::new(1025, false).unwrap_err(),
        SlateDBError::InvalidCachePartSize
    );
    let store = CachedObjectStore::new(2048, true).unwrap();
    assert_eq!(store.part_size_bytes(), 2048);
    assert!(store.cache_puts());
}

#[test]
fn paths_are_encoded_and_joined() {
    assert_eq!(Path::from("/data//testfile1/").as_str(), "data/testfile1");
    assert_eq!(Path::from("a b/%").as_str(), "a b/%25");
    assert_eq!(Path::from("..").as_str(), "%2E%2E");
    assert!(Path::from("").is_root());
    assert_eq!(
        Path::from("root").join(&Path::from("a/b")).as_str(),
        "root/a/b"
    );
    assert_eq!(Path::from("").join(&Path::from("a/b")).as_str(), "a/b");
    assert_eq!(Path::from("root").join(&Path::from("")).as_str(), "root");
    assert_eq!(
        Path::from_raw("a/%25".to_string()).unwrap().as_str(),
        "a/%25"
    );
    assert!(Path::from_raw("/a".to_string()).is_none());
    assert!(Path::from_raw("a/".to_string()).is_none());
    assert!(Path::from_raw("a//b".to_string()).is_none());
    assert!(Path::from_raw(String::new()).is_some());
}
