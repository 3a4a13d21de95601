use bytes::Bytes;
use slatedb::cached_object_store::cached_store::CachedObjectStore;
use slatedb::cached_object_store::options::{
    interval_text, Interval, ObjectStoreCacheOptions,
};
use slatedb::db_common::{
    DbInner, ImmutableMemtable, Memtable, ReplayedMemtable, MAX_WAL_FLUSHES_BEFORE_L0_FLUSH,
};
use slatedb::error::{Error, SlateDBError};
use slatedb::filter_policy::{
    FilterQuery, FilterQueryKind, FixedPrefixExtractor, PrefixExtractor,
};
use std::collections::{HashMap, VecDeque};

fn table(id: u64, entry_num: usize) -> Memtable {
    Memtable {
        id,
        entry_num,
        entries_size_in_bytes: entry_num * 10,
    }
}

fn db(memtable: Memtable, recent_flushed_wal_id: u64) -> DbInner {
    DbInner {
        memtable,
        imm_memtable: VecDeque::new(),
        recent_flushed_wal_id,
        replay_after_wal_id: 0,
        next_wal_sst_id: 1,
        last_seq: 5,
        last_committed_seq: 4,
        l0_sst_size_bytes: 1000,
    }
}

#[test]
fn a_memtable_is_frozen_when_it_is_worth_it() {
    let mut small = db(table(1, 3), 10);
    assert_eq!(small.maybe_freeze_current_memtable(999), Ok(false));
    assert_eq!(small.memtable, table(1, 3));
    assert_eq!(small.maybe_freeze_current_memtable(1000), Ok(true));
    assert_eq!(small.memtable, table(0, 0));
    assert_eq!(
        small.imm_memtable,
        VecDeque::from(vec![ImmutableMemtable {
            table: table(1, 3),
            recent_flushed_wal_id: 10
        }])
    );
    // there is nothing left to freeze
    assert_eq!(small.maybe_freeze_current_memtable(1000), Ok(false));
    assert_eq!(small.imm_memtable.len(), 1);

    let mut old = db(table(1, 3), MAX_WAL_FLUSHES_BEFORE_L0_FLUSH);
    assert_eq!(old.maybe_freeze_current_memtable(0), Ok(true));
    let mut newer = db(table(1, 3), MAX_WAL_FLUSHES_BEFORE_L0_FLUSH - 1);
    assert_eq!(newer.maybe_freeze_current_memtable(0), Ok(false));
}

#[test]
fn a_log_behind_the_last_freeze_is_an_error() {
    let mut behind = db(table(1, 3), 10);
    behind.replay_after_wal_id = 11;
    assert_eq!(
        behind.maybe_freeze_current_memtable(1000),
        Err(SlateDBError::InvalidDBState)
    );
    assert_eq!(behind.memtable, table(1, 3));
}

#[test]
fn the_current_memtable_is_frozen_at_the_last_flush() {
    let mut db = db(table(1, 3), 10);
    assert_eq!(db.freeze_current_memtable(), Ok(true));
    assert_eq!(db.imm_memtable[0].recent_flushed_wal_id, 10);
    assert_eq!(db.freeze_current_memtable(), Ok(false));
    db.memtable = table(2, 1);
    assert_eq!(db.freeze_memtable(7), Ok(true));
    // the newest comes first
    assert_eq!(db.imm_memtable[0].table, table(2, 1));
    assert_eq!(db.imm_memtable[0].recent_flushed_wal_id, 7);
    assert_eq!(db.imm_memtable[1].table, table(1, 3));
}

#[test]
fn a_replayed_memtable_takes_the_place_of_the_current_one() {
    let replayed = ReplayedMemtable {
        table: table(9, 8),
        last_wal_id: 21,
        last_seq: 50,
    };
    let mut db1 = db(table(1, 3), 10);
    assert_eq!(db1.replay_memtable(replayed, Ok(())), Ok(true));
    assert_eq!(db1.memtable, table(9, 8));
    assert_eq!(db1.recent_flushed_wal_id, 20);
    assert_eq!(db1.imm_memtable[0].recent_flushed_wal_id, 20);
    assert_eq!(db1.next_wal_sst_id, 22);
    assert_eq!((db1.last_seq, db1.last_committed_seq), (50, 50));

    let mut db2 = db(table(1, 0), 30);
    let first = ReplayedMemtable {
        last_wal_id: 0,
        ..replayed
    };
    assert_eq!(db2.replay_memtable(first, Ok(())), Ok(false));
    assert_eq!(db2.recent_flushed_wal_id, 30);
    assert_eq!(db2.next_wal_sst_id, 1);

    let mut db3 = db(table(1, 3), 10);
    let backwards = Err(SlateDBError::InvalidClockTick);
    assert_eq!(
        db3.replay_memtable(replayed, backwards),
        Err(SlateDBError::InvalidClockTick)
    );
    assert!(db3.memtable.is_empty());
    assert_eq!(db3.next_wal_sst_id, 1);
    assert_eq!(db3.last_seq, 50);
}

#[test]
fn a_fixed_prefix_is_extracted() {
    let extractor = FixedPrefixExtractor::new(3);
    assert_eq!(extractor.name(), "fixed3");
    assert_eq!(extractor.extract(b"abcdef"), Some(&b"abc"[..]));
    assert_eq!(extractor.extract(b"ab"), None);
    assert!(extractor.in_domain(b"abc"));
    assert!(!extractor.in_domain(b"ab"));
    let prefix = extractor.extract(b"abcdef").unwrap();
    assert!(extractor.in_domain(prefix));
    assert_eq!(extractor.extract(prefix), Some(prefix));
    assert_eq!(FixedPrefixExtractor::new(12).name(), "fixed12");
}

#[test]
fn queries_carry_their_hints() {
    let point = FilterQuery::point(Bytes::from_static(b"key"));
    assert_eq!(
        point.kind,
        FilterQueryKind::Point(Bytes::from_static(b"key"))
    );
    assert!(point.hints.is_empty());
    let mut hints = HashMap::new();
    hints.insert("version".to_string(), Bytes::from_static(b"7"));
    let prefix = FilterQuery::prefix(Bytes::from_static(b"ke")).with_hints(hints.clone());
    assert_eq!(
        prefix.kind,
        FilterQueryKind::Prefix(Bytes::from_static(b"ke"))
    );
    assert_eq!(prefix.hints, hints);
    assert_eq!(prefix.clone().kind, prefix.kind);
}

#[test]
fn default_options() {
    let options = ObjectStoreCacheOptions::default();
    assert_eq!(options.root_folder, None);
    assert_eq!(
        options.max_cache_size_bytes,
        Some(16 * 1024 * 1024 * 1024)
    );
    assert_eq!(options.part_size_bytes, 4 * 1024 * 1024);
    assert!(!options.cache_puts);
    assert_eq!(
        options.scan_interval,
        Some(Interval {
            secs: 3600,
            nanos: 0
        })
    );
    assert_eq!(options.max_open_file_handles, 1000);
    assert_eq!(options.clone(), options);
}

#[test]
fn intervals_are_written_as_text() {
    let text = |secs: u64, nanos: u32| interval_text(&Interval { secs, nanos });
    assert_eq!(text(3600, 0), "3600s");
    assert_eq!(text(1, 5_000_000), "1s+005ms");
    assert_eq!(text(0, 250_000_000), "250ms");
    assert_eq!(text(0, 7_999_999), "007ms");
    assert_eq!(text(0, 999_999), "0s");
    assert_eq!(text(2, 999_999), "2s");
}

#[test]
fn a_store_is_built_from_options() {
    let built = CachedObjectStore::builder()
        .root_folder("/var/cache/slatedb".to_string())
        .part_size_bytes(2048)
        .cache_puts(true)
        .max_cache_size_bytes(77)
        .scan_interval(None)
        .max_open_file_handles(9);
    assert_eq!(
        built.options,
        ObjectStoreCacheOptions {
            root_folder: Some("/var/cache/slatedb".to_string()),
            max_cache_size_bytes: Some(77),
            part_size_bytes: 2048,
            cache_puts: true,
            scan_interval: None,
            max_open_file_handles: 9,
        }
    );
    let store = built.build().unwrap();
    assert_eq!(store.part_size_bytes(), 2048);
    assert!(store.cache_puts());
    assert_eq!(store.resolved_root(), None);

    let message = "CachedObjectStore::builder() requires root_folder".to_string();
    assert_eq!(
        CachedObjectStore::builder().build().unwrap_err(),
        Error::Invalid(message)
    );
    let invalid = ObjectStoreCacheOptions {
        part_size_bytes: 1000,
        ..built.options.clone()
    };
    assert_eq!(
        CachedObjectStore::builder()
            .options(invalid.clone())
            .build()
            .unwrap_err(),
        Error::Internal(SlateDBError::InvalidCachePartSize)
    );
    assert_eq!(
        CachedObjectStore::from_config(&invalid).unwrap_err(),
        SlateDBError::InvalidCachePartSize
    );
    let off = ObjectStoreCacheOptions::default();
    assert!(CachedObjectStore::from_config(&off).unwrap().is_none());
    assert!(CachedObjectStore::from_config(&built.options)
        .unwrap()
        .is_some());
}
