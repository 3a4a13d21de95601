use slatedb::cached_object_store::cached_store::CachedObjectStore;
use slatedb::cached_object_store::requests::{
    part_extensions, route_get, route_read_intent, GetRoute,
};
use slatedb::object_store_intent::{ReadIntent, ReadKind, RetryReason, WriteIntent, WriteKind};

#[test]
fn should_round_trip_write_intent_through_extensions() {
    let extensions = WriteIntent::compaction_output().into_extensions();

    let intent = WriteIntent::from_extensions(&extensions);

    assert_eq!(intent, Some(WriteIntent::new(WriteKind::CompactionOutput)));
    assert_eq!(ReadIntent::from_extensions(&extensions), None);
}

#[test]
fn should_round_trip_read_intent_through_extensions() {
    let extensions = ReadIntent::foreground()
        .with_retry(RetryReason::CrcMismatch)
        .into_extensions();

    let intent = ReadIntent::from_extensions(&extensions);

    let mut expected = ReadIntent::new(ReadKind::Foreground);
    expected.retry = Some(RetryReason::CrcMismatch);
    assert_eq!(intent, Some(expected));
    assert_eq!(WriteIntent::from_extensions(&extensions), None);
}

#[test]
fn should_survive_extensions_clone() {
    // Options are cloned for each attempt when a call is retried; intents must
    // survive the clone.
    let extensions = ReadIntent::warmup().into_extensions();

    let cloned = extensions.clone();

    assert_eq!(
        ReadIntent::from_extensions(&cloned),
        Some(ReadIntent::warmup())
    );
}

#[test]
fn fetches_of_parts_carry_the_intents_of_the_read() {
    let empty = part_extensions(&object_store::Extensions::new());
    assert_eq!(ReadIntent::from_extensions(&empty), None);
    assert_eq!(WriteIntent::from_extensions(&empty), None);

    let read = ReadIntent::foreground().with_retry(RetryReason::DecompressionError);
    let mut both = read.into_extensions();
    both.insert(WriteIntent::flush());
    let own = part_extensions(&both);
    assert_eq!(ReadIntent::from_extensions(&own), Some(read));
    assert_eq!(
        WriteIntent::from_extensions(&own),
        Some(WriteIntent::flush())
    );
}

#[test]
fn should_construct_intents_with_expected_kinds() {
    assert_eq!(WriteIntent::flush().kind, WriteKind::Flush);
    assert_eq!(WriteIntent::wal().kind, WriteKind::Wal);
    assert_eq!(
        WriteIntent::transactional_metadata().kind,
        WriteKind::TransactionalMetadata
    );
    assert_eq!(
        WriteIntent::compaction_output().kind,
        WriteKind::CompactionOutput
    );
    assert_eq!(ReadIntent::foreground().kind, ReadKind::Foreground);
    assert_eq!(
        ReadIntent::compaction_input().kind,
        ReadKind::CompactionInput
    );
    assert_eq!(ReadIntent::wal().kind, ReadKind::Wal);
    assert_eq!(ReadIntent::warmup().kind, ReadKind::Warmup);
    assert_eq!(
        ReadIntent::transactional_metadata().kind,
        ReadKind::TransactionalMetadata
    );
    assert_eq!(ReadIntent::foreground().retry, None);
}

#[test]
fn a_second_insert_replaces_the_first_intent() {
    let mut extensions = ReadIntent::warmup().into_extensions();
    extensions.insert(ReadIntent::wal());
    extensions.insert(WriteIntent::flush());
    assert_eq!(
        ReadIntent::from_extensions(&extensions),
        Some(ReadIntent::wal())
    );
    assert_eq!(
        WriteIntent::from_extensions(&extensions),
        Some(WriteIntent::flush())
    );
}

#[test]
fn reads_are_routed_by_intent() {
    let untagged = WriteIntent::flush().into_extensions();
    assert_eq!(route_get(false, &untagged), GetRoute::Cached);
    assert_eq!(
        route_get(false, &ReadIntent::foreground().into_extensions()),
        GetRoute::Cached
    );
    assert_eq!(
        route_get(false, &ReadIntent::warmup().into_extensions()),
        GetRoute::Cached
    );
    assert_eq!(
        route_get(false, &ReadIntent::compaction_input().into_extensions()),
        GetRoute::Upstream
    );
    assert_eq!(
        route_get(false, &ReadIntent::wal().into_extensions()),
        GetRoute::Upstream
    );
    assert_eq!(
        route_get(
            false,
            &ReadIntent::transactional_metadata().into_extensions()
        ),
        GetRoute::Upstream
    );
    let retry = ReadIntent::foreground().with_retry(RetryReason::BlockDecodeError);
    assert_eq!(
        route_get(false, &retry.into_extensions()),
        GetRoute::Refetch
    );
    // a bypass comes before a retry, and a head request before both
    let both = ReadIntent::compaction_input().with_retry(RetryReason::CrcMismatch);
    assert_eq!(route_get(false, &both.into_extensions()), GetRoute::Upstream);
    assert_eq!(route_get(true, &both.into_extensions()), GetRoute::Head);
    assert_eq!(route_read_intent(false, None), GetRoute::Cached);
    assert_eq!(
        route_read_intent(
            false,
            Some(ReadIntent::warmup().with_retry(RetryReason::DecompressionError))
        ),
        GetRoute::Refetch
    );
}

#[test]
fn writes_are_admitted_by_intent() {
    let store = CachedObjectStore::new(1024, true).unwrap();
    assert!(store.admits_put(&WriteIntent::flush().into_extensions()));
    assert!(store.admits_put(&ReadIntent::wal().into_extensions()));
    assert!(!store.admits_put(&WriteIntent::wal().into_extensions()));
    assert!(!store.admits_put(&WriteIntent::transactional_metadata().into_extensions()));
    assert!(!store.admits_put(&WriteIntent::compaction_output().into_extensions()));
    assert!(store.admits_write_intent(None));
    let disabled = CachedObjectStore::new(1024, false).unwrap();
    assert!(!disabled.admits_put(&WriteIntent::flush().into_extensions()));
    assert!(!disabled.admits_write_intent(None));
}
