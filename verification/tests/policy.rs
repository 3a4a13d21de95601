use slatedb::cached_object_store::policy::{
    get_action, put_action, CachePutPolicy, GetAction, PutAction,
};
use slatedb::object_store_intent::RetryReason;
use slatedb::object_store_tag::{ObjectStoreCallTag, SstType, TableStoreKind};

fn tag(
    kind: TableStoreKind,
    sst_type: SstType,
    retry: Option<RetryReason>,
) -> ObjectStoreCallTag {
    ObjectStoreCallTag {
        kind,
        sst_type,
        retry,
    }
}

#[test]
fn test_get_action() {
    let cases = [
        // Compactor reads bypass regardless of sst type or retry.
        (
            Some(tag(TableStoreKind::Compactor, SstType::Compacted, None)),
            GetAction::Bypass,
        ),
        (
            Some(tag(
                TableStoreKind::Compactor,
                SstType::Compacted,
                Some(RetryReason::CrcMismatch),
            )),
            GetAction::Bypass,
        ),
        // WAL reads bypass for any source, even when reissued.
        (
            Some(tag(TableStoreKind::Main, SstType::Wal, None)),
            GetAction::Bypass,
        ),
        (
            Some(tag(TableStoreKind::Reader, SstType::Wal, None)),
            GetAction::Bypass,
        ),
        (
            Some(tag(
                TableStoreKind::Main,
                SstType::Wal,
                Some(RetryReason::BlockDecodeError),
            )),
            GetAction::Bypass,
        ),
        // A reissued, non-bypassed read refetches.
        (
            Some(tag(
                TableStoreKind::Main,
                SstType::Compacted,
                Some(RetryReason::CrcMismatch),
            )),
            GetAction::Refetch,
        ),
        (
            Some(tag(
                TableStoreKind::Reader,
                SstType::Compacted,
                Some(RetryReason::BlockDecodeError),
            )),
            GetAction::Refetch,
        ),
        // Everything else is a normal admit, including untagged reads.
        (
            Some(tag(TableStoreKind::Main, SstType::Compacted, None)),
            GetAction::Admit,
        ),
        (
            Some(tag(TableStoreKind::Reader, SstType::Compacted, None)),
            GetAction::Admit,
        ),
        (
            Some(tag(TableStoreKind::GC, SstType::Compacted, None)),
            GetAction::Admit,
        ),
        (None, GetAction::Admit),
    ];
    for (tag, expected) in cases {
        assert_eq!(get_action(tag.as_ref()), expected);
    }
}

#[test]
fn test_put_action() {
    let both = CachePutPolicy {
        cache_on_flush: true,
        cache_on_compaction: true,
    };
    let flush = CachePutPolicy {
        cache_on_flush: true,
        cache_on_compaction: false,
    };
    let compaction = CachePutPolicy {
        cache_on_flush: false,
        cache_on_compaction: true,
    };
    let cases = [
        // WAL writes are never cached, even with both flags on.
        (
            Some(tag(TableStoreKind::Main, SstType::Wal, None)),
            both,
            PutAction::Skip,
        ),
        // Untagged writes are never cached.
        (None, both, PutAction::Skip),
        // Flush writes are gated by cache_on_flush.
        (
            Some(tag(TableStoreKind::Main, SstType::Compacted, None)),
            flush,
            PutAction::Cache,
        ),
        (
            Some(tag(TableStoreKind::Main, SstType::Compacted, None)),
            compaction,
            PutAction::Skip,
        ),
        // Compaction writes are gated by cache_on_compaction.
        (
            Some(tag(TableStoreKind::Compactor, SstType::Compacted, None)),
            compaction,
            PutAction::Cache,
        ),
        (
            Some(tag(TableStoreKind::Compactor, SstType::Compacted, None)),
            flush,
            PutAction::Skip,
        ),
        // Readers and GC never write compacted SSTs; if they did, they would be skipped.
        (
            Some(tag(TableStoreKind::Reader, SstType::Compacted, None)),
            both,
            PutAction::Skip,
        ),
        (
            Some(tag(TableStoreKind::GC, SstType::Compacted, None)),
            both,
            PutAction::Skip,
        ),
    ];
    for (tag, policy, expected) in cases {
        assert_eq!(put_action(tag.as_ref(), &policy), expected);
    }
}

#[test]
fn test_default_put_policy_caches_nothing() {
    let policy = CachePutPolicy::default();
    assert!(!policy.cache_on_flush);
    assert!(!policy.cache_on_compaction);
    for kind in [
        TableStoreKind::Main,
        TableStoreKind::Compactor,
        TableStoreKind::Reader,
        TableStoreKind::GC,
    ] {
        assert_eq!(
            put_action(Some(&tag(kind, SstType::Compacted, None)), &policy),
            PutAction::Skip
        );
    }
}
