//! Per-call admission policy of the cache: pure functions of the tag on a call and
//! of the configured [`CachePutPolicy`].

use crate::object_store_tag::{ObjectStoreCallTag, SstType, TableStoreKind};
use vstd::prelude::*;

verus! {

/// What the cache does for a GET.
#[derive(Clone, Copy, Debug, PartialEq, Eq, Structural)]
pub enum GetAction {
    /// Skip the cache: no lookup, no admission. For compaction input, which is read
    /// once, and for the write-ahead log, which is never cached.
    Bypass,
    /// Drop the cached entry, then read as usual, so that a corrupt part is replaced
    /// and not served again.
    Refetch,
    /// Serve from the cache, and admit parts on a miss.
    Admit,
}

/// What the cache does for a PUT.
#[derive(Clone, Copy, Debug, PartialEq, Eq, Structural)]
pub enum PutAction {
    /// Write through to upstream and save the payload to the cache.
    Cache,
    /// Write through to upstream only.
    Skip,
}

/// Which writers of compacted SSTs the cache admits.
#[derive(Clone, Copy, Debug, PartialEq, Eq, Structural)]
pub struct CachePutPolicy {
    /// Admit what a memtable flush writes (the main store).
    pub cache_on_flush: bool,
    /// Admit what compaction writes (the compactor store).
    pub cache_on_compaction: bool,
}

impl Default for CachePutPolicy {
    /// Nothing is admitted.
    fn default() -> (r: CachePutPolicy)
        ensures
            !r.cache_on_flush,
            !r.cache_on_compaction,
    {
        CachePutPolicy { cache_on_flush: false, cache_on_compaction: false }
    }
}

/// A call whose bytes are never looked up in the cache.
pub open spec fn bypasses(tag: ObjectStoreCallTag) -> bool {
    tag.kind == TableStoreKind::Compactor || tag.sst_type == SstType::Wal
}

pub open spec fn get_action_spec(tag: Option<ObjectStoreCallTag>) -> GetAction {
    match tag {
        None => GetAction::Admit,
        Some(t) => if bypasses(t) {
            GetAction::Bypass
        } else if t.retry is Some {
            GetAction::Refetch
        } else {
            GetAction::Admit
        },
    }
}

/// A write that the policy admits: a compacted SST from an enabled source.
pub open spec fn admits_put(tag: ObjectStoreCallTag, policy: CachePutPolicy) -> bool {
    &&& tag.sst_type == SstType::Compacted
    &&& (tag.kind == TableStoreKind::Main && policy.cache_on_flush) || (tag.kind
        == TableStoreKind::Compactor && policy.cache_on_compaction)
}

pub open spec fn put_action_spec(
    tag: Option<ObjectStoreCallTag>,
    policy: CachePutPolicy,
) -> PutAction {
    match tag {
        Some(t) if admits_put(t, policy) => PutAction::Cache,
        _ => PutAction::Skip,
    }
}

pub open spec fn tag_value(tag: Option<&ObjectStoreCallTag>) -> Option<ObjectStoreCallTag> {
    match tag {
        Some(t) => Some(*t),
        None => None,
    }
}

/// The GET action for a data read. Compactor and write-ahead log reads bypass the
/// cache, also when they are retries, since nothing of theirs is cached. Any other
/// retry refetches, and the rest is admitted on a miss.
pub fn get_action(tag: Option<&ObjectStoreCallTag>) -> (r: GetAction)
    ensures
        r == get_action_spec(tag_value(tag)),
{
    match tag {
        None => GetAction::Admit,
        Some(t) => {
            if t.kind == TableStoreKind::Compactor || t.sst_type == SstType::Wal {
                GetAction::Bypass
            } else if t.retry.is_some() {
                GetAction::Refetch
            } else {
                GetAction::Admit
            }
        },
    }
}

/// The PUT action for a single put or a multipart upload. Untagged writes are
/// coordination I/O and are never cached, nor is the write-ahead log.
pub fn put_action(tag: Option<&ObjectStoreCallTag>, policy: &CachePutPolicy) -> (r: PutAction)
    ensures
        r == put_action_spec(tag_value(tag), *policy),
{
    match tag {
        None => PutAction::Skip,
        Some(t) => match t.sst_type {
            SstType::Wal => PutAction::Skip,
            SstType::Compacted => match t.kind {
                TableStoreKind::Main => if policy.cache_on_flush {
                    PutAction::Cache
                } else {
                    PutAction::Skip
                },
                TableStoreKind::Compactor => if policy.cache_on_compaction {
                    PutAction::Cache
                } else {
                    PutAction::Skip
                },
                _ => PutAction::Skip,
            },
        },
    }
}

/// With the default policy nothing is cached, whatever the tag.
pub proof fn lemma_default_policy_caches_nothing(
    tag: Option<ObjectStoreCallTag>,
    policy: CachePutPolicy,
)
    requires
        !policy.cache_on_flush,
        !policy.cache_on_compaction,
    ensures
        put_action_spec(tag, policy) == PutAction::Skip,
{
}

/// Bypass comes before refetch: a retry of a read that bypasses the cache bypasses
/// it again.
pub proof fn lemma_bypass_before_refetch(tag: ObjectStoreCallTag)
    requires
        bypasses(tag),
    ensures
        get_action_spec(Some(tag)) == GetAction::Bypass,
{
}

/// What a read looks up in the cache never holds write-ahead log bytes: no write of
/// them is admitted and every read of them bypasses the cache.
pub proof fn lemma_wal_never_cached(tag: ObjectStoreCallTag, policy: CachePutPolicy)
    requires
        tag.sst_type == SstType::Wal,
    ensures
        get_action_spec(Some(tag)) == GetAction::Bypass,
        put_action_spec(Some(tag), policy) == PutAction::Skip,
{
}

/// A read past the cache is one of the compactor or of the write-ahead log; of the others a
/// retry drops what is cached, and the rest goes through the cache.
pub proof fn lemma_get_action_table(tag: ObjectStoreCallTag)
    ensures
        get_action_spec(None) == GetAction::Admit,
        tag.kind == TableStoreKind::Compactor ==> get_action_spec(Some(tag)) == GetAction::Bypass,
        tag.sst_type == SstType::Wal ==> get_action_spec(Some(tag)) == GetAction::Bypass,
        tag.kind != TableStoreKind::Compactor && tag.sst_type != SstType::Wal && tag.retry is Some
            ==> get_action_spec(Some(tag)) == GetAction::Refetch,
        tag.kind != TableStoreKind::Compactor && tag.sst_type != SstType::Wal && tag.retry is None
            ==> get_action_spec(Some(tag)) == GetAction::Admit,
{
}

/// Of the writers, the main store goes by the setting for flushes and the compactor by that for
/// compaction, and both with compacted tables only. No other writer is admitted, nor a write
/// without a tag.
pub proof fn lemma_put_action_table(tag: ObjectStoreCallTag, policy: CachePutPolicy)
    ensures
        put_action_spec(None, policy) == PutAction::Skip,
        tag.sst_type != SstType::Compacted ==> put_action_spec(Some(tag), policy)
            == PutAction::Skip,
        tag.sst_type == SstType::Compacted && tag.kind == TableStoreKind::Main ==> (put_action_spec(
            Some(tag),
            policy,
        ) == PutAction::Cache <==> policy.cache_on_flush),
        tag.sst_type == SstType::Compacted && tag.kind == TableStoreKind::Compactor ==> (
        put_action_spec(Some(tag), policy) == PutAction::Cache <==> policy.cache_on_compaction),
        tag.kind != TableStoreKind::Main && tag.kind != TableStoreKind::Compactor
            ==> put_action_spec(Some(tag), policy) == PutAction::Skip,
{
}

/// A policy that admits more sources admits every write that one with fewer does. Whether a
/// write is a retry does not count.
pub proof fn lemma_put_action_is_monotone(
    tag: ObjectStoreCallTag,
    other: ObjectStoreCallTag,
    less: CachePutPolicy,
    more: CachePutPolicy,
)
    requires
        less.cache_on_flush ==> more.cache_on_flush,
        less.cache_on_compaction ==> more.cache_on_compaction,
        other.kind == tag.kind,
        other.sst_type == tag.sst_type,
    ensures
        put_action_spec(Some(tag), less) == PutAction::Cache ==> put_action_spec(Some(tag), more)
            == PutAction::Cache,
        put_action_spec(Some(tag), less) == put_action_spec(Some(other), less),
{
}

} // verus!
