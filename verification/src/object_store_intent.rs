//! Typed intents attached to object store calls.
//!
//! Every call that takes options is tagged with what its caller is about: a
//! [`WriteIntent`] on writes and a [`ReadIntent`] on reads. The intent travels in the
//! call's [`Extensions`]. Calls without options (`delete`, `list`, the convenience
//! `head`) carry none.

use object_store::Extensions;
use vstd::prelude::*;

verus! {

/// `object_store::Extensions`: a map from types to one value of each.
#[verifier::external_type_specification]
#[verifier::external_body]
pub struct ExExtensions(object_store::Extensions);

/// The value of type `WriteIntent` that an extensions map holds: none, or one.
pub uninterp spec fn write_intents(e: Extensions) -> Seq<WriteIntent>;

/// The value of type `ReadIntent` that an extensions map holds: none, or one.
pub uninterp spec fn read_intents(e: Extensions) -> Seq<ReadIntent>;

/// `Extensions::new`: an empty map.
pub assume_specification[ object_store::Extensions::new ]() -> (r: object_store::Extensions)
    ensures
        write_intents(r) == Seq::<WriteIntent>::empty(),
        read_intents(r) == Seq::<ReadIntent>::empty(),
;

/// `<Extensions as Clone>::clone`: a map with a clone of every value. The clone of an intent,
/// which is plain data, is the intent.
pub assume_specification[ <object_store::Extensions as std::clone::Clone>::clone ](
    e: &object_store::Extensions,
) -> (r: object_store::Extensions)
    ensures
        write_intents(r) == write_intents(*e),
        read_intents(r) == read_intents(*e),
;

/// `Extensions::insert` with a `WriteIntent`: puts it in the place of the one that
/// was there, and leaves values of other types alone.
#[verifier::external_body]
fn insert_write_intent(e: &mut Extensions, intent: WriteIntent)
    ensures
        write_intents(*final(e)) == seq![intent],
        read_intents(*final(e)) == read_intents(*old(e)),
{
    e.insert(intent);
}

/// `Extensions::insert` with a `ReadIntent`: puts it in the place of the one that
/// was there, and leaves values of other types alone.
#[verifier::external_body]
fn insert_read_intent(e: &mut Extensions, intent: ReadIntent)
    ensures
        read_intents(*final(e)) == seq![intent],
        write_intents(*final(e)) == write_intents(*old(e)),
{
    e.insert(intent);
}

/// `Extensions::get` for `WriteIntent`: the value of that type, if there is one.
#[verifier::external_body]
fn get_write_intent(e: &Extensions) -> (r: Option<WriteIntent>)
    ensures
        write_intents(*e) == (match r {
            Some(intent) => seq![intent],
            None => Seq::empty(),
        }),
{
    e.get::<WriteIntent>().copied()
}

/// `Extensions::get` for `ReadIntent`: the value of that type, if there is one.
#[verifier::external_body]
fn get_read_intent(e: &Extensions) -> (r: Option<ReadIntent>)
    ensures
        read_intents(*e) == (match r {
            Some(intent) => seq![intent],
            None => Seq::empty(),
        }),
{
    e.get::<ReadIntent>().copied()
}

/// The purpose of a write. A wrapper can admit writes by their kind: flushes, say,
/// but not short-lived log segments or metadata.
#[non_exhaustive]
#[derive(Clone, Copy, Debug, PartialEq, Eq, Structural)]
pub struct WriteIntent {
    /// The kind of write.
    pub kind: WriteKind,
}

/// The kind of a write.
#[non_exhaustive]
#[derive(Clone, Copy, Debug, PartialEq, Eq, Structural)]
pub enum WriteKind {
    /// A memtable flush producing an L0 SST.
    Flush,
    /// An SST produced by compaction.
    CompactionOutput,
    /// Transactional database metadata: manifests, compactions state, and the GC
    /// boundary file. Some of these objects are mutable.
    TransactionalMetadata,
    /// A write-ahead log segment.
    Wal,
}

impl WriteIntent {
    /// A write intent of the given kind.
    pub fn new(kind: WriteKind) -> (r: WriteIntent)
        ensures
            r.kind == kind,
    {
        WriteIntent { kind }
    }

    /// A memtable flush.
    pub fn flush() -> (r: WriteIntent)
        ensures
            r.kind == WriteKind::Flush,
    {
        WriteIntent::new(WriteKind::Flush)
    }

    /// A compaction output.
    pub fn compaction_output() -> (r: WriteIntent)
        ensures
            r.kind == WriteKind::CompactionOutput,
    {
        WriteIntent::new(WriteKind::CompactionOutput)
    }

    /// A write of transactional metadata.
    pub fn transactional_metadata() -> (r: WriteIntent)
        ensures
            r.kind == WriteKind::TransactionalMetadata,
    {
        WriteIntent::new(WriteKind::TransactionalMetadata)
    }

    /// A write-ahead log segment.
    pub fn wal() -> (r: WriteIntent)
        ensures
            r.kind == WriteKind::Wal,
    {
        WriteIntent::new(WriteKind::Wal)
    }

    /// A fresh extensions map that carries this intent and no read intent.
    pub fn into_extensions(self) -> (r: Extensions)
        ensures
            write_intents(r) == seq![self],
            read_intents(r) == Seq::<ReadIntent>::empty(),
    {
        let mut extensions = Extensions::new();
        insert_write_intent(&mut extensions, self);
        extensions
    }

    /// The write intent that an extensions map carries, if any.
    pub fn from_extensions(extensions: &Extensions) -> (r: Option<WriteIntent>)
        ensures
            r is Some <==> write_intents(*extensions).len() > 0,
            r matches Some(intent) ==> write_intents(*extensions) == seq![intent],
    {
        get_write_intent(extensions)
    }
}

/// The purpose of a read. A wrapper can treat foreground queries, compaction scans,
/// warmups and metadata reads differently, and see from `retry` that a read is
/// reissued after a validation failure.
#[non_exhaustive]
#[derive(Clone, Copy, Debug, PartialEq, Eq, Structural)]
pub struct ReadIntent {
    /// The kind of read.
    pub kind: ReadKind,
    /// Set when the previous response failed validation. Locally cached bytes for
    /// the path may then be corrupt: they are to be dropped and fetched afresh.
    pub retry: Option<RetryReason>,
}

/// The kind of a read.
#[non_exhaustive]
#[derive(Clone, Copy, Debug, PartialEq, Eq, Structural)]
pub enum ReadKind {
    /// A read on the caller's critical path.
    Foreground,
    /// A bulk read of compaction input.
    CompactionInput,
    /// A read of a write-ahead log segment. Segments are consumed once and deleted
    /// soon after, so they are not worth admitting to a cache.
    Wal,
    /// A cache warmup.
    Warmup,
    /// A read of transactional metadata. Some of these objects are mutable, so they
    /// are to be served from upstream.
    TransactionalMetadata,
}

impl ReadIntent {
    /// A read intent of the given kind, not a retry.
    pub fn new(kind: ReadKind) -> (r: ReadIntent)
        ensures
            r.kind == kind,
            r.retry is None,
    {
        ReadIntent { kind, retry: None }
    }

    /// A foreground read.
    pub fn foreground() -> (r: ReadIntent)
        ensures
            r.kind == ReadKind::Foreground,
            r.retry is None,
    {
        ReadIntent::new(ReadKind::Foreground)
    }

    /// A compaction input read.
    pub fn compaction_input() -> (r: ReadIntent)
        ensures
            r.kind == ReadKind::CompactionInput,
            r.retry is None,
    {
        ReadIntent::new(ReadKind::CompactionInput)
    }

    /// A write-ahead log read.
    pub fn wal() -> (r: ReadIntent)
        ensures
            r.kind == ReadKind::Wal,
            r.retry is None,
    {
        ReadIntent::new(ReadKind::Wal)
    }

    /// A cache warmup read.
    pub fn warmup() -> (r: ReadIntent)
        ensures
            r.kind == ReadKind::Warmup,
            r.retry is None,
    {
        ReadIntent::new(ReadKind::Warmup)
    }

    /// A read of transactional metadata.
    pub fn transactional_metadata() -> (r: ReadIntent)
        ensures
            r.kind == ReadKind::TransactionalMetadata,
            r.retry is None,
    {
        ReadIntent::new(ReadKind::TransactionalMetadata)
    }

    /// This intent marked as a retry for the given reason.
    pub fn with_retry(self, reason: RetryReason) -> (r: ReadIntent)
        ensures
            r.kind == self.kind,
            r.retry == Some(reason),
    {
        ReadIntent { kind: self.kind, retry: Some(reason) }
    }

    /// A fresh extensions map that carries this intent and no write intent.
    pub fn into_extensions(self) -> (r: Extensions)
        ensures
            read_intents(r) == seq![self],
            write_intents(r) == Seq::<WriteIntent>::empty(),
    {
        let mut extensions = Extensions::new();
        insert_read_intent(&mut extensions, self);
        extensions
    }

    /// The read intent that an extensions map carries, if any.
    pub fn from_extensions(extensions: &Extensions) -> (r: Option<ReadIntent>)
        ensures
            r is Some <==> read_intents(*extensions).len() > 0,
            r matches Some(intent) ==> read_intents(*extensions) == seq![intent],
    {
        get_read_intent(extensions)
    }
}

/// Why a read is reissued after a validation failure.
#[non_exhaustive]
#[derive(Clone, Copy, Debug, PartialEq, Eq, Structural)]
pub enum RetryReason {
    /// The previous response failed an SST checksum.
    CrcMismatch,
    /// The previous response could not be decoded as a valid SST section.
    BlockDecodeError,
    /// The previous response could not be decompressed.
    DecompressionError,
}

/// A write intent put into extensions is the intent read back from them.
pub proof fn lemma_write_intent_round_trip(e: Extensions, write: WriteIntent, back: WriteIntent)
    requires
        write_intents(e) == seq![write],
        write_intents(e) == seq![back],
    ensures
        back == write,
{
    assert(seq![write][0] == seq![back][0]);
}

/// A read intent put into extensions is the intent read back from them.
pub proof fn lemma_read_intent_round_trip(e: Extensions, read: ReadIntent, back: ReadIntent)
    requires
        read_intents(e) == seq![read],
        read_intents(e) == seq![back],
    ensures
        back == read,
{
    assert(seq![read][0] == seq![back][0]);
}

} // verus!
