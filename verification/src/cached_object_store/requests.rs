//! The steps of a request to the caching store. Each function takes what has just
//! happened and says what is to be done next; reading files and calling the store
//! behind the cache is up to the caller.

use crate::buffers;
use crate::cached_object_store::cached_store;
use crate::cached_object_store::cached_store::{CachedObjectStore, GetRange, InvalidGetRange};
use crate::cached_object_store::parts;
use crate::cached_object_store::parts::{PartID, PartSplitter};
use crate::object_store_intent;
use crate::object_store_intent::{ReadIntent, ReadKind, WriteIntent, WriteKind};
use crate::path::Path;
use bytes::Bytes;
use object_store::Extensions;
use std::ops::Range;
use vstd::arithmetic::div_mod::{lemma_small_mod, lemma_sub_mod_noop};
use vstd::prelude::*;

verus! {

/// How a GET is served.
#[derive(Clone, Copy, Debug, PartialEq, Eq, Structural)]
pub enum GetRoute {
    /// Metadata only, from the cache first.
    Head,
    /// From upstream, past the cache.
    Upstream,
    /// Drop the cached entry, then read through the cache.
    Refetch,
    /// Read through the cache.
    Cached,
}

/// Reads that would fill the cache with bytes that nobody reads again, or that must
/// not be served from it: compaction scans, write-ahead log segments and mutable
/// metadata.
pub open spec fn read_bypasses(kind: ReadKind) -> bool {
    kind == ReadKind::CompactionInput || kind == ReadKind::Wal || kind
        == ReadKind::TransactionalMetadata
}

/// Writes that are not worth admitting: short-lived log segments, rapidly
/// changing metadata, and bulk compaction output that would evict hotter entries.
pub open spec fn write_skips(kind: WriteKind) -> bool {
    kind == WriteKind::Wal || kind == WriteKind::TransactionalMetadata || kind
        == WriteKind::CompactionOutput
}

/// Whether a write with this intent goes to the cache.
pub open spec fn is_admitted(caches_puts: bool, intent: Option<WriteIntent>) -> bool {
    caches_puts && !(intent matches Some(i) && write_skips(i.kind))
}

pub open spec fn get_route_spec(head: bool, intent: Option<ReadIntent>) -> GetRoute {
    if head {
        GetRoute::Head
    } else {
        match intent {
            None => GetRoute::Cached,
            Some(i) => if read_bypasses(i.kind) {
                GetRoute::Upstream
            } else if i.retry is Some {
                GetRoute::Refetch
            } else {
                GetRoute::Cached
            },
        }
    }
}

/// The read intent that an extensions map carries.
pub open spec fn carried_read_intent(e: Extensions) -> Option<ReadIntent> {
    if object_store_intent::read_intents(e).len() > 0 {
        Some(object_store_intent::read_intents(e)[0])
    } else {
        None
    }
}

/// The write intent that an extensions map carries.
pub open spec fn carried_write_intent(e: Extensions) -> Option<WriteIntent> {
    if object_store_intent::write_intents(e).len() > 0 {
        Some(object_store_intent::write_intents(e)[0])
    } else {
        None
    }
}

/// How a GET with this read intent is served. Head requests go through the cache
/// whatever their intent: metadata is small and often read. A bypass comes before a
/// retry.
pub fn route_read_intent(head: bool, intent: Option<ReadIntent>) -> (r: GetRoute)
    ensures
        r == get_route_spec(head, intent),
{
    if head {
        return GetRoute::Head;
    }
    match intent {
        None => GetRoute::Cached,
        Some(i) => match i.kind {
            ReadKind::CompactionInput => GetRoute::Upstream,
            ReadKind::Wal => GetRoute::Upstream,
            ReadKind::TransactionalMetadata => GetRoute::Upstream,
            _ => if i.retry.is_some() {
                GetRoute::Refetch
            } else {
                GetRoute::Cached
            },
        },
    }
}

/// How a GET with these extensions is served.
pub fn route_get(head: bool, extensions: &Extensions) -> (r: GetRoute)
    ensures
        r == get_route_spec(head, carried_read_intent(*extensions)),
{
    route_read_intent(head, ReadIntent::from_extensions(extensions))
}

/// What a GET begins with.
pub enum OpenStep {
    /// Read the metadata, from the cache first.
    Head,
    /// Ask the store behind the cache, past the cache.
    Upstream,
    /// Drop what is cached under this location, then read through the cache.
    DropEntry { cache_location: Path },
    /// Read through the cache.
    Read,
}

/// What a GET on a given route begins with. While the root is unknown nothing can be cached,
/// and there is nothing to drop.
pub open spec fn is_open_step(
    store: CachedObjectStore,
    route: GetRoute,
    location: Seq<char>,
    step: OpenStep,
) -> bool {
    match route {
        GetRoute::Head => step is Head,
        GetRoute::Upstream => step is Upstream,
        GetRoute::Cached => step is Read,
        GetRoute::Refetch => match store.cache_key(location) {
            Some(key) => step matches OpenStep::DropEntry { cache_location } && cache_location@
                == key,
            None => step is Read,
        },
    }
}

/// The extensions that a fetch of one part carries: those of the read.
pub fn part_extensions(extensions: &Extensions) -> (r: Extensions)
    ensures
        object_store_intent::read_intents(r) == object_store_intent::read_intents(*extensions),
        object_store_intent::write_intents(r) == object_store_intent::write_intents(*extensions),
{
    extensions.clone()
}

/// What has happened to a read.
pub enum GetEvent {
    /// It has come in.
    Begin,
    /// The cached head was looked up: the size of the object, or nothing if the head
    /// is not cached or cannot be read.
    HeadRead(Option<u64>),
    /// The store behind the cache has answered the prefetch with the bytes of `range`, out of
    /// an object of `size` bytes.
    Fetched { meta_location: Path, size: u64, range: Range<u64> },
    /// The answer was saved, or was not admitted, or saving it has failed.
    Settled { size: u64 },
}

/// What to do next for a read.
pub enum GetStep {
    /// Look up the cached head.
    ReadHead { cache_location: Path },
    /// Ask the store behind the cache for this range.
    Fetch { aligned: Option<GetRange> },
    /// Save the answer to the cache.
    Save,
    /// Serve the request from the store behind the cache as it came in.
    PassThrough,
    /// Answer with `range`, read part by part.
    ReadParts { range: Range<u64>, parts: Vec<(PartID, Range<usize>)> },
    /// The range does not fit the object.
    Reject(InvalidGetRange),
}

/// A read of a location, whole or in a range.
pub struct GetRequest {
    pub location: Path,
    pub range: Option<GetRange>,
}

/// The prefetch asks for the range of the request, widened to whole parts.
pub open spec fn is_prefetch(step: GetStep, range: Option<GetRange>, part_size: int) -> bool {
    match range {
        None => step matches GetStep::Fetch { aligned: None },
        Some(wanted) => {
            &&& step matches GetStep::Fetch { aligned: Some(aligned) }
            &&& cached_store::is_aligned_get_range(aligned, wanted, part_size)
        },
    }
}

/// An answer with these bytes of an object can be cut into parts: it begins on a part, and ends
/// on one or with the object.
pub open spec fn is_saveable(range: Range<u64>, size: u64, part_size: int) -> bool {
    &&& range.start as int % part_size == 0
    &&& range.end as int % part_size == 0 || range.end == size
}

/// What a read of an object of known size is answered with.
pub open spec fn is_answer(
    store: CachedObjectStore,
    request: GetRequest,
    size: u64,
    step: GetStep,
) -> bool {
    if store.root() is None {
        step is PassThrough
    } else {
        match cached_store::canonical_range(request.range, size) {
            Err(e) => step == GetStep::Reject(e),
            Ok(range) => {
                &&& step matches GetStep::ReadParts { range: got, parts: out }
                &&& got == range
                &&& cached_store::are_spans(
                    out@,
                    parts::part_spans(range.start as int, range.end as int, store.part_size()),
                )
            },
        }
    }
}

/// The two stores differ at most in the root.
pub open spec fn same_but_root(a: CachedObjectStore, b: CachedObjectStore) -> bool {
    a.part_size() == b.part_size() && a.caches_puts() == b.caches_puts()
}

pub open spec fn same_store(a: CachedObjectStore, b: CachedObjectStore) -> bool {
    same_but_root(a, b) && a.root() == b.root()
}

/// `after` has learnt its root, if `before` had none, from an answer for
/// `meta_location` to a request for `requested`.
pub open spec fn has_resolved(
    before: CachedObjectStore,
    after: CachedObjectStore,
    requested: Seq<char>,
    meta_location: Seq<char>,
) -> bool {
    &&& same_but_root(before, after)
    &&& after.root() == if before.root() is Some {
        before.root()
    } else {
        cached_store::inferred_root(requested, meta_location)
    }
}

/// The step that follows an event of a read.
pub open spec fn is_get_step(
    before: CachedObjectStore,
    after: CachedObjectStore,
    request: GetRequest,
    event: GetEvent,
    step: GetStep,
) -> bool {
    match event {
        GetEvent::Begin => {
            &&& same_store(before, after)
            &&& match before.cache_key(request.location@) {
                Some(key) => step matches GetStep::ReadHead { cache_location }
                    && cache_location@ == key,
                None => is_prefetch(step, request.range, before.part_size()),
            }
        },
        GetEvent::HeadRead(None) => {
            &&& same_store(before, after)
            &&& is_prefetch(step, request.range, before.part_size())
        },
        GetEvent::HeadRead(Some(size)) => {
            &&& same_store(before, after)
            &&& is_answer(before, request, size, step)
        },
        GetEvent::Fetched { meta_location, size, range } => {
            &&& has_resolved(before, after, request.location@, meta_location@)
            &&& if after.cache_key(request.location@) == Some(meta_location@) && is_saveable(
                range,
                size,
                after.part_size(),
            ) {
                step is Save
            } else {
                is_answer(after, request, size, step)
            }
        },
        GetEvent::Settled { size } => {
            &&& same_store(before, after)
            &&& is_answer(before, request, size, step)
        },
    }
}

/// Every part up to the byte `end` has a number.
pub open spec fn is_addressable(end: u64, part_size: int) -> bool {
    &&& parts::align_up(end as int, part_size) <= u64::MAX
    &&& parts::parts_needed(end as int, part_size) - 1 <= usize::MAX
}

/// The parts that the request touches in an object of `size` bytes have numbers.
pub open spec fn is_answerable(request: GetRequest, size: u64, part_size: int) -> bool {
    cached_store::canonical_range(request.range, size) matches Ok(range) ==> is_addressable(
        range.end,
        part_size,
    )
}

/// The range of the request, if it has one, can be widened to whole parts.
pub open spec fn can_prefetch(range: Option<GetRange>, part_size: int) -> bool {
    match range {
        None => true,
        Some(wanted) => cached_store::can_align(wanted, part_size),
    }
}

/// What the arithmetic of a step needs: that the range can be widened, and that the parts
/// of the answer have numbers.
pub open spec fn event_in_range(request: GetRequest, event: GetEvent, part_size: int) -> bool {
    match event {
        GetEvent::Begin | GetEvent::HeadRead(None) => can_prefetch(request.range, part_size),
        GetEvent::HeadRead(Some(size)) => is_answerable(request, size, part_size),
        GetEvent::Fetched { size, .. } => is_answerable(request, size, part_size),
        GetEvent::Settled { size } => is_answerable(request, size, part_size),
    }
}

impl CachedObjectStore {
    /// What a GET with these extensions begins with. A read that is reissued because its bytes
    /// were corrupt drops the cached entry first, so that it is not served again.
    pub fn open_get(&self, head: bool, extensions: &Extensions, location: &Path) -> (r: OpenStep)
        ensures
            is_open_step(
                *self,
                get_route_spec(head, carried_read_intent(*extensions)),
                location@,
                r,
            ),
    {
        match route_get(head, extensions) {
            GetRoute::Head => OpenStep::Head,
            GetRoute::Upstream => OpenStep::Upstream,
            GetRoute::Cached => OpenStep::Read,
            GetRoute::Refetch => match self.cache_location_for(location) {
                Some(cache_location) => OpenStep::DropEntry { cache_location },
                None => OpenStep::Read,
            },
        }
    }

    fn prefetch_step(&self, request: &GetRequest) -> (r: GetStep)
        requires
            can_prefetch(request.range, self.part_size()),
        ensures
            is_prefetch(r, request.range, self.part_size()),
    {
        match &request.range {
            None => GetStep::Fetch { aligned: None },
            Some(range) => GetStep::Fetch { aligned: Some(self.align_get_range(range)) },
        }
    }

    fn answer_step(&self, request: &GetRequest, size: u64) -> (r: GetStep)
        requires
            is_answerable(*request, size, self.part_size()),
        ensures
            is_answer(*self, *request, size, r),
    {
        if self.cache_location_for(&request.location).is_none() {
            return GetStep::PassThrough;
        }
        let wanted = match &request.range {
            None => None,
            Some(range) => Some(range.clone()),
        };
        match self.canonicalize_range(wanted, size) {
            Err(e) => GetStep::Reject(e),
            Ok(range) => {
                let out = self.split_range_into_parts(Range { start: range.start, end: range.end });
                GetStep::ReadParts { range, parts: out }
            },
        }
    }

    /// The next step of a read after `event`.
    ///
    /// A read looks for the cached head first. If there is none, it prefetches its
    /// range, widened to whole parts, and offers the answer to the cache. The answer
    /// to a range that is counted from the end may begin inside a part, where the
    /// object does not end on one; it is not saved then. Once the size is known the
    /// read goes part by part, or past the cache while the root is unknown.
    pub fn next_get_step(&mut self, request: &GetRequest, event: GetEvent) -> (r: GetStep)
        requires
            event_in_range(*request, event, old(self).part_size()),
        ensures
            is_get_step(*old(self), *final(self), *request, event, r),
    {
        match event {
            GetEvent::Begin => match self.cache_location_for(&request.location) {
                Some(cache_location) => GetStep::ReadHead { cache_location },
                None => self.prefetch_step(request),
            },
            GetEvent::HeadRead(found) => match found {
                None => self.prefetch_step(request),
                Some(size) => self.answer_step(request, size),
            },
            GetEvent::Fetched { meta_location, size, range } => {
                let own = self.resolve_root(&request.location, &meta_location);
                if own && self.can_save(&range, size) {
                    GetStep::Save
                } else {
                    self.answer_step(request, size)
                }
            },
            GetEvent::Settled { size } => self.answer_step(request, size),
        }
    }
}

/// What has happened to a read of metadata.
pub enum HeadEvent {
    /// It has come in.
    Begin,
    /// The cached head was looked up, and was there or not.
    HeadRead { found: bool },
    /// The store behind the cache has answered.
    Fetched { meta_location: Path },
    /// The answer was saved, or was not admitted, or saving it has failed.
    Settled,
}

/// What to do next for a read of metadata.
pub enum HeadStep {
    /// Look up the cached head.
    ReadHead { cache_location: Path },
    /// Ask the store behind the cache for the metadata, without a range.
    Fetch,
    /// Save the answer to the cache.
    Save,
    /// Answer with the metadata at hand and an empty payload.
    Answer,
}

/// The step that follows an event of a read of metadata.
pub open spec fn is_head_step(
    before: CachedObjectStore,
    after: CachedObjectStore,
    location: Path,
    event: HeadEvent,
    step: HeadStep,
) -> bool {
    match event {
        HeadEvent::Begin => {
            &&& same_store(before, after)
            &&& match before.cache_key(location@) {
                Some(key) => step matches HeadStep::ReadHead { cache_location }
                    && cache_location@ == key,
                None => step is Fetch,
            }
        },
        HeadEvent::HeadRead { found } => {
            &&& same_store(before, after)
            &&& if found {
                step is Answer
            } else {
                step is Fetch
            }
        },
        HeadEvent::Fetched { meta_location } => {
            &&& has_resolved(before, after, location@, meta_location@)
            &&& if after.cache_key(location@) == Some(meta_location@) {
                step is Save
            } else {
                step is Answer
            }
        },
        HeadEvent::Settled => same_store(before, after) && step is Answer,
    }
}

/// What has happened to a read of one part.
pub enum PartEvent {
    /// It has come in.
    Begin,
    /// The part is not cached or cannot be read.
    Missed,
    /// The store behind the cache has answered with the whole part.
    Fetched { meta_location: Path },
}

/// What to do next for a read of one part.
pub enum PartStep {
    /// Read the part from the cache; what is found there is the answer.
    ReadCached { cache_location: Path },
    /// Ask the store behind the cache for the whole part.
    Fetch { range: GetRange },
    /// Save head and part under this location, then answer with what was fetched.
    SaveAndDeliver { cache_location: Path },
    /// Answer with what was fetched.
    Deliver,
}

/// The bytes of an object that make up part `part_id`, if the object is that long.
pub open spec fn is_part_fetch(step: PartStep, part_id: PartID, part_size: int) -> bool {
    step matches PartStep::Fetch { range: GetRange::Bounded(range) } && range.start == part_id
        * part_size && range.end == (part_id + 1) * part_size
}

/// The step that follows an event of a read of one part.
pub open spec fn is_part_step(
    before: CachedObjectStore,
    after: CachedObjectStore,
    location: Path,
    part_id: PartID,
    event: PartEvent,
    step: PartStep,
) -> bool {
    match event {
        PartEvent::Begin => {
            &&& same_store(before, after)
            &&& match before.cache_key(location@) {
                Some(key) => step matches PartStep::ReadCached { cache_location }
                    && cache_location@ == key,
                None => is_part_fetch(step, part_id, before.part_size()),
            }
        },
        PartEvent::Missed => {
            &&& same_store(before, after)
            &&& is_part_fetch(step, part_id, before.part_size())
        },
        PartEvent::Fetched { meta_location } => {
            &&& has_resolved(before, after, location@, meta_location@)
            &&& if after.cache_key(location@) == Some(meta_location@) {
                step matches PartStep::SaveAndDeliver { cache_location } && cache_location@
                    == meta_location@
            } else {
                step is Deliver
            }
        },
    }
}

impl CachedObjectStore {
    /// The next step of a read of metadata after `event`.
    pub fn next_head_step(&mut self, location: &Path, event: HeadEvent) -> (r: HeadStep)
        ensures
            is_head_step(*old(self), *final(self), *location, event, r),
    {
        match event {
            HeadEvent::Begin => match self.cache_location_for(location) {
                Some(cache_location) => HeadStep::ReadHead { cache_location },
                None => HeadStep::Fetch,
            },
            HeadEvent::HeadRead { found } => if found {
                HeadStep::Answer
            } else {
                HeadStep::Fetch
            },
            HeadEvent::Fetched { meta_location } => {
                if self.resolve_root(location, &meta_location) {
                    HeadStep::Save
                } else {
                    HeadStep::Answer
                }
            },
            HeadEvent::Settled => HeadStep::Answer,
        }
    }

    fn part_fetch_step(&self, part_id: PartID) -> (r: PartStep)
        requires
            (part_id + 1) * self.part_size() <= usize::MAX,
        ensures
            is_part_fetch(r, part_id, self.part_size()),
    {
        let part_size: usize = self.part_size_bytes();
        proof {
            assert((part_id + 1) * part_size == part_id * part_size + part_size)
                by (nonlinear_arith);
            assert(part_id + 1 <= (part_id + 1) * part_size) by (nonlinear_arith)
                requires
                    part_size > 0,
            ;
        }
        let start: usize = part_id * part_size;
        let end: usize = (part_id + 1) * part_size;
        PartStep::Fetch { range: GetRange::Bounded(Range { start: start as u64, end: end as u64 }) }
    }

    /// The next step of a read of one part after `event`. Where the part is fetched, its end
    /// must be a number that fits.
    pub fn next_part_step(&mut self, location: &Path, part_id: PartID, event: PartEvent) -> (r:
        PartStep)
        requires
            event is Missed || (event is Begin && old(self).root() is None) ==> (part_id + 1) * old(
                self,
            ).part_size() <= usize::MAX,
        ensures
            is_part_step(*old(self), *final(self), *location, part_id, event, r),
    {
        match event {
            PartEvent::Begin => match self.cache_location_for(location) {
                Some(cache_location) => PartStep::ReadCached { cache_location },
                None => self.part_fetch_step(part_id),
            },
            PartEvent::Missed => self.part_fetch_step(part_id),
            PartEvent::Fetched { meta_location } => {
                if self.resolve_root(location, &meta_location) {
                    match self.cache_location_for(location) {
                        Some(cache_location) => PartStep::SaveAndDeliver { cache_location },
                        None => PartStep::Deliver,
                    }
                } else {
                    PartStep::Deliver
                }
            },
        }
    }

    /// Whether a write with this intent also goes to the cache. Untagged writes do.
    pub fn admits_write_intent(&self, intent: Option<WriteIntent>) -> (r: bool)
        ensures
            r <==> is_admitted(self.caches_puts(), intent),
    {
        if !self.cache_puts() {
            return false;
        }
        match intent {
            None => true,
            Some(i) => match i.kind {
                WriteKind::Wal => false,
                WriteKind::TransactionalMetadata => false,
                WriteKind::CompactionOutput => false,
                _ => true,
            },
        }
    }

    /// Whether a write with these extensions also goes to the cache.
    pub fn admits_put(&self, extensions: &Extensions) -> (r: bool)
        ensures
            r <==> is_admitted(self.caches_puts(), carried_write_intent(*extensions)),
    {
        self.admits_write_intent(WriteIntent::from_extensions(extensions))
    }

    /// Whether an answer with this range can be saved part by part.
    pub fn can_save(&self, range: &Range<u64>, object_size: u64) -> (r: bool)
        ensures
            r == is_saveable(*range, object_size, self.part_size()),
    {
        let part_size: u64 = self.part_size_bytes() as u64;
        range.start % part_size == 0 && (range.end % part_size == 0 || range.end == object_size)
    }

    /// The splitter through which the bytes of an answer go to the cache. The range of
    /// the answer must begin on a part and end on one, or at the end of the object.
    pub fn save_splitter(&self, range: &Range<u64>, object_size: u64) -> (r: PartSplitter)
        requires
            is_saveable(*range, object_size, self.part_size()),
            range.start as int / self.part_size() <= usize::MAX,
        ensures
            r.part_size() == self.part_size(),
            r.next_part() == range.start as int / self.part_size(),
            r.held() == Seq::<u8>::empty(),
            r.total() == 0,
    {
        let part_size: usize = self.part_size_bytes();
        let start_part: u64 = range.start / part_size as u64;
        PartSplitter::new(part_size, start_part as usize)
    }
}

/// The bytes that a reader wanted out of a whole part, in memory of their own.
pub fn slice_part(part: &Bytes, range_in_part: &Range<usize>) -> (r: Bytes)
    requires
        range_in_part.start <= range_in_part.end <= buffers::bytes_contents(*part).len(),
    ensures
        buffers::bytes_contents(r) == buffers::bytes_contents(*part).subrange(
            range_in_part.start as int,
            range_in_part.end as int,
        ),
{
    let wanted = buffers::bytes_slice(part, range_in_part.start, range_in_part.end);
    buffers::bytes_copy(&wanted)
}

/// A prefetch brings all that the request asks for. What it brings can be saved part by part,
/// unless the request counts from the end of an object that does not end on a part, and does
/// not reach back to its beginning.
pub proof fn lemma_prefetch_covers_request(
    range: Option<GetRange>,
    step: GetStep,
    size: u64,
    part_size: int,
)
    requires
        part_size > 0,
        is_prefetch(step, range, part_size),
        cached_store::canonical_range(range, size) is Ok,
    ensures
        step is Fetch,
        ({
            let wanted = cached_store::canonical_range(range, size)->Ok_0;
            let brought = cached_store::canonical_range(step->aligned, size);
            &&& brought is Ok
            &&& brought->Ok_0.start <= wanted.start && wanted.end <= brought->Ok_0.end
            &&& brought->Ok_0.end as int % part_size == 0 || brought->Ok_0.end == size
            &&& !is_saveable(brought->Ok_0, size, part_size) ==> range is Some && range->0 is Suffix
                && brought->Ok_0.start > 0 && size as int % part_size != 0
        }),
{
    match range {
        Some(GetRange::Bounded(b)) => {
            parts::lemma_parts_needed(b.start as int, part_size);
            parts::lemma_parts_needed(b.end as int, part_size);
        },
        Some(GetRange::Offset(o)) => {
            parts::lemma_parts_needed(o as int, part_size);
        },
        Some(GetRange::Suffix(s)) => {
            parts::lemma_parts_needed(s as int, part_size);
            let wide = parts::align_up(s as int, part_size);
            if size as int % part_size == 0 && wide <= size {
                lemma_sub_mod_noop(size as int, wide, part_size);
            }
            lemma_small_mod(0, part_size as nat);
        },
        None => {
            lemma_small_mod(0, part_size as nat);
        },
    }
}

/// An answer goes to the cache only under its own location, be it to a read of bytes, of
/// metadata, or of one part.
pub proof fn lemma_save_only_under_own_location(
    before: CachedObjectStore,
    after: CachedObjectStore,
    request: GetRequest,
    part_id: PartID,
    meta_location: Path,
    size: u64,
    range: Range<u64>,
    get_step: GetStep,
    head_step: HeadStep,
    part_step: PartStep,
)
    ensures
        is_get_step(
            before,
            after,
            request,
            (GetEvent::Fetched { meta_location, size, range }),
            get_step,
        ) && get_step is Save ==> after.cache_key(request.location@) == Some(meta_location@)
            && is_saveable(range, size, after.part_size()),
        is_head_step(
            before,
            after,
            request.location,
            (HeadEvent::Fetched { meta_location }),
            head_step,
        ) && head_step is Save ==> after.cache_key(request.location@) == Some(meta_location@),
        is_part_step(
            before,
            after,
            request.location,
            part_id,
            (PartEvent::Fetched { meta_location }),
            part_step,
        ) && part_step is SaveAndDeliver ==> after.cache_key(request.location@) == Some(
            meta_location@,
        ) && part_step->SaveAndDeliver_cache_location@ == meta_location@,
{
}

/// Once the root is known it stays what it is, whatever happens to a read of bytes, of
/// metadata, or of one part.
pub proof fn lemma_root_is_stable(
    before: CachedObjectStore,
    after: CachedObjectStore,
    request: GetRequest,
    get_event: GetEvent,
    get_step: GetStep,
    head_event: HeadEvent,
    head_step: HeadStep,
    part_id: PartID,
    part_event: PartEvent,
    part_step: PartStep,
)
    requires
        before.root() is Some,
        is_get_step(before, after, request, get_event, get_step) || is_head_step(
            before,
            after,
            request.location,
            head_event,
            head_step,
        ) || is_part_step(before, after, request.location, part_id, part_event, part_step),
    ensures
        after.root() == before.root(),
{
}

/// What a fetch of one part asks for is that part of the object.
pub proof fn lemma_part_fetch_is_part(data: Seq<u8>, part_id: PartID, part_size: int, step: PartStep)
    requires
        part_size > 0,
        data.len() <= u64::MAX,
        part_id * part_size < data.len(),
        is_part_fetch(step, part_id, part_size),
    ensures
        ({
            let range = cached_store::canonical_range(Some(step->Fetch_range), data.len() as u64);
            &&& range is Ok
            &&& data.subrange(range->Ok_0.start as int, range->Ok_0.end as int) == parts::part_of(
                data,
                part_id as int,
                part_size,
            )
        }),
{
    assert((part_id + 1) * part_size == part_id * part_size + part_size) by (nonlinear_arith);
}

/// A read through the cache gives back the bytes of the object: when each part is
/// read as the object holds it, the pieces of the answer, one after the other, are
/// the range that the request stands for.
pub proof fn lemma_read_back(
    store: CachedObjectStore,
    data: Seq<u8>,
    request: GetRequest,
    step: GetStep,
    pieces: Seq<Seq<u8>>,
)
    requires
        store.part_size() > 0,
        data.len() <= u64::MAX,
        store.root() is Some,
        is_answer(store, request, data.len() as u64, step),
        step matches GetStep::ReadParts { parts: out, .. } ==> {
            &&& pieces.len() == out@.len()
            &&& forall|i: int|
                0 <= i < out@.len() ==> #[trigger] pieces[i] == parts::part_of(
                    data,
                    out@[i].0 as int,
                    store.part_size(),
                ).subrange(out@[i].1.start as int, out@[i].1.end as int)
        },
    ensures
        step matches GetStep::ReadParts { range, .. } ==> pieces.flatten() == data.subrange(
            range.start as int,
            range.end as int,
        ),
        cached_store::canonical_range(request.range, data.len() as u64) matches Ok(range)
            ==> step matches GetStep::ReadParts { range: got, .. } && got == range,
{
    if let GetStep::ReadParts { range, parts: out } = step {
        let spans = parts::part_spans(range.start as int, range.end as int, store.part_size());
        assert(pieces =~= parts::span_pieces(data, spans, store.part_size())) by {
            assert forall|i: int| 0 <= i < pieces.len() implies pieces[i] == parts::span_pieces(
                data,
                spans,
                store.part_size(),
            )[i] by {
                assert(out@[i].0 == spans[i].0);
            }
        }
        parts::lemma_spans_read_back(data, range.start as int, range.end as int, store.part_size());
    }
}

/// What was saved is what is read: when an answer that holds the range of a request was cut
/// into parts as it came in, in whatever chunks, and saved under the numbers of its parts, a
/// read through the cache finds every part that it needs and gives back the bytes of the
/// object.
pub proof fn lemma_saved_then_read(
    store: CachedObjectStore,
    data: Seq<u8>,
    answer: Range<u64>,
    chunks: Seq<Seq<u8>>,
    request: GetRequest,
    step: GetStep,
    pieces: Seq<Seq<u8>>,
)
    requires
        store.part_size() > 0,
        data.len() <= u64::MAX,
        store.root() is Some,
        answer.start <= answer.end <= data.len(),
        is_saveable(answer, data.len() as u64, store.part_size()),
        chunks.flatten() == data.subrange(answer.start as int, answer.end as int),
        is_answer(store, request, data.len() as u64, step),
        step matches GetStep::ReadParts { range, parts: out } && answer.start <= range.start
            && range.end <= answer.end && pieces.len() == out@.len(),
        ({
            let saved = parts::saved_parts(chunks, store.part_size());
            let first = answer.start as int / store.part_size();
            forall|i: int|
                0 <= i < pieces.len() ==> #[trigger] pieces[i] == saved[step->parts@[i].0
                    - first].subrange(
                    step->parts@[i].1.start as int,
                    step->parts@[i].1.end as int,
                )
        }),
    ensures
        forall|i: int|
            0 <= i < pieces.len() ==> 0 <= (#[trigger] step->parts@[i]).0 - answer.start as int
                / store.part_size() < parts::saved_parts(chunks, store.part_size()).len(),
        pieces.flatten() == data.subrange(
            step->ReadParts_range.start as int,
            step->ReadParts_range.end as int,
        ),
{
    let size = store.part_size();
    let first = answer.start as int / size;
    let slice = data.subrange(answer.start as int, answer.end as int);
    let range = step->ReadParts_range;
    let out = step->parts@;
    let spans = parts::part_spans(range.start as int, range.end as int, size);
    parts::lemma_stream_parts(chunks, size);
    parts::lemma_aligned_slice_parts(data, answer.start as int, answer.end as int, size);
    parts::lemma_spans_stay_inside(
        range.start as int,
        range.end as int,
        answer.start as int,
        answer.end as int,
        size,
    );
    assert forall|i: int| 0 <= i < pieces.len() implies {
        &&& 0 <= (#[trigger] out[i]).0 - first < parts::saved_parts(chunks, size).len()
        &&& pieces[i] == parts::part_of(data, out[i].0 as int, size).subrange(
            out[i].1.start as int,
            out[i].1.end as int,
        )
    } by {
        assert(out[i].0 == spans[i].0);
        assert(parts::all_parts(slice, size)[out[i].0 - first] == parts::part_of(
            data,
            first + (out[i].0 - first),
            size,
        ));
    }
    lemma_read_back(store, data, request, step, pieces);
}

/// The cached parts of one object, by number.
pub type CachedParts = Map<int, Seq<u8>>;

/// What is cached are parts of the object `data`.
pub open spec fn caches_only(entry: CachedParts, data: Seq<u8>, part_size: int) -> bool {
    forall|k: int| #[trigger]
        entry.contains_key(k) ==> entry[k] == parts::part_of(data, k, part_size)
}

/// The bytes of part `part_id` as a read gets them: those that are cached, or, where the part
/// is not cached, those of the range that its fetch asks the store for, which holds `data`.
pub open spec fn is_part_read(
    bytes: Seq<u8>,
    entry: CachedParts,
    data: Seq<u8>,
    part_id: PartID,
    part_size: int,
) -> bool {
    if entry.contains_key(part_id as int) {
        bytes == entry[part_id as int]
    } else {
        exists|fetch: PartStep| #[trigger]
            is_part_fetch(fetch, part_id, part_size) && (cached_store::canonical_range(
                Some(fetch->Fetch_range),
                data.len() as u64,
            ) matches Ok(range) ==> bytes == data.subrange(range.start as int, range.end as int))
    }
}

/// The pieces of an answer, each cut out of a part that was read.
pub open spec fn are_pieces(
    pieces: Seq<Seq<u8>>,
    out: Seq<(PartID, Range<usize>)>,
    entry: CachedParts,
    data: Seq<u8>,
    part_size: int,
) -> bool {
    &&& pieces.len() == out.len()
    &&& forall|i: int|
        0 <= i < out.len() ==> is_piece(#[trigger] pieces[i], out[i], entry, data, part_size)
}

pub open spec fn is_piece(
    piece: Seq<u8>,
    span: (PartID, Range<usize>),
    entry: CachedParts,
    data: Seq<u8>,
    part_size: int,
) -> bool {
    exists|bytes: Seq<u8>| #[trigger]
        is_part_read(bytes, entry, data, span.0, part_size) && piece == bytes.subrange(
            span.1.start as int,
            span.1.end as int,
        )
}

/// The event tells that the object has `size` bytes.
pub open spec fn tells_size(event: GetEvent, size: int) -> bool {
    match event {
        GetEvent::Begin | GetEvent::HeadRead(None) => false,
        GetEvent::HeadRead(Some(s)) => s == size,
        GetEvent::Fetched { size: s, .. } => s == size,
        GetEvent::Settled { size: s } => s == size,
    }
}

/// The parts that a range touches all begin inside the object.
proof fn lemma_spans_begin_inside(start: int, end: int, part_size: int, i: int)
    requires
        part_size > 0,
        0 <= start <= end,
        0 <= i < parts::part_spans(start, end, part_size).len(),
    ensures
        0 <= parts::part_spans(start, end, part_size)[i].0,
        parts::part_spans(start, end, part_size)[i].0 * part_size < end,
{
    parts::lemma_parts_needed(start, part_size);
    parts::lemma_parts_needed(end, part_size);
    let k = parts::part_spans(start, end, part_size)[i].0;
    let after = parts::parts_needed(end, part_size);
    assert(k * part_size <= (after - 1) * part_size) by (nonlinear_arith)
        requires
            k <= after - 1,
            part_size > 0,
    ;
    assert((after - 1) * part_size == after * part_size - part_size) by (nonlinear_arith);
}

/// A read through the cache is answered as the store behind it would answer, whatever parts
/// are cached: with the same range and the same bytes, or with the same refusal. While the root
/// is unknown the store answers itself.
pub proof fn lemma_read_equals_store(
    before: CachedObjectStore,
    after: CachedObjectStore,
    request: GetRequest,
    event: GetEvent,
    step: GetStep,
    data: Seq<u8>,
    entry: CachedParts,
    pieces: Seq<Seq<u8>>,
)
    requires
        after.part_size() > 0,
        data.len() <= u64::MAX,
        is_get_step(before, after, request, event, step),
        tells_size(event, data.len() as int),
        !(step is Save),
        caches_only(entry, data, after.part_size()),
        step matches GetStep::ReadParts { parts: out, .. } ==> are_pieces(
            pieces,
            out@,
            entry,
            data,
            after.part_size(),
        ),
    ensures
        after.root() is None <==> step is PassThrough,
        after.root() is Some ==> match cached_store::canonical_range(
            request.range,
            data.len() as u64,
        ) {
            Err(e) => step == GetStep::Reject(e),
            Ok(range) => step matches GetStep::ReadParts { range: got, .. } && got == range
                && pieces.flatten() == data.subrange(range.start as int, range.end as int),
        },
{
    let size = after.part_size();
    assert(is_answer(after, request, data.len() as u64, step));
    if let GetStep::ReadParts { range, parts: out } = step {
        let spans = parts::part_spans(range.start as int, range.end as int, size);
        assert forall|i: int| 0 <= i < out@.len() implies #[trigger] pieces[i] == parts::part_of(
            data,
            out@[i].0 as int,
            size,
        ).subrange(out@[i].1.start as int, out@[i].1.end as int) by {
            let id = out@[i].0;
            assert(is_piece(pieces[i], out@[i], entry, data, size));
            let bytes = choose|bytes: Seq<u8>| #[trigger]
                is_part_read(bytes, entry, data, id, size) && pieces[i] == bytes.subrange(
                    out@[i].1.start as int,
                    out@[i].1.end as int,
                );
            assert(id == spans[i].0);
            lemma_spans_begin_inside(range.start as int, range.end as int, size, i);
            if !entry.contains_key(id as int) {
                let fetch = choose|fetch: PartStep| #[trigger]
                    is_part_fetch(fetch, id, size) && (cached_store::canonical_range(
                        Some(fetch->Fetch_range),
                        data.len() as u64,
                    ) matches Ok(got) ==> bytes == data.subrange(
                        got.start as int,
                        got.end as int,
                    ));
                lemma_part_fetch_is_part(data, id, size, fetch);
            }
        }
        lemma_read_back(after, data, request, step, pieces);
    }
}

/// What is cached after parts were saved under the numbers from `first` on.
pub open spec fn with_saved(entry: CachedParts, first: int, saved: Seq<Seq<u8>>) -> CachedParts {
    Map::new(
        |k: int| entry.contains_key(k) || 0 <= k - first < saved.len(),
        |k: int|
            if 0 <= k - first < saved.len() {
                saved[k - first]
            } else {
                entry[k]
            },
    )
}

/// A cache that holds only parts of an object keeps doing so when an answer of the store is
/// saved that begins on a part and ends on one or with the object, in whatever chunks it comes
/// in, and also when only the first `n` parts of it get there.
pub proof fn lemma_save_keeps_cache_true(
    entry: CachedParts,
    data: Seq<u8>,
    answer: Range<u64>,
    chunks: Seq<Seq<u8>>,
    n: int,
    part_size: int,
)
    requires
        part_size > 0,
        caches_only(entry, data, part_size),
        answer.start <= answer.end <= data.len(),
        data.len() <= u64::MAX,
        is_saveable(answer, data.len() as u64, part_size),
        chunks.flatten() == data.subrange(answer.start as int, answer.end as int),
        0 <= n <= parts::saved_parts(chunks, part_size).len(),
    ensures
        caches_only(
            with_saved(
                entry,
                answer.start as int / part_size,
                parts::saved_parts(chunks, part_size).take(n),
            ),
            data,
            part_size,
        ),
{
    let first = answer.start as int / part_size;
    let slice = data.subrange(answer.start as int, answer.end as int);
    parts::lemma_stream_parts(chunks, part_size);
    parts::lemma_aligned_slice_parts(data, answer.start as int, answer.end as int, part_size);
    let after = with_saved(entry, first, parts::saved_parts(chunks, part_size).take(n));
    assert forall|k: int| #[trigger] after.contains_key(k) implies after[k] == parts::part_of(
        data,
        k,
        part_size,
    ) by {
        if 0 <= k - first < n {
            assert(parts::all_parts(slice, part_size)[k - first] == parts::part_of(
                data,
                first + (k - first),
                part_size,
            ));
        } else {
            assert(entry.contains_key(k));
        }
    }
}

/// A cache that holds only parts of an object keeps doing so when the answer to the fetch of
/// one part is saved under the number of that part.
pub proof fn lemma_part_save_keeps_cache_true(
    entry: CachedParts,
    data: Seq<u8>,
    part_id: PartID,
    part_size: int,
    fetch: PartStep,
)
    requires
        part_size > 0,
        data.len() <= u64::MAX,
        part_id * part_size < data.len(),
        caches_only(entry, data, part_size),
        is_part_fetch(fetch, part_id, part_size),
    ensures
        ({
            let range = cached_store::canonical_range(Some(fetch->Fetch_range), data.len() as u64);
            caches_only(
                entry.insert(
                    part_id as int,
                    data.subrange(range->Ok_0.start as int, range->Ok_0.end as int),
                ),
                data,
                part_size,
            )
        }),
{
    lemma_part_fetch_is_part(data, part_id, part_size, fetch);
}

/// What is cached under a key.
pub open spec fn entry_of(cache: Map<Seq<char>, CachedParts>, key: Seq<char>) -> CachedParts {
    if cache.contains_key(key) {
        cache[key]
    } else {
        CachedParts::empty()
    }
}

/// The cache after the first step of a GET.
pub open spec fn opened(
    cache: Map<Seq<char>, CachedParts>,
    open: OpenStep,
) -> Map<Seq<char>, CachedParts> {
    match open {
        OpenStep::DropEntry { cache_location } => cache.remove(cache_location@),
        _ => cache,
    }
}

/// A read that is reissued because its bytes were corrupt never sees them again: whatever was
/// cached, it gives the bytes that the store holds now, and what is left in the cache under its
/// key is nothing but parts of those, so that later reads give them too. Other entries stay.
pub proof fn lemma_retry_reads_afresh(
    before: CachedObjectStore,
    after: CachedObjectStore,
    intent: ReadIntent,
    open: OpenStep,
    request: GetRequest,
    event: GetEvent,
    step: GetStep,
    data: Seq<u8>,
    cache: Map<Seq<char>, CachedParts>,
    pieces: Seq<Seq<u8>>,
)
    requires
        before.root() is Some,
        before.part_size() > 0,
        data.len() <= u64::MAX,
        intent.retry is Some,
        !read_bypasses(intent.kind),
        is_open_step(before, get_route_spec(false, Some(intent)), request.location@, open),
        is_get_step(before, after, request, event, step),
        tells_size(event, data.len() as int),
        !(step is Save),
        step matches GetStep::ReadParts { parts: out, .. } ==> are_pieces(
            pieces,
            out@,
            entry_of(opened(cache, open), before.cache_key(request.location@)->0),
            data,
            before.part_size(),
        ),
    ensures
        opened(cache, open) == cache.remove(before.cache_key(request.location@)->0),
        caches_only(
            entry_of(opened(cache, open), before.cache_key(request.location@)->0),
            data,
            before.part_size(),
        ),
        cached_store::canonical_range(request.range, data.len() as u64) matches Ok(range)
            ==> step is ReadParts && pieces.flatten() == data.subrange(
            range.start as int,
            range.end as int,
        ),
{
    let key = before.cache_key(request.location@)->0;
    let entry = entry_of(opened(cache, open), key);
    assert(entry =~= CachedParts::empty());
    lemma_read_equals_store(before, after, request, event, step, data, entry, pieces);
}

/// Where each kind of read goes. A read of metadata goes the way of the heads, whatever its
/// intent; compaction input, the write-ahead log and transactional metadata come from upstream,
/// retry or not; foreground reads and warmups go through the cache, as do reads without an
/// intent, and drop what is cached first if they are retries.
pub proof fn lemma_read_routes(intent: Option<ReadIntent>)
    ensures
        get_route_spec(true, intent) == GetRoute::Head,
        intent is None ==> get_route_spec(false, intent) == GetRoute::Cached,
        intent matches Some(i) ==> match i.kind {
            ReadKind::CompactionInput => get_route_spec(false, intent) == GetRoute::Upstream,
            ReadKind::Wal => get_route_spec(false, intent) == GetRoute::Upstream,
            ReadKind::TransactionalMetadata => get_route_spec(false, intent) == GetRoute::Upstream,
            ReadKind::Foreground | ReadKind::Warmup => {
                &&& i.retry is Some ==> get_route_spec(false, intent) == GetRoute::Refetch
                &&& i.retry is None ==> get_route_spec(false, intent) == GetRoute::Cached
            },
        },
{
}

/// Which writes go to the cache: none if the cache takes no writes, and else flushes and writes
/// without an intent, but neither the write-ahead log, nor transactional metadata, nor what
/// compaction writes.
pub proof fn lemma_write_admission(caches_puts: bool, intent: Option<WriteIntent>)
    ensures
        !caches_puts ==> !is_admitted(caches_puts, intent),
        caches_puts && intent is None ==> is_admitted(caches_puts, intent),
        intent matches Some(i) ==> match i.kind {
            WriteKind::Flush => is_admitted(caches_puts, intent) <==> caches_puts,
            WriteKind::Wal => !is_admitted(caches_puts, intent),
            WriteKind::TransactionalMetadata => !is_admitted(caches_puts, intent),
            WriteKind::CompactionOutput => !is_admitted(caches_puts, intent),
        },
{
}

/// What a GET begins with. A cached entry is dropped by a retry alone, only once the root is
/// known, and it is the entry of the location that is read: the root, a slash and the location.
pub proof fn lemma_open_step(
    store: CachedObjectStore,
    intent: Option<ReadIntent>,
    head: bool,
    location: Seq<char>,
    step: OpenStep,
)
    requires
        is_open_step(store, get_route_spec(head, intent), location, step),
    ensures
        head <==> step is Head,
        step is DropEntry ==> !head && intent is Some && intent->0.retry is Some && store.root()
            is Some,
        step matches OpenStep::DropEntry { cache_location } ==> ({
            let root = store.root()->0;
            root.len() > 0 && location.len() > 0 ==> cache_location@ == root + seq!['/'] + location
        }),
        intent matches Some(i) && !head && i.retry is Some && store.root() is Some && (i.kind
            == ReadKind::Foreground || i.kind == ReadKind::Warmup) ==> step is DropEntry,
        intent is None && !head ==> step is Read,
        step is Upstream <==> !head && (intent matches Some(i) && (i.kind
            == ReadKind::CompactionInput || i.kind == ReadKind::Wal || i.kind
            == ReadKind::TransactionalMetadata)),
{
    if store.root() is Some {
        crate::path::lemma_joined_path(store.root()->0, location);
    }
}

/// A read comes to its answer: the cached head is looked up at most once and first, the store
/// is asked at most once and only if there was no head, and what the store said is saved at
/// most once: exactly if it is for the location under which it would be found again, and begins
/// on a part and ends on one or with the object. Once the size is known, the answer follows.
pub proof fn lemma_get_goes_forward(
    before: CachedObjectStore,
    after: CachedObjectStore,
    request: GetRequest,
    event: GetEvent,
    step: GetStep,
)
    requires
        is_get_step(before, after, request, event, step),
    ensures
        step is ReadHead <==> event is Begin && before.root() is Some,
        step is Fetch <==> (event is Begin && before.root() is None) || event == GetEvent::HeadRead(
            None,
        ),
        step is Save <==> (event matches GetEvent::Fetched { meta_location, size, range }
            && after.cache_key(request.location@) == Some(meta_location@) && range.start as int
            % after.part_size() == 0 && (range.end as int % after.part_size() == 0 || range.end
            == size)),
        step matches GetStep::ReadHead { cache_location } ==> before.cache_key(request.location@)
            == Some(cache_location@),
        event is Settled ==> step is PassThrough || step is ReadParts || step is Reject,
        event matches GetEvent::HeadRead(Some(_)) ==> step is PassThrough || step is ReadParts
            || step is Reject,
        step is PassThrough ==> after.root() is None,
        !(event is Fetched) ==> after.root() == before.root(),
        after.part_size() == before.part_size(),
        after.caches_puts() == before.caches_puts(),
{
}

/// A read of metadata is answered with the cached head if there is one and with what the store
/// says else; the store is asked at most once, and its answer saved only if it is for the
/// location under which it would be found again.
pub proof fn lemma_head_goes_forward(
    before: CachedObjectStore,
    after: CachedObjectStore,
    location: Path,
    event: HeadEvent,
    step: HeadStep,
)
    requires
        is_head_step(before, after, location, event, step),
    ensures
        step is ReadHead <==> event is Begin && before.root() is Some,
        step is Fetch <==> (event is Begin && before.root() is None) || event == (
        HeadEvent::HeadRead { found: false }),
        step matches HeadStep::ReadHead { cache_location } ==> before.cache_key(location@) == Some(
            cache_location@,
        ),
        event == (HeadEvent::HeadRead { found: true }) ==> step is Answer,
        event is Settled ==> step is Answer,
        step is Save <==> (event matches HeadEvent::Fetched { meta_location }
            && after.cache_key(location@) == Some(meta_location@)),
        event is Fetched && !(step is Save) ==> step is Answer,
        after.part_size() == before.part_size(),
        after.caches_puts() == before.caches_puts(),
{
}

/// A part is read from the cache first once the root is known, fetched if it is not there, and
/// then answered with, saved or not.
pub proof fn lemma_part_goes_forward(
    before: CachedObjectStore,
    after: CachedObjectStore,
    location: Path,
    part_id: PartID,
    event: PartEvent,
    step: PartStep,
)
    requires
        is_part_step(before, after, location, part_id, event, step),
    ensures
        step is ReadCached <==> event is Begin && before.root() is Some,
        step is Fetch <==> (event is Begin && before.root() is None) || event is Missed,
        step matches PartStep::ReadCached { cache_location } ==> before.cache_key(location@)
            == Some(cache_location@),
        event is Fetched <==> step is SaveAndDeliver || step is Deliver,
        event matches PartEvent::Fetched { meta_location } ==> (step is SaveAndDeliver
            <==> after.cache_key(location@) == Some(meta_location@)),
        after.part_size() == before.part_size(),
        after.caches_puts() == before.caches_puts(),
{
}

/// An answer can be saved exactly if it holds every part whole that it touches, where the last
/// part of the object ends with the object: if it cannot, it begins or ends inside a part.
pub proof fn lemma_saveable_is_whole(range: Range<u64>, size: u64, part_size: int, k: int)
    requires
        part_size > 0,
        range.start <= range.end <= size,
        k >= 0,
    ensures
        is_saveable(range, size, part_size) && k * part_size < range.end && range.start < k
            * part_size + part_size ==> {
            &&& range.start <= k * part_size
            &&& k * part_size + part_size <= range.end || range.end == size
        },
        k * part_size < range.start < k * part_size + part_size ==> !is_saveable(
            range,
            size,
            part_size,
        ),
        k * part_size < range.end < k * part_size + part_size && range.end < size ==> !is_saveable(
            range,
            size,
            part_size,
        ),
        range.start == 0 && range.end == size ==> is_saveable(range, size, part_size),
{
    let s = range.start as int;
    let e = range.end as int;
    parts::lemma_parts_needed(s, part_size);
    parts::lemma_parts_needed(e, part_size);
    let a = s / part_size;
    let b = e / part_size;
    if s % part_size == 0 && s < k * part_size + part_size {
        assert(s == a * part_size);
        assert(a <= k) by (nonlinear_arith)
            requires
                a * part_size < k * part_size + part_size,
                part_size > 0,
        ;
        assert(a * part_size <= k * part_size) by (nonlinear_arith)
            requires
                a <= k,
                part_size > 0,
        ;
    }
    if e % part_size == 0 && k * part_size < e {
        assert(e == b * part_size);
        assert(k + 1 <= b) by (nonlinear_arith)
            requires
                k * part_size < b * part_size,
                part_size > 0,
        ;
        assert(k * part_size + part_size <= b * part_size) by (nonlinear_arith)
            requires
                k + 1 <= b,
                part_size > 0,
        ;
    }
    lemma_small_mod(0, part_size as nat);
}

/// Different locations of one store are cached under different keys.
pub proof fn lemma_keys_differ(store: CachedObjectStore, a: Path, b: Path)
    requires
        store.root() is Some,
        crate::path::is_raw_path(a@),
        crate::path::is_raw_path(b@),
        store.cache_key(a@) == store.cache_key(b@),
    ensures
        a@ == b@,
{
    crate::path::lemma_join_laws(store.root()->0, a@, b@);
}

/// The root that a store learns is the one under which the answer lies: the key of the request
/// is then the location of the answer. If there is such a root it is learnt, and a root that is
/// known is not learnt anew.
pub proof fn lemma_root_is_learnt(
    before: CachedObjectStore,
    after: CachedObjectStore,
    requested: Path,
    meta_location: Path,
    root: Seq<char>,
)
    requires
        has_resolved(before, after, requested@, meta_location@),
        crate::path::is_raw_path(requested@),
        crate::path::is_raw_path(meta_location@),
    ensures
        before.root() is Some ==> after.root() == before.root(),
        before.root() is None && after.root() is Some ==> after.cache_key(requested@) == Some(
            meta_location@,
        ),
        before.root() is None && crate::path::is_raw_path(root) && crate::path::joined_path(
            root,
            requested@,
        ) == meta_location@ ==> after.root() == Some(root),
{
    cached_store::lemma_inferred_root_joins(requested@, meta_location@);
    if crate::path::is_raw_path(root) && crate::path::joined_path(root, requested@)
        == meta_location@ {
        crate::path::lemma_joined_path(root, requested@);
        cached_store::lemma_inferred_root_is_what_is_in_front(root, requested@, meta_location@);
        if root.len() == 0 {
            assert(root =~= Seq::<char>::empty());
        }
    }
}

/// The intent that was put into an extensions map is the one that it carries; a map into which
/// none was put carries none.
pub proof fn lemma_carried_intents(e: Extensions, read: ReadIntent, write: WriteIntent)
    ensures
        object_store_intent::read_intents(e) == seq![read] ==> carried_read_intent(e) == Some(read),
        object_store_intent::read_intents(e) == Seq::<ReadIntent>::empty() ==> carried_read_intent(
            e,
        ) is None,
        object_store_intent::write_intents(e) == seq![write] ==> carried_write_intent(e) == Some(
            write,
        ),
        object_store_intent::write_intents(e) == Seq::<WriteIntent>::empty()
            ==> carried_write_intent(e) is None,
{
}

/// A location is cached under the root of the store, a slash and the location, once the root is
/// known, and under nothing before.
pub proof fn lemma_cache_key(store: CachedObjectStore, location: Seq<char>)
    ensures
        store.root() is None ==> store.cache_key(location) is None,
        store.root() matches Some(root) ==> {
            &&& store.cache_key(location) is Some
            &&& root.len() == 0 ==> store.cache_key(location) == Some(location)
            &&& root.len() > 0 && location.len() > 0 ==> store.cache_key(location) == Some(
                root + seq!['/'] + location,
            )
        },
{
    if store.root() is Some {
        crate::path::lemma_joined_path(store.root()->0, location);
    }
}

/// A prefetch asks for less than a part more than the request on either side; where the request
/// has no range it asks for the whole object.
pub proof fn lemma_prefetch_is_tight(
    range: Option<GetRange>,
    step: GetStep,
    size: u64,
    part_size: int,
)
    requires
        part_size > 0,
        is_prefetch(step, range, part_size),
        cached_store::canonical_range(range, size) is Ok,
    ensures
        step is Fetch,
        range is None <==> step->aligned is None,
        ({
            let wanted = cached_store::canonical_range(range, size)->Ok_0;
            let brought = cached_store::canonical_range(step->aligned, size);
            &&& brought is Ok
            &&& wanted.start < brought->Ok_0.start + part_size
            &&& brought->Ok_0.end < wanted.end + part_size
        }),
{
    lemma_prefetch_covers_request(range, step, size, part_size);
    if let Some(wanted) = range {
        cached_store::lemma_aligned_range_is_tight(step->aligned->0, wanted, part_size);
    }
}

} // verus!
