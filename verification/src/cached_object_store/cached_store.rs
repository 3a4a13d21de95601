//! The caching object store: where objects lie in the cache, which ranges are
//! fetched and cached, and the steps of each request.

use crate::cached_object_store::parts;
use crate::cached_object_store::parts::PartID;
use crate::error::SlateDBError;
use crate::path;
use crate::path::Path;
use crate::text;
use std::ops::Range;
use vstd::prelude::*;
use vstd::string::*;

verus! {

/// A range of bytes that a read asks for.
#[derive(Debug, PartialEq, Eq)]
pub enum GetRange {
    /// From the start up to, and without, the end.
    Bounded(Range<u64>),
    /// From this byte to the end of the object.
    Offset(u64),
    /// This many bytes at the end of the object.
    Suffix(u64),
}

impl Clone for GetRange {
    fn clone(&self) -> (r: GetRange)
        ensures
            r == *self,
    {
        match self {
            GetRange::Bounded(b) => GetRange::Bounded(Range { start: b.start, end: b.end }),
            GetRange::Offset(o) => GetRange::Offset(*o),
            GetRange::Suffix(s) => GetRange::Suffix(*s),
        }
    }
}

/// A read range as a key by which concurrent prefetches of one object are shared.
#[derive(Debug, PartialEq, Eq, Hash)]
pub enum GetRangeKey {
    Bounded(Range<u64>),
    Offset(u64),
    Suffix(u64),
}

impl Clone for GetRangeKey {
    fn clone(&self) -> (r: GetRangeKey)
        ensures
            r == *self,
    {
        match self {
            GetRangeKey::Bounded(b) => GetRangeKey::Bounded(Range { start: b.start, end: b.end }),
            GetRangeKey::Offset(o) => GetRangeKey::Offset(*o),
            GetRangeKey::Suffix(s) => GetRangeKey::Suffix(*s),
        }
    }
}

/// The key of a range: the same kind with the same numbers.
pub open spec fn key_of(range: GetRange) -> GetRangeKey {
    match range {
        GetRange::Bounded(b) => GetRangeKey::Bounded(b),
        GetRange::Offset(o) => GetRangeKey::Offset(o),
        GetRange::Suffix(s) => GetRangeKey::Suffix(s),
    }
}

impl GetRangeKey {
    /// The key of a range: the same kind with the same numbers.
    pub fn from(range: GetRange) -> (r: GetRangeKey)
        ensures
            r == key_of(range),
    {
        match range {
            GetRange::Bounded(b) => GetRangeKey::Bounded(b),
            GetRange::Offset(o) => GetRangeKey::Offset(o),
            GetRange::Suffix(s) => GetRangeKey::Suffix(s),
        }
    }
}

/// Why a read range does not fit its object.
#[derive(Clone, Copy, Debug, PartialEq, Eq, Structural)]
pub enum InvalidGetRange {
    StartTooLarge { requested: u64, length: u64 },
    Inconsistent { start: u64, end: u64 },
}

impl InvalidGetRange {
    pub open spec fn message_spec(self) -> Seq<char> {
        match self {
            InvalidGetRange::StartTooLarge { requested, length } =>
                "Range start too large, requested: "@ + text::decimal(requested as nat)
                    + ", length: "@ + text::decimal(length as nat),
            InvalidGetRange::Inconsistent { start, end } =>
                "Range started at "@ + text::decimal(start as nat) + " and ended at "@
                    + text::decimal(end as nat),
        }
    }

    /// The message of the error.
    pub fn message(&self) -> (r: String)
        ensures
            r@ == self.message_spec(),
    {
        match self {
            InvalidGetRange::StartTooLarge { requested, length } => {
                let mut r = String::from_str("Range start too large, requested: ");
                r.append(text::decimal_text(*requested).as_str());
                r.append(", length: ");
                r.append(text::decimal_text(*length).as_str());
                r
            },
            InvalidGetRange::Inconsistent { start, end } => {
                let mut r = String::from_str("Range started at ");
                r.append(text::decimal_text(*start).as_str());
                r.append(" and ended at ");
                r.append(text::decimal_text(*end).as_str());
                r
            },
        }
    }
}

/// The bytes of an object of `size` bytes that a read range stands for.
pub open spec fn canonical_range(range: Option<GetRange>, size: u64) -> Result<
    Range<u64>,
    InvalidGetRange,
> {
    match range {
        None => Ok(Range { start: 0, end: size }),
        Some(GetRange::Bounded(b)) => if b.start >= size {
            Err(InvalidGetRange::StartTooLarge { requested: b.start, length: size })
        } else if b.start >= b.end {
            Err(InvalidGetRange::Inconsistent { start: b.start, end: b.end })
        } else {
            Ok(
                Range {
                    start: b.start,
                    end: if b.end <= size {
                        b.end
                    } else {
                        size
                    },
                },
            )
        },
        Some(GetRange::Offset(o)) => if o >= size {
            Err(InvalidGetRange::StartTooLarge { requested: o, length: size })
        } else {
            Ok(Range { start: o, end: size })
        },
        Some(GetRange::Suffix(s)) => Ok(
            Range {
                start: if s <= size {
                    (size - s) as u64
                } else {
                    0
                },
                end: size,
            },
        ),
    }
}

/// `r` is `range` widened to multiples of `alignment`.
pub open spec fn is_widened(r: Range<u64>, range: Range<u64>, alignment: int) -> bool {
    &&& r.start == parts::align_down(range.start as int, alignment)
    &&& r.end == parts::align_up(range.end as int, alignment)
}

/// A range widened to an alignment begins and ends on it, holds the range, and goes less than
/// the alignment beyond it on either side. A range that begins and ends on it stays as it is.
pub proof fn lemma_widened_is_tight(r: Range<u64>, range: Range<u64>, alignment: int)
    requires
        alignment > 0,
        is_widened(r, range, alignment),
    ensures
        r.start as int % alignment == 0,
        r.end as int % alignment == 0,
        r.start <= range.start < r.start + alignment,
        range.end <= r.end < range.end + alignment,
        range.start as int % alignment == 0 ==> r.start == range.start,
        range.end as int % alignment == 0 ==> r.end == range.end,
{
    parts::lemma_parts_needed(range.start as int, alignment);
    parts::lemma_parts_needed(range.end as int, alignment);
}

/// A read range widened to whole parts.
pub open spec fn is_aligned_get_range(r: GetRange, range: GetRange, part_size: int) -> bool {
    match range {
        GetRange::Bounded(b) => {
            &&& r matches GetRange::Bounded(a)
            &&& a.start == parts::align_down(b.start as int, part_size)
            &&& a.end == parts::align_up(b.end as int, part_size)
        },
        GetRange::Suffix(s) => {
            &&& r matches GetRange::Suffix(a)
            &&& a == parts::align_up(s as int, part_size)
        },
        GetRange::Offset(o) => {
            &&& r matches GetRange::Offset(a)
            &&& a == parts::align_down(o as int, part_size)
        },
    }
}

/// Widening the range to whole parts stays inside 64 bits.
pub open spec fn can_align(range: GetRange, part_size: int) -> bool {
    match range {
        GetRange::Bounded(b) => parts::align_up(b.end as int, part_size) <= u64::MAX,
        GetRange::Suffix(s) => parts::align_up(s as int, part_size) <= u64::MAX,
        GetRange::Offset(_) => true,
    }
}

/// Spans as the executable code carries them.
pub open spec fn are_spans(out: Seq<(PartID, Range<usize>)>, spans: Seq<(int, int, int)>) -> bool {
    &&& out.len() == spans.len()
    &&& forall|i: int|
        0 <= i < out.len() ==> (#[trigger] out[i]).0 == spans[i].0 && out[i].1.start == spans[i].1
            && out[i].1.end == spans[i].2
}

/// `suffix` ends `s`.
pub open spec fn ends_with(s: Seq<char>, suffix: Seq<char>) -> bool {
    suffix.len() <= s.len() && s.skip(s.len() - suffix.len()) == suffix
}

/// The root under which a store must lie if it answers a request for `requested`
/// with the location `meta`.
pub open spec fn inferred_root(requested: Seq<char>, meta: Seq<char>) -> Option<Seq<char>> {
    if requested.len() == 0 {
        Some(meta)
    } else if !ends_with(meta, requested) {
        None
    } else {
        let prefix = meta.take(meta.len() - requested.len());
        if prefix.len() > 0 && prefix.last() != '/' {
            None
        } else {
            Some(path::without_trailing_slashes(prefix))
        }
    }
}

/// The state of a caching store: the size of its parts, whether writes go to the
/// cache, and the root of the store behind it, once it is known.
#[derive(Debug)]
pub struct CachedObjectStore {
    part_size_bytes: usize,
    cache_puts: bool,
    resolved_root: Option<Path>,
}

impl CachedObjectStore {
    #[verifier::type_invariant]
    spec fn valid_part_size(self) -> bool {
        is_valid_part_size(self.part_size_bytes as int)
    }

    /// The size of a part.
    pub closed spec fn part_size(self) -> int {
        self.part_size_bytes as int
    }

    /// Whether writes go to the cache.
    pub closed spec fn caches_puts(self) -> bool {
        self.cache_puts
    }

    /// The root of the store behind the cache, once it is known.
    pub closed spec fn root(self) -> Option<Seq<char>> {
        match self.resolved_root {
            Some(p) => Some(p@),
            None => None,
        }
    }

    /// The key under which `location` is cached.
    pub open spec fn cache_key(self, location: Seq<char>) -> Option<Seq<char>> {
        match self.root() {
            Some(root) => Some(path::joined_path(root, location)),
            None => None,
        }
    }

    /// A store whose root is not yet known. The part size must be a positive
    /// multiple of a kilobyte.
    pub fn new(part_size_bytes: usize, cache_puts: bool) -> (r: Result<
        CachedObjectStore,
        SlateDBError,
    >)
        ensures
            r is Ok <==> is_valid_part_size(part_size_bytes as int),
            r matches Ok(store) ==> store.part_size() == part_size_bytes && store.caches_puts()
                == cache_puts && store.root() is None,
            r matches Err(e) ==> e == SlateDBError::InvalidCachePartSize,
    {
        if part_size_bytes == 0 || part_size_bytes % 1024 != 0 {
            return Err(SlateDBError::InvalidCachePartSize);
        }
        Ok(CachedObjectStore { part_size_bytes, cache_puts, resolved_root: None })
    }

    /// The size of a part.
    pub fn part_size_bytes(&self) -> (r: usize)
        ensures
            r == self.part_size(),
            is_valid_part_size(r as int),
    {
        proof {
            use_type_invariant(self);
        }
        self.part_size_bytes
    }

    /// Whether writes go to the cache.
    pub fn cache_puts(&self) -> (r: bool)
        ensures
            r == self.caches_puts(),
    {
        self.cache_puts
    }

    /// The root of the store behind the cache, once it is known.
    pub fn resolved_root(&self) -> (r: Option<Path>)
        ensures
            r is Some <==> self.root() is Some,
            r matches Some(p) ==> self.root() == Some(p@),
    {
        match &self.resolved_root {
            Some(p) => Some(p.clone()),
            None => None,
        }
    }

    /// The key under which `location` is cached: the root followed by the location.
    /// There is none while the root is unknown.
    pub fn cache_location_for(&self, location: &Path) -> (r: Option<Path>)
        ensures
            r is Some <==> self.root() is Some,
            r matches Some(p) ==> self.cache_key(location@) == Some(p@),
    {
        match &self.resolved_root {
            Some(root) => Some(root.join(location)),
            None => None,
        }
    }

    /// The root that a store must have if it answers a request for
    /// `requested_location` with metadata for `meta_location`. The request must be
    /// whole segments at the end of the answer.
    pub fn infer_root(requested_location: &Path, meta_location: &Path) -> (r: Option<Path>)
        ensures
            r is Some <==> inferred_root(requested_location@, meta_location@) is Some,
            r matches Some(root) ==> inferred_root(requested_location@, meta_location@) == Some(
                root@,
            ),
            r matches Some(root) ==> path::joined_path(root@, requested_location@)
                == meta_location@,
            forall|root: Seq<char>| #[trigger]
                path::joined_path(root, requested_location@) == meta_location@ ==> r is Some
                    && r->0@ == root,
    {
        let requested = requested_location.as_str();
        let meta = meta_location.as_str();
        let ghost req = requested@;
        let ghost whole = meta@;
        if requested.is_empty() {
            return Some(meta_location.clone());
        }
        let requested_len: usize = requested.unicode_len();
        let meta_len: usize = meta.unicode_len();
        if requested_len > meta_len {
            proof {
                assert forall|root: Seq<char>| #[trigger]
                    path::joined_path(root, req) == whole implies false by {}
            }
            return None;
        }
        let split: usize = meta_len - requested_len;
        let tail = meta.substring_char(split, meta_len).to_owned();
        assert(tail@ =~= whole.skip(split as int));
        let wanted = requested.to_owned();
        if tail != wanted {
            proof {
                assert forall|root: Seq<char>| #[trigger]
                    path::joined_path(root, req) == whole implies false by {
                    assert(whole.skip(split as int) =~= req);
                }
            }
            return None;
        }
        let ghost prefix = whole.take(split as int);
        if split == 0 {
            let root = String::new();
            proof {
                assert(prefix =~= Seq::<char>::empty());
                assert(path::without_trailing_slashes(prefix) == prefix);
                assert forall|root: Seq<char>| #[trigger]
                    path::joined_path(root, req) == whole implies root =~= prefix by {}
                assert(root@ =~= prefix);
            }
            return Path::from_raw(root);
        }
        if meta.get_char(split - 1) != '/' {
            proof {
                assert(prefix.last() == whole[split - 1]);
                assert forall|root: Seq<char>| #[trigger]
                    path::joined_path(root, req) == whole implies false by {
                    assert(root.len() + 1 + req.len() == whole.len());
                    assert(whole[split - 1] == '/');
                }
            }
            return None;
        }
        // a raw path has no empty segment, so exactly one slash is taken off
        let head = meta.substring_char(0, split - 1);
        proof {
            let trimmed = whole.take(split - 1);
            assert(head@ =~= trimmed);
            assert(prefix.drop_last() =~= trimmed);
            assert(prefix.last() == '/');
            if trimmed.len() > 0 {
                assert(trimmed.last() == whole[split - 2]);
                assert(whole[split - 2] != '/');
            }
            assert(path::is_raw_path(trimmed)) by {
                assert forall|i: int|
                    0 <= i < trimmed.len() - 1 && #[trigger] trimmed[i] == '/' implies trimmed[i + 1]
                    != '/' by {
                    assert(whole[i] == '/');
                }
            }
            reveal_with_fuel(path::without_trailing_slashes, 2);
            assert(path::without_trailing_slashes(prefix) == trimmed);
            assert forall|root: Seq<char>| #[trigger]
                path::joined_path(root, req) == whole implies root =~= trimmed by {
                assert(root.len() + 1 + req.len() == whole.len());
                assert(root.push('/') =~= whole.take(split as int));
            }
        }
        assert(path::joined_path(head@, req) =~= whole);
        Path::from_raw(head.to_owned())
    }

    /// Learns the root from an answer, if it is unknown, and says whether the key
    /// under which `requested_location` is cached is the location of the answer.
    /// Only then may the answer go to the cache.
    pub fn resolve_root(&mut self, requested_location: &Path, meta_location: &Path) -> (r: bool)
        ensures
            final(self).part_size() == old(self).part_size(),
            final(self).caches_puts() == old(self).caches_puts(),
            old(self).root() is Some ==> final(self).root() == old(self).root(),
            old(self).root() is None ==> final(self).root() == inferred_root(
                requested_location@,
                meta_location@,
            ),
            r <==> final(self).cache_key(requested_location@) == Some(meta_location@),
            old(self).root() is None ==> (r <==> final(self).root() is Some),
    {
        proof {
            use_type_invariant(&*self);
        }
        if self.resolved_root.is_none() {
            match Self::infer_root(requested_location, meta_location) {
                None => {
                    return false;
                },
                Some(root) => {
                    self.resolved_root = Some(root);
                },
            }
        }
        match self.cache_location_for(requested_location) {
            None => false,
            Some(cache_location) => cache_location.same_as(meta_location),
        }
    }

    /// The bytes of an object of `object_size` bytes that a read range stands for.
    pub fn canonicalize_range(&self, range: Option<GetRange>, object_size: u64) -> (r: Result<
        Range<u64>,
        InvalidGetRange,
    >)
        ensures
            r == canonical_range(range, object_size),
            range matches Some(GetRange::Suffix(s)) ==> r is Ok && r->Ok_0.end == object_size
                && r->Ok_0.end - r->Ok_0.start == parts::min_int(s as int, object_size as int),
    {
        match range {
            None => Ok(Range { start: 0, end: object_size }),
            Some(GetRange::Bounded(bounded)) => {
                if bounded.start >= object_size {
                    return Err(
                        InvalidGetRange::StartTooLarge {
                            requested: bounded.start,
                            length: object_size,
                        },
                    );
                }
                if bounded.start >= bounded.end {
                    return Err(
                        InvalidGetRange::Inconsistent { start: bounded.start, end: bounded.end },
                    );
                }
                let end: u64 = if bounded.end <= object_size {
                    bounded.end
                } else {
                    object_size
                };
                Ok(Range { start: bounded.start, end })
            },
            Some(GetRange::Offset(offset)) => {
                if offset >= object_size {
                    return Err(
                        InvalidGetRange::StartTooLarge { requested: offset, length: object_size },
                    );
                }
                Ok(Range { start: offset, end: object_size })
            },
            Some(GetRange::Suffix(suffix)) => Ok(
                Range { start: object_size.saturating_sub(suffix), end: object_size },
            ),
        }
    }

    /// `range` widened to multiples of `alignment`.
    pub fn align_range(&self, range: &Range<u64>, alignment: usize) -> (r: Range<u64>)
        requires
            alignment > 0,
            parts::align_up(range.end as int, alignment as int) <= u64::MAX,
        ensures
            is_widened(r, *range, alignment as int),
    {
        let a: u64 = alignment as u64;
        proof {
            parts::lemma_parts_needed(range.start as int, a as int);
            parts::lemma_parts_needed(range.end as int, a as int);
        }
        let start: u64 = range.start - range.start % a;
        let whole: u64 = range.end - range.end % a;
        let end: u64 = if range.end % a == 0 {
            whole
        } else {
            assert((range.end as int / a as int + 1) * a == (range.end as int / a as int) * a + a)
                by (nonlinear_arith);
            whole + a
        };
        Range { start, end }
    }

    /// A read range widened to whole parts, which is what a prefetch asks for.
    pub fn align_get_range(&self, range: &GetRange) -> (r: GetRange)
        requires
            can_align(*range, self.part_size()),
        ensures
            is_aligned_get_range(r, *range, self.part_size()),
    {
        proof {
            use_type_invariant(self);
        }
        match range {
            GetRange::Bounded(bounded) => {
                let aligned = self.align_range(bounded, self.part_size_bytes);
                GetRange::Bounded(aligned)
            },
            GetRange::Suffix(suffix) => {
                let aligned = self.align_range(&Range { start: 0, end: *suffix }, self.part_size_bytes);
                GetRange::Suffix(aligned.end)
            },
            GetRange::Offset(offset) => {
                proof {
                    parts::lemma_parts_needed(*offset as int, self.part_size());
                }
                GetRange::Offset(*offset - *offset % self.part_size_bytes as u64)
            },
        }
    }

    /// The parts that `range` touches, each with the range inside the part.
    pub fn split_range_into_parts(&self, range: Range<u64>) -> (r: Vec<(PartID, Range<usize>)>)
        requires
            parts::align_up(range.end as int, self.part_size()) <= u64::MAX,
            parts::parts_needed(range.end as int, self.part_size()) - 1 <= usize::MAX,
        ensures
            are_spans(
                r@,
                parts::part_spans(range.start as int, range.end as int, self.part_size()),
            ),
    {
        proof {
            use_type_invariant(self);
        }
        let part_size: u64 = self.part_size_bytes as u64;
        let ghost size = self.part_size();
        let ghost spans = parts::part_spans(range.start as int, range.end as int, size);
        proof {
            parts::lemma_parts_needed(range.start as int, size);
            parts::lemma_parts_needed(range.end as int, size);
        }
        let first: u64 = range.start / part_size;
        let after: u64 = if range.end % part_size == 0 {
            range.end / part_size
        } else {
            assert(range.end as int / size < u64::MAX) by (nonlinear_arith)
                requires
                    range.end as int == (range.end as int / size) * size + range.end as int % size,
                    range.end as int % size > 0,
                    size > 0,
                    range.end <= u64::MAX,
                    range.end as int / size >= 0,
            ;
            range.end / part_size + 1
        };
        let mut out: Vec<(PartID, Range<usize>)> = Vec::new();
        let mut id: u64 = first;
        while id < after
            invariant
                part_size == size,
                size > 0,
                self.part_size_bytes == size,
                first == range.start as int / size,
                after == parts::parts_needed(range.end as int, size),
                after - 1 <= usize::MAX,
                spans == parts::part_spans(range.start as int, range.end as int, size),
                first <= id,
                first <= after ==> id <= after,
                first > after ==> id == first,
                out@.len() == id - first,
                are_spans(out@, spans.take(out@.len() as int)),
                0 <= range.start as int % size < size,
                0 <= range.end as int % size < size,
            decreases after - id,
        {
            let start: usize = if id == first {
                (range.start % part_size) as usize
            } else {
                0
            };
            let end: usize = if id == after - 1 && range.end % part_size != 0 {
                (range.end % part_size) as usize
            } else {
                self.part_size_bytes
            };
            let ghost n = out@.len() as int;
            out.push((id as usize, Range { start, end }));
            proof {
                assert(spans.take(n + 1) =~= spans.take(n).push(spans[n]));
            }
            id = id + 1;
        }
        assert(spans.take(out@.len() as int) =~= spans);
        out
    }
}

/// A positive multiple of a kilobyte.
pub open spec fn is_valid_part_size(n: int) -> bool {
    n > 0 && n % 1024 == 0
}

/// Byte `i` is one that a read with this range asks for.
pub open spec fn asks_for(range: Option<GetRange>, size: int, i: int) -> bool {
    &&& 0 <= i < size
    &&& match range {
        None => true,
        Some(GetRange::Bounded(b)) => b.start <= i && i < b.end,
        Some(GetRange::Offset(o)) => o <= i,
        Some(GetRange::Suffix(s)) => size - i <= s,
    }
}

/// A read range stands for exactly those bytes of the object that it asks for: between its
/// bounds, from its offset on, or as many at the end as its suffix says.
pub proof fn lemma_range_holds_what_is_asked_for(range: Option<GetRange>, size: u64, i: int)
    ensures
        canonical_range(range, size) matches Ok(r) ==> {
            &&& 0 <= r.start <= r.end <= size
            &&& asks_for(range, size as int, i) <==> r.start <= i < r.end
        },
        canonical_range(range, size) is Err ==> !asks_for(range, size as int, i),
{
}

/// A suffix of an object has the length that was asked for, or that of the object if it is
/// shorter, and ends with the object.
pub proof fn lemma_suffix_has_its_length(suffix: u64, size: u64)
    ensures
        canonical_range(Some(GetRange::Suffix(suffix)), size) matches Ok(r) && r.end == size
            && r.end - r.start == (if suffix <= size {
            suffix
        } else {
            size
        }),
{
}

/// A range is refused exactly if it begins at or behind the end of the object, or is empty or
/// reversed. The refusal tells its numbers, and the first of the two reasons comes first. A
/// suffix, or no range, is never refused.
pub proof fn lemma_range_is_refused(range: Option<GetRange>, size: u64)
    ensures
        range is None || range->0 is Suffix ==> canonical_range(range, size) is Ok,
        range matches Some(GetRange::Offset(o)) ==> (canonical_range(range, size) is Err <==> o
            >= size),
        range matches Some(GetRange::Bounded(b)) ==> (canonical_range(range, size) is Err
            <==> b.start >= size || b.end <= b.start),
        canonical_range(range, size) matches Err(InvalidGetRange::StartTooLarge {
            requested,
            length,
        }) ==> length == size && requested >= size && (range == Some(GetRange::Offset(requested))
            || (range matches Some(GetRange::Bounded(b)) && b.start == requested)),
        canonical_range(range, size) matches Err(InvalidGetRange::Inconsistent { start, end })
            ==> end <= start < size && (range matches Some(GetRange::Bounded(b)) && b.start == start
            && b.end == end),
{
}

/// Two ways to name the same bytes stand for the same range: an offset, the suffix that
/// begins there, and the bounds around both.
pub proof fn lemma_ranges_agree(offset: u64, size: u64, end: u64)
    requires
        offset < size,
        end >= size,
    ensures
        canonical_range(Some(GetRange::Offset(offset)), size) == canonical_range(
            Some(GetRange::Suffix((size - offset) as u64)),
            size,
        ),
        canonical_range(Some(GetRange::Offset(offset)), size) == canonical_range(
            Some(GetRange::Bounded(Range { start: offset, end })),
            size,
        ),
        canonical_range(Some(GetRange::Offset(0)), size) == canonical_range(None, size),
{
}

/// A widened range begins and ends on parts, holds the range, and goes less than a part beyond
/// it on either side. It stays of the same kind.
pub proof fn lemma_aligned_range_is_tight(r: GetRange, range: GetRange, part_size: int)
    requires
        part_size > 0,
        is_aligned_get_range(r, range, part_size),
    ensures
        range matches GetRange::Bounded(b) ==> r matches GetRange::Bounded(a) && a.start as int
            % part_size == 0 && a.end as int % part_size == 0 && a.start <= b.start < a.start
            + part_size && b.end <= a.end < b.end + part_size,
        range matches GetRange::Offset(o) ==> r matches GetRange::Offset(a) && a as int % part_size
            == 0 && a <= o < a + part_size,
        range matches GetRange::Suffix(s) ==> r matches GetRange::Suffix(a) && a as int % part_size
            == 0 && s <= a < s + part_size,
{
    match range {
        GetRange::Bounded(b) => {
            parts::lemma_parts_needed(b.start as int, part_size);
            parts::lemma_parts_needed(b.end as int, part_size);
        },
        GetRange::Offset(o) => {
            parts::lemma_parts_needed(o as int, part_size);
        },
        GetRange::Suffix(s) => {
            parts::lemma_parts_needed(s as int, part_size);
        },
    }
}

/// A range can be widened exactly if some multiple of the part size at or behind its end can
/// be counted.
pub proof fn lemma_can_align(range: GetRange, part_size: int, k: int)
    requires
        part_size > 0,
    ensures
        range matches GetRange::Bounded(b) && b.end <= k * part_size <= u64::MAX ==> can_align(
            range,
            part_size,
        ),
        range matches GetRange::Suffix(s) && s <= k * part_size <= u64::MAX ==> can_align(
            range,
            part_size,
        ),
        range is Offset ==> can_align(range, part_size),
{
    match range {
        GetRange::Bounded(b) => {
            if b.end <= k * part_size {
                parts::lemma_align_up_is_least(b.end as int, part_size, k);
            }
        },
        GetRange::Suffix(s) => {
            if s <= k * part_size {
                parts::lemma_align_up_is_least(s as int, part_size, k);
            }
        },
        GetRange::Offset(_) => {},
    }
}

/// Two prefetches share one key exactly if they ask for the same range.
pub proof fn lemma_keys_tell_ranges_apart(a: GetRange, b: GetRange)
    ensures
        key_of(a) == key_of(b) <==> a == b,
{
}

/// A part size is valid exactly if it is a thousand and twenty-four times a positive number.
pub proof fn lemma_valid_part_size(n: int, k: int)
    ensures
        n == 1024 * k && k > 0 ==> is_valid_part_size(n),
        is_valid_part_size(n) ==> n > 0 && n == 1024 * (n / 1024),
{
}

/// The root that is inferred from an answer is the one path that, followed by the request,
/// makes up the location of the answer; there is none if the answer does not end with the
/// request as whole segments.
pub proof fn lemma_inferred_root_is_what_is_in_front(
    root: Seq<char>,
    requested: Seq<char>,
    meta: Seq<char>,
)
    requires
        path::is_raw_path(meta),
        path::is_raw_path(requested),
        path::is_raw_path(root),
    ensures
        requested.len() > 0 && root.len() > 0 && meta == root + seq!['/'] + requested
            ==> inferred_root(requested, meta) == Some(root),
        requested.len() > 0 && meta == requested ==> inferred_root(requested, meta) == Some(
            Seq::<char>::empty(),
        ),
        requested.len() == 0 ==> inferred_root(requested, meta) == Some(meta),
        inferred_root(requested, meta) matches Some(r) ==> meta == r || meta == requested || meta
            == r + seq!['/'] + requested,
{
    if requested.len() > 0 {
        let n = meta.len() - requested.len();
        if root.len() > 0 && meta == root + seq!['/'] + requested {
            assert(meta.skip(n) =~= requested);
            assert(meta.take(n) =~= root.push('/'));
            assert(root.push('/').drop_last() =~= root);
            reveal_with_fuel(path::without_trailing_slashes, 2);
        }
        if meta == requested {
            assert(meta.skip(0) =~= requested);
            assert(meta.take(0) =~= Seq::<char>::empty());
        }
        if inferred_root(requested, meta) is Some {
            let prefix = meta.take(n);
            assert(meta =~= prefix + requested);
            if n > 0 {
                let r = prefix.drop_last();
                assert(prefix.last() == '/');
                if r.len() > 0 {
                    assert(r.last() == meta[n - 2]);
                    assert(meta[n - 1] == '/');
                    assert(meta[n - 2] != '/');
                }
                reveal_with_fuel(path::without_trailing_slashes, 2);
                assert(prefix =~= r + seq!['/']);
                assert(meta =~= r + seq!['/'] + requested);
            } else {
                assert(meta =~= requested);
            }
        }
    }
}

/// A root that is inferred, followed by the request, is the location of the answer.
pub proof fn lemma_inferred_root_joins(requested: Seq<char>, meta: Seq<char>)
    requires
        path::is_raw_path(meta),
        path::is_raw_path(requested),
    ensures
        inferred_root(requested, meta) matches Some(root) ==> path::joined_path(root, requested)
            == meta,
{
    if requested.len() > 0 && inferred_root(requested, meta) is Some {
        let n = meta.len() - requested.len();
        let prefix = meta.take(n);
        assert(meta =~= prefix + meta.skip(n));
        if n > 0 {
            let r = prefix.drop_last();
            assert(prefix.last() == '/');
            assert(meta[n - 1] == '/');
            if r.len() > 0 {
                assert(r.last() == meta[n - 2]);
                assert(meta[n - 2] != '/');
            }
            reveal_with_fuel(path::without_trailing_slashes, 2);
            assert(prefix =~= r + seq!['/']);
            assert(path::joined_path(r, requested) =~= meta);
        } else {
            assert(prefix =~= Seq::<char>::empty());
            assert(path::joined_path(prefix, requested) =~= meta);
        }
    }
}

} // verus!
