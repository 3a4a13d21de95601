//! A tee that funnels the bytes of an object into the cache while they are produced.
//! Parts are written under temporary names; when the object is complete, they are
//! renamed into place, the head last.

use crate::buffers;
use crate::cached_object_store::layout;
use crate::cached_object_store::parts;
use crate::cached_object_store::parts::{PartID, PartSplitter};
use crate::path::Path;
use crate::random;
use crate::random::DbRand;
use bytes::Bytes;
use vstd::prelude::*;
use vstd::string::*;

verus! {

/// The length of the random suffix of a temporary file of a tee.
pub const TEE_SUFFIX_LEN: usize = 16;

/// `tmp` is a temporary name beside `place` that a sweep knows for one.
pub open spec fn is_tee_tmp(tmp: Seq<char>, place: Seq<char>) -> bool {
    exists|suffix: Seq<char>| #[trigger] is_tee_tmp_with(tmp, place, suffix)
}

pub open spec fn is_tee_tmp_with(tmp: Seq<char>, place: Seq<char>, suffix: Seq<char>) -> bool {
    &&& tmp == place + ".tmp-"@ + suffix
    &&& suffix.len() == TEE_SUFFIX_LEN
    &&& forall|i: int| 0 <= i < suffix.len() ==> random::is_alphanumeric(#[trigger] suffix[i])
}

/// The temporary name beside `place` that is drawn from this seed on.
pub open spec fn drawn_tee_tmp(place: Seq<char>, seed: u64) -> Seq<char> {
    place + ".tmp-"@ + random::drawn_suffix(seed, TEE_SUFFIX_LEN as nat)
}

/// The seed after the temporary names of `n` files were drawn.
pub open spec fn seed_after_files(seed: u64, n: int) -> u64 {
    random::seed_after(seed, (n * TEE_SUFFIX_LEN) as nat)
}

/// A file that is to be written.
pub struct TeeWrite {
    pub tmp_path: String,
    pub bytes: Bytes,
}

/// What the head of an object tells of it.
pub struct ObjectHead {
    pub location: Path,
    /// Seconds, and nanoseconds on top.
    pub last_modified: (i64, u32),
    pub size: u64,
    pub e_tag: Option<String>,
    pub version: Option<String>,
}

/// Temporary files, each with the place that it is to be renamed to.
pub open spec fn pairs(pending: Seq<(String, String)>) -> Seq<(Seq<char>, Seq<char>)> {
    Seq::new(pending.len(), |i: int| (pending[i].0@, pending[i].1@))
}

/// The first `count` parts of an object, each under a temporary name beside its place.
pub open spec fn are_part_pairs(
    pending: Seq<(Seq<char>, Seq<char>)>,
    count: int,
    root_folder: Seq<char>,
    location: Seq<char>,
    part_size: int,
) -> bool {
    forall|i: int|
        0 <= i < count ==> (#[trigger] pending[i]).1 == layout::part_path(
            root_folder,
            location,
            i,
            part_size,
        ) && is_tee_tmp(pending[i].0, pending[i].1)
}

/// A tee while bytes come in.
pub struct FsCacheTee {
    root_folder: String,
    location: Path,
    part_size: usize,
    splitter: PartSplitter,
    pending: Vec<(String, String)>,
    poisoned: bool,
}

/// The writes that a run of parts calls for: one for each, with its bytes.
pub open spec fn are_writes_of(
    writes: Seq<TeeWrite>,
    pending: Seq<(Seq<char>, Seq<char>)>,
    first: int,
    out: Seq<Seq<u8>>,
) -> bool {
    &&& writes.len() == out.len()
    &&& pending.len() == first + out.len()
    &&& forall|i: int|
        0 <= i < writes.len() ==> (#[trigger] writes[i]).tmp_path@ == pending[first + i].0
            && buffers::bytes_contents(writes[i].bytes) == out[i]
}

/// `after` is `before` when it has taken in `buf` and handed out `writes`.
pub open spec fn has_extended(
    before: FsCacheTee,
    after: FsCacheTee,
    buf: Seq<u8>,
    writes: Seq<TeeWrite>,
) -> bool {
    let data = before.held() + buf;
    let count = before.pending().len() as int;
    &&& after.root() == before.root()
    &&& after.object() == before.object()
    &&& after.part_size() == before.part_size()
    &&& after.is_poisoned() == before.is_poisoned()
    &&& if before.is_poisoned() {
        &&& writes.len() == 0
        &&& after.held() == before.held()
        &&& after.total() == before.total()
        &&& after.pending() == before.pending()
    } else {
        &&& are_writes_of(
            writes,
            after.pending(),
            count,
            parts::whole_parts(data, before.part_size()),
        )
        &&& after.pending().take(count) == before.pending()
        &&& after.held() == parts::remainder(data, before.part_size())
        &&& after.total() == before.total() + buf.len()
    }
}

/// `sealed` is `tee` when its bytes are all in, with `tail` handed out as the last part.
pub open spec fn has_sealed(tee: FsCacheTee, sealed: SealedTee, tail: Option<TeeWrite>) -> bool {
    &&& sealed.root() == tee.root()
    &&& sealed.object() == tee.object()
    &&& sealed.part_size() == tee.part_size()
    &&& sealed.total() == tee.total()
    &&& sealed.is_poisoned() == tee.is_poisoned()
    &&& !sealed.has_head()
    &&& tail is Some <==> !tee.is_poisoned() && tee.held().len() > 0
    &&& tail matches Some(write) ==> {
        &&& buffers::bytes_contents(write.bytes) == tee.held()
        &&& sealed.pending().len() == tee.pending().len() + 1
        &&& sealed.pending().drop_last() == tee.pending()
        &&& sealed.pending().last().0 == write.tmp_path@
    }
    &&& tail is None ==> sealed.pending() == tee.pending()
}

/// `after` is `before` when `write` was handed out as its head.
pub open spec fn has_reserved_head(before: SealedTee, after: SealedTee, write: TeeWrite) -> bool {
    &&& after.has_head()
    &&& after.root() == before.root()
    &&& after.object() == before.object()
    &&& after.part_size() == before.part_size()
    &&& after.total() == before.total()
    &&& after.is_poisoned() == before.is_poisoned()
    &&& after.pending().drop_last() == before.pending()
    &&& after.pending().len() == before.pending().len() + 1
    &&& write.tmp_path@ == after.pending().last().0
}

/// A fresh tee takes in `bufs` one after the other and no write fails; it is `tees[i]` before
/// buffer `i`, for which it hands out `writes[i]`.
pub open spec fn is_tee_run(
    tees: Seq<FsCacheTee>,
    bufs: Seq<Seq<u8>>,
    writes: Seq<Seq<TeeWrite>>,
) -> bool {
    &&& tees.len() == bufs.len() + 1
    &&& writes.len() == bufs.len()
    &&& tees[0].held() == Seq::<u8>::empty()
    &&& tees[0].total() == 0
    &&& tees[0].pending() == Seq::<(Seq<char>, Seq<char>)>::empty()
    &&& !tees[0].is_poisoned()
    &&& forall|i: int|
        #![trigger writes[i]]
        0 <= i < bufs.len() ==> has_extended(tees[i], tees[i + 1], bufs[i], writes[i])
}

fn reserve_part_paths(
    rng: &mut DbRand,
    root_folder: &str,
    location: &Path,
    part_number: PartID,
    part_size: usize,
) -> (r: (String, String))
    ensures
        r.1@ == layout::part_path(root_folder@, location@, part_number as int, part_size as int),
        is_tee_tmp(r.0@, r.1@),
        r.0@ == drawn_tee_tmp(r.1@, old(rng).seed()),
        final(rng).seed() == seed_after_files(old(rng).seed(), 1),
{
    let place = layout::make_part_path(root_folder, location, part_number, part_size);
    let suffix = rng.rand_suffix(TEE_SUFFIX_LEN);
    let tmp = layout::tee_tmp_path(place.as_str(), suffix.as_str());
    assert(is_tee_tmp_with(tmp@, place@, suffix@));
    (tmp, place)
}

fn reserve_head_paths(rng: &mut DbRand, root_folder: &str, location: &Path) -> (r: (
    String,
    String,
))
    ensures
        r.1@ == layout::head_path(root_folder@, location@),
        is_tee_tmp(r.0@, r.1@),
        r.0@ == drawn_tee_tmp(r.1@, old(rng).seed()),
        final(rng).seed() == seed_after_files(old(rng).seed(), 1),
{
    let place = layout::make_head_path(root_folder, location);
    let suffix = rng.rand_suffix(TEE_SUFFIX_LEN);
    let tmp = layout::tee_tmp_path(place.as_str(), suffix.as_str());
    assert(is_tee_tmp_with(tmp@, place@, suffix@));
    (tmp, place)
}

pub(crate) fn tmp_names(pending: &Vec<(String, String)>) -> (r: Vec<String>)
    ensures
        r@.len() == pending@.len(),
        forall|i: int| 0 <= i < r@.len() ==> (#[trigger] r@[i])@ == pending@[i].0@,
{
    let mut out: Vec<String> = Vec::new();
    let mut i: usize = 0;
    while i < pending.len()
        invariant
            i <= pending@.len(),
            out@.len() == i,
            forall|k: int| 0 <= k < i ==> (#[trigger] out@[k])@ == pending@[k].0@,
        decreases pending@.len() - i,
    {
        out.push(pending[i].0.clone());
        i = i + 1;
    }
    out
}

impl FsCacheTee {
    /// The root folder of the cache.
    pub closed spec fn root(self) -> Seq<char> {
        self.root_folder@
    }

    /// The object.
    pub closed spec fn object(self) -> Seq<char> {
        self.location@
    }

    pub closed spec fn part_size(self) -> int {
        self.part_size as int
    }

    /// The bytes of the part that is being filled.
    pub closed spec fn held(self) -> Seq<u8> {
        self.splitter.held()
    }

    /// How many bytes have come in.
    pub closed spec fn total(self) -> int {
        self.splitter.total()
    }

    /// The files that were handed out to be written, with their places.
    pub closed spec fn pending(self) -> Seq<(Seq<char>, Seq<char>)> {
        pairs(self.pending@)
    }

    /// Whether a write has failed.
    pub closed spec fn is_poisoned(self) -> bool {
        self.poisoned
    }

    /// Every part that was handed out is registered, in order, under its place.
    pub closed spec fn wf(self) -> bool {
        &&& self.part_size > 0
        &&& self.splitter.part_size() == self.part_size
        &&& self.splitter.held().len() < self.part_size
        &&& self.pending@.len() == self.splitter.next_part()
        &&& are_part_pairs(
            pairs(self.pending@),
            self.pending@.len() as int,
            self.root_folder@,
            self.location@,
            self.part_size as int,
        )
    }

    /// A tee for one object.
    pub fn new(root_folder: String, location: Path, part_size: usize) -> (r: FsCacheTee)
        requires
            part_size > 0,
        ensures
            r.wf(),
            r.root() == root_folder@,
            r.object() == location@,
            r.part_size() == part_size,
            r.held() == Seq::<u8>::empty(),
            r.total() == 0,
            r.pending() == Seq::<(Seq<char>, Seq<char>)>::empty(),
            !r.is_poisoned(),
    {
        let r = FsCacheTee {
            root_folder,
            location,
            part_size,
            splitter: PartSplitter::new(part_size, 0),
            pending: Vec::new(),
            poisoned: false,
        };
        assert(r.pending() =~= Seq::<(Seq<char>, Seq<char>)>::empty());
        r
    }

    /// Takes in bytes and hands out the files to write for the parts that they fill,
    /// in order. A poisoned tee drops them.
    pub fn extend(&mut self, rng: &mut DbRand, buf: &[u8]) -> (r: Vec<TeeWrite>)
        requires
            old(self).wf(),
            old(self).held().len() + buf@.len() <= isize::MAX,
            old(self).total() + buf@.len() <= u64::MAX,
            old(self).pending().len() + (old(self).held() + buf@).len() as int / old(
                self,
            ).part_size() <= usize::MAX,
        ensures
            final(self).wf(),
            has_extended(*old(self), *final(self), buf@, r@),
            forall|i: int|
                0 <= i < r@.len() ==> (#[trigger] r@[i]).tmp_path@ == drawn_tee_tmp(
                    layout::part_path(
                        old(self).root(),
                        old(self).object(),
                        old(self).pending().len() + i,
                        old(self).part_size(),
                    ),
                    seed_after_files(old(rng).seed(), i),
                ),
            final(rng).seed() == seed_after_files(old(rng).seed(), r@.len() as int),
    {
        let mut out: Vec<TeeWrite> = Vec::new();
        if self.poisoned {
            return out;
        }
        let ghost before = *self;
        let ghost first = before.pending@.len() as int;
        let ghost data = before.held() + buf@;
        let ghost size = before.part_size();
        let ghost whole = parts::whole_parts(data, size);
        let ghost seed = rng.seed();
        let filled = self.splitter.push(buf);
        proof {
            parts::lemma_parts_needed(data.len() as int, size);
        }
        let mut i: usize = 0;
        while i < filled.len()
            invariant
                i <= filled@.len(),
                size == before.part_size,
                first == before.pending@.len(),
                first == before.splitter.next_part(),
                parts::are_numbered_parts(filled@, first, whole),
                self.root_folder@ == before.root_folder@,
                self.location@ == before.location@,
                self.part_size == before.part_size,
                self.poisoned == before.poisoned,
                self.splitter.part_size() == size,
                self.splitter.held() == parts::remainder(data, size),
                self.splitter.total() == before.splitter.total() + buf@.len(),
                self.splitter.next_part() == first + filled@.len(),
                self.pending@.len() == first + i,
                self.pending@.take(first) == before.pending@,
                out@.len() == i,
                are_part_pairs(
                    pairs(self.pending@),
                    self.pending@.len() as int,
                    self.root_folder@,
                    self.location@,
                    size,
                ),
                forall|k: int|
                    0 <= k < i ==> (#[trigger] out@[k]).tmp_path@ == self.pending@[first + k].0@
                        && buffers::bytes_contents(out@[k].bytes) == whole[k],
                forall|k: int|
                    0 <= k < i ==> (#[trigger] out@[k]).tmp_path@ == drawn_tee_tmp(
                        layout::part_path(
                            before.root_folder@,
                            before.location@,
                            first + k,
                            size,
                        ),
                        seed_after_files(seed, k),
                    ),
                rng.seed() == seed_after_files(seed, i as int),
            decreases filled@.len() - i,
        {
            let ghost now = self.pending@;
            let part_number: PartID = filled[i].0;
            let bytes = filled[i].1.clone();
            assert(filled@[i as int].0 == first + i);
            let (tmp, place) = reserve_part_paths(
                rng,
                self.root_folder.as_str(),
                &self.location,
                part_number,
                self.part_size,
            );
            out.push(TeeWrite { tmp_path: tmp.clone(), bytes });
            self.pending.push((tmp, place));
            proof {
                random::lemma_seed_after(
                    seed,
                    (i * TEE_SUFFIX_LEN) as nat,
                    TEE_SUFFIX_LEN as nat,
                );
                assert(self.pending@.take(first) =~= now.take(first));
                assert forall|k: int| 0 <= k < self.pending@.len() implies (#[trigger] pairs(
                    self.pending@,
                )[k]).1 == layout::part_path(self.root_folder@, self.location@, k, size)
                    && is_tee_tmp(pairs(self.pending@)[k].0, pairs(self.pending@)[k].1) by {
                    if k < now.len() {
                        assert(pairs(now)[k] == pairs(self.pending@)[k]);
                    }
                }
            }
            i = i + 1;
        }
        proof {
            assert(pairs(self.pending@).take(first) =~= pairs(before.pending@)) by {
                assert forall|k: int| 0 <= k < first implies pairs(self.pending@)[k] == pairs(
                    before.pending@,
                )[k] by {
                    assert(self.pending@.take(first)[k] == self.pending@[k]);
                }
            }
        }
        out
    }

    /// Takes note that a write has failed or can no longer be handed on.
    pub fn poison(&mut self)
        requires
            old(self).wf(),
        ensures
            final(self).wf(),
            final(self).is_poisoned(),
            final(self).root() == old(self).root(),
            final(self).object() == old(self).object(),
            final(self).part_size() == old(self).part_size(),
            final(self).held() == old(self).held(),
            final(self).total() == old(self).total(),
            final(self).pending() == old(self).pending(),
    {
        self.poisoned = true;
    }

    /// Whether a write has failed.
    pub fn poisoned(&self) -> (r: bool)
        ensures
            r == self.is_poisoned(),
    {
        self.poisoned
    }

    /// Ends the stream. What is held goes out as the last part, unless a write has
    /// failed.
    pub fn seal(self, rng: &mut DbRand) -> (r: (SealedTee, Option<TeeWrite>))
        requires
            self.wf(),
        ensures
            r.0.wf(),
            has_sealed(self, r.0, r.1),
            r.1 matches Some(write) ==> write.tmp_path@ == drawn_tee_tmp(
                layout::part_path(
                    self.root(),
                    self.object(),
                    self.pending().len() as int,
                    self.part_size(),
                ),
                old(rng).seed(),
            ),
            final(rng).seed() == seed_after_files(
                old(rng).seed(),
                if r.1 is Some {
                    1
                } else {
                    0
                },
            ),
    {
        let ghost before = self;
        let FsCacheTee { root_folder, location, part_size, splitter, pending, poisoned } = self;
        let mut splitter = splitter;
        let mut pending = pending;
        let total_bytes: u64 = splitter.total_bytes();
        let mut write: Option<TeeWrite> = None;
        if !poisoned {
            if let Some((part_number, bytes)) = splitter.flush() {
                let (tmp, place) = reserve_part_paths(
                    rng,
                    root_folder.as_str(),
                    &location,
                    part_number,
                    part_size,
                );
                write = Some(TeeWrite { tmp_path: tmp.clone(), bytes });
                pending.push((tmp, place));
                proof {
                    let n = before.pending@.len() as int;
                    assert(pairs(pending@).drop_last() =~= pairs(before.pending@));
                    assert forall|k: int| 0 <= k < pending@.len() implies (#[trigger] pairs(
                        pending@,
                    )[k]).1 == layout::part_path(root_folder@, location@, k, part_size as int)
                        && is_tee_tmp(pairs(pending@)[k].0, pairs(pending@)[k].1) by {
                        if k < n {
                            assert(pairs(before.pending@)[k] == pairs(pending@)[k]);
                        }
                    }
                }
            }
        }
        let sealed = SealedTee {
            root_folder,
            location,
            part_size,
            total_bytes,
            pending,
            head_reserved: false,
            poisoned,
        };
        (sealed, write)
    }

    /// Gives the tee up. What is returned are the temporary files to delete.
    pub fn abandon(self) -> (r: Vec<String>)
        ensures
            are_tmp_names(r@, self.pending()),
    {
        tmp_names(&self.pending)
    }
}

/// A tee whose bytes are all in.
pub struct SealedTee {
    root_folder: String,
    location: Path,
    part_size: usize,
    total_bytes: u64,
    pending: Vec<(String, String)>,
    head_reserved: bool,
    poisoned: bool,
}

/// `names` are the temporary names of `files`, in order.
pub open spec fn are_tmp_names(names: Seq<String>, files: Seq<(Seq<char>, Seq<char>)>) -> bool {
    &&& names.len() == files.len()
    &&& forall|i: int| 0 <= i < names.len() ==> (#[trigger] names[i])@ == files[i].0
}

/// How a tee ends whose writes have come to an end.
pub open spec fn is_outcome(tee: SealedTee, all_written: bool, r: TeeOutcome) -> bool {
    &&& r is Rename <==> all_written && !tee.is_poisoned()
    &&& r matches TeeOutcome::Rename(files) ==> pairs(files@) == tee.pending()
    &&& r matches TeeOutcome::CleanUp(files) ==> are_tmp_names(files@, tee.pending())
}

/// How a tee ends.
pub enum TeeOutcome {
    /// Rename these files in this order.
    Rename(Vec<(String, String)>),
    /// Delete these temporary files.
    CleanUp(Vec<String>),
}

impl SealedTee {
    /// The root folder of the cache.
    pub closed spec fn root(self) -> Seq<char> {
        self.root_folder@
    }

    /// The object.
    pub closed spec fn object(self) -> Seq<char> {
        self.location@
    }

    pub closed spec fn part_size(self) -> int {
        self.part_size as int
    }

    /// How many bytes came in.
    pub closed spec fn total(self) -> int {
        self.total_bytes as int
    }

    /// The files that were handed out to be written, with their places.
    pub closed spec fn pending(self) -> Seq<(Seq<char>, Seq<char>)> {
        pairs(self.pending@)
    }

    /// Whether the head is among the files.
    pub closed spec fn has_head(self) -> bool {
        self.head_reserved
    }

    /// Whether a write has failed.
    pub closed spec fn is_poisoned(self) -> bool {
        self.poisoned
    }

    /// The parts come first, in order, and the head, once it is there, comes last.
    pub open spec fn wf(self) -> bool {
        let n = self.pending().len() as int;
        let count = if self.has_head() {
            n - 1
        } else {
            n
        };
        &&& count >= 0
        &&& are_part_pairs(self.pending(), count, self.root(), self.object(), self.part_size())
        &&& self.has_head() ==> self.pending().last().1 == layout::head_path(
            self.root(),
            self.object(),
        ) && is_tee_tmp(self.pending().last().0, self.pending().last().1)
    }

    /// The size of the object as it was written, for its head.
    pub fn total_bytes(&self) -> (r: u64)
        ensures
            r == self.total(),
    {
        self.total_bytes
    }

    /// The head of the object as it was written: what is known of it, with the size that
    /// came in.
    pub fn head(&self, meta: ObjectHead) -> (r: ObjectHead)
        ensures
            r == (ObjectHead { size: r.size, ..meta }),
            r.size == self.total(),
    {
        ObjectHead {
            location: meta.location,
            last_modified: meta.last_modified,
            size: self.total_bytes,
            e_tag: meta.e_tag,
            version: meta.version,
        }
    }

    /// Hands out the head to be written.
    pub fn reserve_head(&mut self, rng: &mut DbRand, head: Bytes) -> (r: TeeWrite)
        requires
            old(self).wf(),
            !old(self).has_head(),
        ensures
            final(self).wf(),
            has_reserved_head(*old(self), *final(self), r),
            buffers::bytes_contents(r.bytes) == buffers::bytes_contents(head),
            r.tmp_path@ == drawn_tee_tmp(
                layout::head_path(old(self).root(), old(self).object()),
                old(rng).seed(),
            ),
            final(rng).seed() == seed_after_files(old(rng).seed(), 1),
    {
        let ghost before = self.pending@;
        let (tmp, place) = reserve_head_paths(rng, self.root_folder.as_str(), &self.location);
        let write = TeeWrite { tmp_path: tmp.clone(), bytes: head };
        self.pending.push((tmp, place));
        self.head_reserved = true;
        proof {
            assert(pairs(self.pending@).drop_last() =~= pairs(before));
            assert forall|k: int| 0 <= k < before.len() implies pairs(before)[k] == #[trigger] pairs(
                self.pending@,
            )[k] by {}
        }
        write
    }

    /// Takes note that a write has failed or can no longer be handed on.
    pub fn poison(&mut self)
        requires
            old(self).wf(),
        ensures
            final(self).wf(),
            final(self).is_poisoned(),
            final(self).has_head() == old(self).has_head(),
            final(self).root() == old(self).root(),
            final(self).object() == old(self).object(),
            final(self).part_size() == old(self).part_size(),
            final(self).total() == old(self).total(),
            final(self).pending() == old(self).pending(),
    {
        self.poisoned = true;
    }

    /// Ends the tee once every write has come to an end. If all of them are on disk
    /// the files are renamed in the order in which they were registered, else what
    /// was written is deleted.
    pub fn finish(self, all_written: bool) -> (r: TeeOutcome)
        ensures
            is_outcome(self, all_written, r),
    {
        if self.poisoned || !all_written {
            TeeOutcome::CleanUp(tmp_names(&self.pending))
        } else {
            TeeOutcome::Rename(self.pending)
        }
    }
}

proof fn lemma_tee_run(tees: Seq<FsCacheTee>, bufs: Seq<Seq<u8>>, writes: Seq<Seq<TeeWrite>>)
    requires
        is_tee_run(tees, bufs, writes),
    ensures
        ({
            let (whole, held) = parts::split_stream(bufs, tees[0].part_size());
            &&& are_writes_of(writes.flatten(), tees.last().pending(), 0, whole)
            &&& tees.last().held() == held
            &&& tees.last().total() == bufs.flatten().len()
            &&& tees.last().root() == tees[0].root()
            &&& tees.last().object() == tees[0].object()
            &&& tees.last().part_size() == tees[0].part_size()
            &&& !tees.last().is_poisoned()
        }),
    decreases bufs.len(),
{
    let size = tees[0].part_size();
    if bufs.len() == 0 {
        assert(bufs =~= Seq::<Seq<u8>>::empty());
        assert(writes =~= Seq::<Seq<TeeWrite>>::empty());
        assert(bufs.flatten() =~= Seq::<u8>::empty());
        assert(writes.flatten() =~= Seq::<TeeWrite>::empty());
        assert(tees.last() == tees[0]);
    } else {
        let n = bufs.len() - 1;
        let earlier = tees.drop_last();
        assert forall|i: int|
            #![trigger writes.drop_last()[i]]
            0 <= i < n implies has_extended(
            earlier[i],
            earlier[i + 1],
            bufs.drop_last()[i],
            writes.drop_last()[i],
        ) by {
            assert(writes[i] == writes.drop_last()[i]);
        }
        lemma_tee_run(earlier, bufs.drop_last(), writes.drop_last());
        assert(has_extended(tees[n], tees[n + 1], bufs[n], writes[n]));
        assert(earlier.last() == tees[n]);
        assert(bufs =~= bufs.drop_last().push(bufs[n]));
        assert(writes =~= writes.drop_last().push(writes[n]));
        bufs.drop_last().lemma_flatten_push(bufs[n]);
        writes.drop_last().lemma_flatten_push(writes[n]);
        let given = writes.drop_last().flatten();
        let all = given + writes[n];
        let (whole, held) = parts::split_stream(bufs.drop_last(), size);
        let next = parts::whole_parts(held + bufs[n], size);
        let pending = tees[n + 1].pending();
        assert forall|i: int| 0 <= i < all.len() implies (#[trigger] all[i]).tmp_path@
            == pending[i].0 && buffers::bytes_contents(all[i].bytes) == (whole + next)[i] by {
            if i < given.len() {
                assert(all[i] == given[i]);
                assert(pending.take(given.len() as int)[i] == pending[i]);
            } else {
                assert(all[i] == writes[n][i - given.len()]);
            }
        }
    }
}

/// A tee that commits puts the object into the cache. However its bytes came in, the files
/// that are renamed are one for each part of the object, in order and under the place of that
/// part, each written with the bytes of that part; the head comes last, and tells the size of
/// what came in. `written` are all the parts that were handed out, in order.
pub proof fn lemma_commit_saves_object(
    tees: Seq<FsCacheTee>,
    bufs: Seq<Seq<u8>>,
    writes: Seq<Seq<TeeWrite>>,
    sealed: SealedTee,
    tail: Option<TeeWrite>,
    ready: SealedTee,
    head: TeeWrite,
    written: Seq<TeeWrite>,
    files: Seq<(Seq<char>, Seq<char>)>,
)
    requires
        is_tee_run(tees, bufs, writes),
        tees[0].part_size() > 0,
        has_sealed(tees.last(), sealed, tail),
        has_reserved_head(sealed, ready, head),
        ready.wf(),
        written == (if tail is Some {
            writes.flatten().push(tail->0)
        } else {
            writes.flatten()
        }),
        files == ready.pending(),
    ensures
        ({
            let data = bufs.flatten();
            let part_size = tees[0].part_size();
            let count = parts::all_parts(data, part_size).len() as int;
            &&& written.len() == count
            &&& files.len() == count + 1
            &&& forall|i: int|
                #![trigger files[i]]
                #![trigger written[i]]
                0 <= i < count ==> {
                    &&& buffers::bytes_contents(written[i].bytes) == parts::part_of(
                        data,
                        i,
                        part_size,
                    )
                    &&& files[i].0 == written[i].tmp_path@
                    &&& files[i].1 == layout::part_path(
                        tees[0].root(),
                        tees[0].object(),
                        i,
                        part_size,
                    )
                }
            &&& files[count].0 == head.tmp_path@
            &&& files[count].1 == layout::head_path(tees[0].root(), tees[0].object())
            &&& ready.total() == data.len()
        }),
{
    let size = tees[0].part_size();
    let data = bufs.flatten();
    lemma_tee_run(tees, bufs, writes);
    parts::lemma_stream_parts(bufs, size);
    let given = writes.flatten();
    let count = parts::all_parts(data, size).len() as int;
    assert(ready.pending().drop_last() == sealed.pending());
    assert forall|i: int|
        #![trigger files[i]]
        #![trigger written[i]]
        0 <= i < count implies buffers::bytes_contents(written[i].bytes) == parts::part_of(
        data,
        i,
        size,
    ) && files[i].0 == written[i].tmp_path@ && files[i].1 == layout::part_path(
        tees[0].root(),
        tees[0].object(),
        i,
        size,
    ) by {
        assert(parts::all_parts(data, size)[i] == parts::part_of(data, i, size));
        assert(files.drop_last()[i] == files[i]);
        if i < given.len() {
            assert(written[i] == given[i]);
            if tail is Some {
                assert(sealed.pending().drop_last()[i] == sealed.pending()[i]);
            }
        }
    }
}

/// The head is renamed last: when it is in place, every part is.
pub proof fn lemma_head_is_renamed_last(tee: SealedTee, i: int)
    requires
        tee.wf(),
        tee.has_head(),
        0 <= i < tee.pending().len(),
    ensures
        tee.pending()[i].1 == layout::head_path(tee.root(), tee.object()) <==> i
            == tee.pending().len() - 1,
        i < tee.pending().len() - 1 ==> tee.pending()[i].1 == layout::part_path(
            tee.root(),
            tee.object(),
            i,
            tee.part_size(),
        ),
{
    if i < tee.pending().len() - 1 {
        layout::lemma_part_is_not_head(tee.root(), tee.object(), i, tee.part_size());
    }
}

/// `events` tell of the renamed files, each with its size and whether it may set off an
/// eviction.
pub open spec fn are_tracking_events(
    events: Seq<(String, usize, bool)>,
    renamed: Seq<(String, u64)>,
) -> bool {
    &&& events.len() == renamed.len()
    &&& forall|i: int|
        0 <= i < events.len() ==> (#[trigger] events[i]).0@ == renamed[i].0@ && events[i].1
            == renamed[i].1 && events[i].2 == (i == renamed.len() - 1)
}

/// The events by which the evictor learns of the renamed files: each with its size,
/// and the last one may set off an eviction.
pub fn tracking_events(renamed: &Vec<(String, u64)>) -> (r: Vec<(String, usize, bool)>)
    requires
        forall|i: int| 0 <= i < renamed@.len() ==> (#[trigger] renamed@[i]).1 <= usize::MAX,
    ensures
        are_tracking_events(r@, renamed@),
{
    let mut out: Vec<(String, usize, bool)> = Vec::new();
    let count: usize = renamed.len();
    let mut i: usize = 0;
    while i < count
        invariant
            count == renamed@.len(),
            i <= count,
            out@.len() == i,
            forall|k: int| 0 <= k < renamed@.len() ==> (#[trigger] renamed@[k]).1 <= usize::MAX,
            forall|k: int|
                0 <= k < i ==> (#[trigger] out@[k]).0@ == renamed@[k].0@ && out@[k].1
                    == renamed@[k].1 && out@[k].2 == (k == count - 1),
        decreases count - i,
    {
        assert(renamed@[i as int].1 <= usize::MAX);
        out.push((renamed[i].0.clone(), renamed[i].1 as usize, i + 1 == count));
        i = i + 1;
    }
    out
}

/// A tee commits as a whole or not at all: if every file is on disk all of them are renamed,
/// each from the temporary name under which it was handed out to its place, and else none is,
/// and every temporary file that was handed out is deleted.
pub proof fn lemma_tee_ends_whole(tee: SealedTee, all_written: bool, r: TeeOutcome, i: int)
    requires
        is_outcome(tee, all_written, r),
        0 <= i < tee.pending().len(),
    ensures
        !all_written || tee.is_poisoned() ==> r is CleanUp,
        all_written && !tee.is_poisoned() ==> r is Rename,
        r matches TeeOutcome::Rename(files) ==> files@.len() == tee.pending().len()
            && files@[i].0@ == tee.pending()[i].0 && files@[i].1@ == tee.pending()[i].1,
        r matches TeeOutcome::CleanUp(files) ==> files@.len() == tee.pending().len()
            && files@[i]@ == tee.pending()[i].0,
{
    if let TeeOutcome::Rename(files) = r {
        assert(pairs(files@)[i] == tee.pending()[i]);
    }
}

/// A tee with a failed write takes in nothing more, hands out nothing more, and still has every
/// file that it handed out before; it never renames any.
pub proof fn lemma_failed_tee_stops(
    before: FsCacheTee,
    after: FsCacheTee,
    buf: Seq<u8>,
    writes: Seq<TeeWrite>,
    sealed: SealedTee,
    tail: Option<TeeWrite>,
    all_written: bool,
    r: TeeOutcome,
)
    requires
        before.is_poisoned(),
        has_extended(before, after, buf, writes),
        has_sealed(after, sealed, tail),
        is_outcome(sealed, all_written, r),
    ensures
        writes.len() == 0,
        tail is None,
        after.total() == before.total(),
        after.held() == before.held(),
        sealed.pending() == before.pending(),
        !sealed.has_head(),
        r is CleanUp,
{
}

/// A tee that takes in bytes loses none: what it held and what came in is what it hands out,
/// in full parts, and what it holds then, which is less than a part.
pub proof fn lemma_extend_keeps_bytes(
    before: FsCacheTee,
    after: FsCacheTee,
    buf: Seq<u8>,
    writes: Seq<TeeWrite>,
    i: int,
    k: int,
)
    requires
        !before.is_poisoned(),
        before.part_size() > 0,
        has_extended(before, after, buf, writes),
        0 <= i < writes.len(),
        0 <= k < before.part_size(),
    ensures
        ({
            let size = before.part_size();
            let data = before.held() + buf;
            &&& buffers::bytes_contents(writes[i].bytes).len() == size
            &&& buffers::bytes_contents(writes[i].bytes)[k] == data[i * size + k]
            &&& after.held().len() + writes.len() * size == data.len()
            &&& after.held().len() < size
            &&& after.total() == before.total() + buf.len()
        }),
{
    let size = before.part_size();
    let data = before.held() + buf;
    let q = data.len() as int / size;
    parts::lemma_parts_needed(data.len() as int, size);
    assert((i + 1) * size == i * size + size) by (nonlinear_arith);
    assert(0 <= i * size) by (nonlinear_arith)
        requires
            i >= 0,
            size > 0,
    ;
    assert((i + 1) * size <= q * size) by (nonlinear_arith)
        requires
            i + 1 <= q,
            size > 0,
    ;
    assert(buffers::bytes_contents(writes[i].bytes) == parts::whole_parts(data, size)[i]);
}

/// A temporary name is the place, `.tmp-`, and sixteen letters or digits.
pub proof fn lemma_tee_tmp_form(tmp: Seq<char>, place: Seq<char>, k: int)
    requires
        is_tee_tmp(tmp, place),
    ensures
        tmp.len() == place.len() + 21,
        tmp.take(place.len() as int) == place,
        tmp.subrange(place.len() as int, place.len() as int + 5) == seq!['.', 't', 'm', 'p', '-'],
        place.len() + 5 <= k < tmp.len() ==> random::is_alphanumeric(tmp[k]),
        tmp != place,
{
    reveal_strlit(".tmp-");
    let suffix = choose|suffix: Seq<char>| #[trigger] is_tee_tmp_with(tmp, place, suffix);
    assert(tmp.take(place.len() as int) =~= place);
    assert(tmp.subrange(place.len() as int, place.len() as int + 5) =~= seq!['.', 't', 'm', 'p', '-']);
    if place.len() + 5 <= k < tmp.len() {
        assert(tmp[k] == suffix[k - place.len() - 5]);
    }
}

/// Every renamed file is told of, with its size, and the last one alone may set off an
/// eviction.
pub proof fn lemma_last_event_evicts(
    events: Seq<(String, usize, bool)>,
    renamed: Seq<(String, u64)>,
    i: int,
)
    requires
        are_tracking_events(events, renamed),
        0 <= i < renamed.len(),
    ensures
        events.len() == renamed.len(),
        events[i].0@ == renamed[i].0@,
        events[i].1 == renamed[i].1,
        events[i].2 <==> i + 1 == events.len(),
{
}

} // verus!
