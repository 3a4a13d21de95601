//! The bookkeeping of a worker thread that owns an `io_uring`: which reads and writes
//! are in flight, how they are aligned, and how a large write goes out chunk by chunk
//! between them. Buffers, files and the ring itself belong to whoever runs the worker.
//! Times are microseconds from some fixed moment.

use crate::cached_object_store::pacing;
use crate::cached_object_store::pacing::{PacingController, PauseChoice};
use crate::cached_object_store::parts;
use std::collections::HashMap;
use vstd::prelude::*;

verus! {

/// What direct I/O must be aligned to.
pub const O_DIRECT_ALIGN: usize = 4096;

/// The depth of the submission queue.
pub const URING_SQ_ENTRIES: u32 = 1024;

/// How many requests are taken in before they are submitted.
pub const SUBMIT_BATCH_SIZE: usize = 64;

/// The longest nap between two chunks of a paced write.
pub const MAX_IDLE_SLEEP_US: u64 = 50_000;

/// How long an idle worker waits when no chunk is scheduled.
pub const IDLE_POLL_US: u64 = 1_000;

/// Where a read goes to the file, and where in what it brings the wanted bytes begin.
#[derive(Clone, Copy, Debug, PartialEq, Eq, Structural)]
pub struct ReadPlan {
    pub file_offset: u64,
    pub submit_len: usize,
    pub head_pad: usize,
}

/// How a read of `len` bytes at `offset` goes to the file: as it is, or widened to the
/// alignment of direct I/O on both ends.
pub open spec fn is_read_plan(plan: ReadPlan, direct_io: bool, offset: u64, len: usize) -> bool {
    if direct_io {
        &&& plan.file_offset == parts::align_down(offset as int, O_DIRECT_ALIGN as int)
        &&& plan.head_pad == offset - plan.file_offset
        &&& plan.submit_len == parts::align_up(plan.head_pad + len, O_DIRECT_ALIGN as int)
    } else {
        plan.file_offset == offset && plan.head_pad == 0 && plan.submit_len == len
    }
}

/// Plans a read of `len` bytes at `offset`.
pub fn plan_read(direct_io: bool, offset: u64, len: usize) -> (r: ReadPlan)
    requires
        len <= isize::MAX,
    ensures
        is_read_plan(r, direct_io, offset, len),
{
    if !direct_io {
        return ReadPlan { file_offset: offset, submit_len: len, head_pad: 0 };
    }
    proof {
        parts::lemma_parts_needed(offset as int, O_DIRECT_ALIGN as int);
    }
    let file_offset: u64 = offset - offset % 4096;
    let head_pad: usize = (offset - file_offset) as usize;
    let wanted: usize = head_pad + len;
    proof {
        parts::lemma_parts_needed(wanted as int, O_DIRECT_ALIGN as int);
    }
    let submit_len: usize = aligned_len(wanted);
    ReadPlan { file_offset, submit_len, head_pad }
}

/// `len` rounded up to the alignment of direct I/O.
pub fn aligned_len(len: usize) -> (r: usize)
    requires
        len + O_DIRECT_ALIGN <= usize::MAX,
    ensures
        r == parts::align_up(len as int, O_DIRECT_ALIGN as int),
{
    proof {
        parts::lemma_parts_needed(len as int, O_DIRECT_ALIGN as int);
    }
    let rest: usize = len % 4096;
    if rest == 0 {
        len
    } else {
        len - rest + 4096
    }
}

/// Which bytes of what a read has brought are the answer: from where, and how many. A
/// read may bring less than it asked for.
pub open spec fn read_slice(head_pad: int, requested_len: int, brought: int) -> (int, int) {
    let there = if brought > head_pad {
        brought - head_pad
    } else {
        0
    };
    (head_pad, parts::min_int(there, requested_len))
}

/// A planned read brings the wanted bytes: if the buffer holds the file from the planned
/// offset on, the answer is what the file holds from `offset` on.
pub proof fn lemma_read_answers(
    file: Seq<u8>,
    buffer: Seq<u8>,
    plan: ReadPlan,
    direct_io: bool,
    offset: u64,
    len: usize,
    brought: int,
)
    requires
        is_read_plan(plan, direct_io, offset, len),
        0 <= brought <= plan.submit_len,
        brought <= buffer.len(),
        plan.file_offset + brought <= file.len(),
        buffer.take(brought) == file.subrange(
            plan.file_offset as int,
            plan.file_offset + brought,
        ),
    ensures
        ({
            let (from, take) = read_slice(plan.head_pad as int, len as int, brought);
            &&& 0 <= from && (take > 0 ==> from + take <= brought)
            &&& 0 <= take <= len
            &&& take > 0 ==> buffer.subrange(from, from + take) == file.subrange(
                offset as int,
                offset + take,
            )
            &&& brought == plan.submit_len ==> take == len
            &&& from == offset - plan.file_offset
            &&& plan.head_pad + len <= brought ==> take == len
        }),
{
    parts::lemma_parts_needed(offset as int, O_DIRECT_ALIGN as int);
    parts::lemma_parts_needed(plan.head_pad + len, O_DIRECT_ALIGN as int);
    let (from, take) = read_slice(plan.head_pad as int, len as int, brought);
    if take > 0 {
        assert forall|k: int| 0 <= k < take implies buffer.subrange(from, from + take)[k]
            == #[trigger] file.subrange(offset as int, offset + take)[k] by {
            assert(buffer.take(brought)[from + k] == buffer[from + k]);
        }
        assert(buffer.subrange(from, from + take) =~= file.subrange(offset as int, offset + take));
    }
}

/// How a write goes out.
#[derive(Clone, Copy, Debug, PartialEq, Eq, Structural)]
pub enum WritePlan {
    /// In one piece.
    Whole { direct_io: bool },
    /// In chunks with pauses between them.
    Paced { direct_io: bool },
}

/// Why a paced write has failed.
#[derive(Clone, Copy, Debug, PartialEq, Eq, Structural)]
pub enum PacedFailure {
    /// The system reported this error.
    Errno(i64),
    /// A chunk was written in part.
    ShortWrite { written: usize, expected: usize },
    /// There was no memory for a chunk.
    NoBuffer,
}

/// A large write between its chunks.
#[derive(Clone, Copy, Debug, PartialEq, Eq, Structural)]
pub struct PacedWrite {
    pub total_len: usize,
    pub chunk_bytes: usize,
    pub next_offset_to_submit: usize,
    pub direct_io: bool,
    pub needs_truncate: bool,
    pub rename: bool,
    pub failed: Option<PacedFailure>,
}

/// What is in flight under one number.
#[derive(Clone, Copy, Debug, PartialEq, Eq, Structural)]
pub enum InFlight {
    Read { head_pad: usize, requested_len: usize, submitted_at_us: u64 },
    Write { rename: bool, len: usize },
    PacedChunk { paced_write_id: u64, chunk_len: usize },
}

/// One chunk on its way to the file.
#[derive(Clone, Copy, Debug, PartialEq, Eq, Structural)]
pub struct Chunk {
    pub user_data: u64,
    pub start: usize,
    pub end: usize,
    /// What is handed to the kernel: the bytes of the chunk, with zeros behind them up to
    /// the alignment where the write is direct.
    pub submit_len: usize,
}

/// How a paced write ends.
#[derive(Clone, Copy, Debug, PartialEq, Eq, Structural)]
pub struct PacedEnd {
    /// The failure, if there was one.
    pub failed: Option<PacedFailure>,
    /// Cut the file to this length first, where its end was filled with zeros.
    pub truncate_to: Option<usize>,
    /// Whether a temporary file is to be renamed into place.
    pub rename: bool,
}

/// What to do for a scheduled chunk.
#[derive(Clone, Copy, Debug, PartialEq, Eq, Structural)]
pub enum ChunkStep {
    /// The write is gone.
    Gone,
    /// Submit this chunk.
    Submit(Chunk),
    /// The write has failed before; end it.
    End(PacedEnd),
}

/// What a completion means.
#[derive(Clone, Copy, Debug, PartialEq, Eq, Structural)]
pub enum Completion {
    /// Nothing was in flight under this number.
    Unknown,
    /// A read has failed with this error.
    ReadFailed { errno: i64 },
    /// A read is answered with `take` bytes of its buffer from `from` on.
    ReadDone { from: usize, take: usize },
    /// A write has failed with this error; its temporary file is to be deleted.
    WriteFailed { errno: i64 },
    /// Of a write only a part went out; its temporary file is to be deleted.
    WriteShort { written: usize, expected: usize },
    /// A write is done; its temporary file is to be renamed into place, or not yet.
    WriteDone { rename: bool },
    /// A chunk came in for a write that is gone.
    PacedGone,
    /// A chunk is done and the next one is due after a pause.
    PacedNext { id: u64, pause: PauseChoice },
    /// A paced write has come to its end.
    PacedEnded { id: u64, end: PacedEnd },
}

/// What becomes of the file of a write that has ended.
#[derive(Clone, Copy, Debug, PartialEq, Eq, Structural)]
pub enum FileFate {
    Remove,
    Keep,
    Rename,
}

/// What becomes of the file, given whether its write failed and whether it is to be renamed.
pub open spec fn fate_of(failed: bool, rename: bool) -> FileFate {
    if failed {
        FileFate::Remove
    } else if rename {
        FileFate::Rename
    } else {
        FileFate::Keep
    }
}

/// A file whose write failed is removed; one that a tee has written stays until the tee
/// commits; any other is renamed into place.
pub fn file_fate(failed: bool, rename: bool) -> (r: FileFate)
    ensures
        r == fate_of(failed, rename),
{
    if failed {
        FileFate::Remove
    } else if rename {
        FileFate::Rename
    } else {
        FileFate::Keep
    }
}

/// The chunk of a paced write that is due next.
pub open spec fn is_next_chunk(chunk: Chunk, write: PacedWrite) -> bool {
    let len = chunk.end - chunk.start;
    &&& chunk.start == write.next_offset_to_submit
    &&& chunk.end == pacing::chunk_end(
        chunk.start as int,
        write.chunk_bytes as int,
        write.total_len as int,
    )
    &&& chunk.submit_len == if write.direct_io {
        parts::align_up(len, O_DIRECT_ALIGN as int)
    } else {
        len
    }
}

/// How `write` ends, given that it has failed or not.
pub open spec fn paced_end(write: PacedWrite, failed: Option<PacedFailure>) -> PacedEnd {
    PacedEnd {
        failed,
        truncate_to: if write.needs_truncate && failed is None {
            Some(write.total_len)
        } else {
            None
        },
        rename: write.rename,
    }
}

/// What the result of a chunk says of its write.
pub open spec fn chunk_failure(
    write: PacedWrite,
    chunk_len: usize,
    result: i32,
) -> Option<PacedFailure> {
    if result < 0 {
        Some(PacedFailure::Errno(-(result as int) as i64))
    } else if result != chunk_len {
        Some(PacedFailure::ShortWrite { written: result as usize, expected: chunk_len })
    } else {
        write.failed
    }
}

/// A paced write that holds together: its chunks have a size, what was submitted lies
/// within it, and only a direct write whose end lies off the alignment is ever cut.
pub open spec fn is_paced_write(write: PacedWrite) -> bool {
    &&& 0 < write.chunk_bytes
    &&& write.next_offset_to_submit <= write.total_len
    &&& write.total_len <= isize::MAX
    &&& write.direct_io ==> write.chunk_bytes % O_DIRECT_ALIGN == 0
    &&& write.direct_io && write.next_offset_to_submit < write.total_len
        ==> write.next_offset_to_submit % O_DIRECT_ALIGN == 0
    &&& write.failed is None ==> (write.needs_truncate <==> write.direct_io
        && write.next_offset_to_submit == write.total_len && write.total_len % O_DIRECT_ALIGN != 0)
}

/// The state of a worker: what is in flight, the paced writes between their chunks, and
/// when their next chunks are due.
pub struct UringWorker {
    direct_io: bool,
    chunk_bytes: usize,
    pacing_enabled: bool,
    pacing: PacingController,
    pending: HashMap<u64, InFlight>,
    paced_writes: HashMap<u64, PacedWrite>,
    delayed_chunks: Vec<(u64, u64)>,
    next_user_data: u64,
    next_paced_id: u64,
}

/// The two workers have the same settings.
pub open spec fn same_settings(a: UringWorker, b: UringWorker) -> bool {
    &&& a.is_direct() == b.is_direct()
    &&& a.chunk_size() == b.chunk_size()
    &&& a.paces() == b.paces()
}

/// The two workers have the same reads to go by.
pub open spec fn same_reads(a: UringWorker, b: UringWorker) -> bool {
    &&& a.controller().reads() == b.controller().reads()
    &&& a.controller().base_pause() == b.controller().base_pause()
    &&& a.controller().target() == b.controller().target()
}

/// Number `id` waits for its next chunk.
pub open spec fn is_delayed(delayed: Seq<(u64, u64)>, id: u64) -> bool {
    exists|i: int| 0 <= i < delayed.len() && (#[trigger] delayed[i]).1 == id
}

/// A chunk of write `id` is in flight under `user_data`.
pub open spec fn is_chunk_of(pending: Map<u64, InFlight>, user_data: u64, id: u64) -> bool {
    &&& pending.contains_key(user_data)
    &&& pending[user_data] matches InFlight::PacedChunk { paced_write_id, .. }
    &&& paced_write_id == id
}

impl UringWorker {
    pub closed spec fn is_direct(self) -> bool {
        self.direct_io
    }

    pub closed spec fn chunk_size(self) -> int {
        self.chunk_bytes as int
    }

    pub closed spec fn paces(self) -> bool {
        self.pacing_enabled
    }

    pub closed spec fn controller(self) -> PacingController {
        self.pacing
    }

    /// What is in flight, by number.
    pub closed spec fn pending(self) -> Map<u64, InFlight> {
        self.pending@
    }

    /// The paced writes, by number.
    pub closed spec fn paced(self) -> Map<u64, PacedWrite> {
        self.paced_writes@
    }

    /// The chunks that wait for their time, each with its time and the number of its write.
    pub closed spec fn delayed(self) -> Seq<(u64, u64)> {
        self.delayed_chunks@
    }

    /// The number under which the next request goes out.
    pub closed spec fn next_id(self) -> u64 {
        self.next_user_data
    }

    /// The number of the next paced write.
    pub closed spec fn next_paced(self) -> u64 {
        self.next_paced_id
    }

    /// Numbers are given out once. Every paced write holds together, and has at most one
    /// chunk that is in flight or waits for its time.
    pub closed spec fn wf(self) -> bool {
        &&& self.pacing_enabled ==> self.chunk_bytes > 0
        &&& forall|u: u64| #[trigger] self.pending@.contains_key(u) ==> u < self.next_user_data
        &&& forall|id: u64| #[trigger]
            self.paced_writes@.contains_key(id) ==> id < self.next_paced_id && is_paced_write(
                self.paced_writes@[id],
            )
        &&& forall|i: int|
            0 <= i < self.delayed_chunks@.len() ==> (#[trigger] self.delayed_chunks@[i]).1
                < self.next_paced_id
        &&& forall|u: u64, id: u64| #[trigger]
            is_chunk_of(self.pending@, u, id) ==> id < self.next_paced_id && !is_delayed(
                self.delayed_chunks@,
                id,
            )
        &&& forall|i: int, j: int|
            0 <= i < j < self.delayed_chunks@.len() ==> (#[trigger] self.delayed_chunks@[i]).1 != (
            #[trigger] self.delayed_chunks@[j]).1
        &&& forall|u: u64, v: u64, id: u64|
            #![trigger is_chunk_of(self.pending@, u, id), is_chunk_of(self.pending@, v, id)]
            is_chunk_of(self.pending@, u, id) && is_chunk_of(self.pending@, v, id) ==> u == v
    }

    /// At most one chunk of a paced write is on its way at any time: in flight, or waiting
    /// for its turn.
    pub proof fn lemma_one_chunk_at_a_time(self, id: u64, u: u64, v: u64)
        requires
            self.wf(),
            is_chunk_of(self.pending(), u, id),
        ensures
            is_chunk_of(self.pending(), v, id) ==> u == v,
            !is_delayed(self.delayed(), id),
    {
    }

    /// Nothing in flight. Writes are paced if both a chunk size and a pause are set.
    pub fn new(direct_io: bool, chunk_bytes: usize, pause_us: u64, target_read_p99_us: u64) -> (r:
        UringWorker)
        ensures
            r.wf(),
            r.is_direct() == direct_io,
            r.chunk_size() == chunk_bytes,
            r.paces() <==> chunk_bytes > 0 && pause_us > 0,
            r.controller().base_pause() == pause_us,
            r.controller().target() == target_read_p99_us,
            r.controller().reads() == Seq::<(u64, u64)>::empty(),
            r.pending() == Map::<u64, InFlight>::empty(),
            r.paced() == Map::<u64, PacedWrite>::empty(),
            r.delayed() == Seq::<(u64, u64)>::empty(),
            r.next_id() == 1,
            r.next_paced() == 1,
    {
        broadcast use vstd::std_specs::hash::group_hash_axioms;

        UringWorker {
            direct_io,
            chunk_bytes,
            pacing_enabled: chunk_bytes > 0 && pause_us > 0,
            pacing: PacingController::new(pause_us, target_read_p99_us),
            pending: HashMap::new(),
            paced_writes: HashMap::new(),
            delayed_chunks: Vec::new(),
            next_user_data: 1,
            next_paced_id: 1,
        }
    }

    /// Whether the worker may wait for a request without looking at anything else: only
    /// when nothing is in flight, nothing was taken in, and no paced write is between
    /// its chunks. Else it would sleep through the time of a chunk.
    pub fn should_block(&self, batched: usize) -> (r: bool)
        ensures
            r <==> may_block(*self, batched),
    {
        broadcast use vstd::std_specs::hash::group_hash_axioms;

        let nothing_pending = self.pending.is_empty();
        let nothing_paced = self.paced_writes.is_empty();
        assert(nothing_pending <==> self.pending@.dom() =~= Set::<u64>::empty());
        assert(nothing_paced <==> self.paced_writes@.dom() =~= Set::<u64>::empty());
        nothing_pending && batched == 0 && nothing_paced
    }

    /// Whether another request may be taken in before the next submission.
    pub fn may_take(&self, batched: usize) -> (r: bool)
        ensures
            r <==> batched < 64,
    {
        batched < SUBMIT_BATCH_SIZE
    }

    /// How many completions to wait for when submitting: one if anything is in flight. There
    /// is nothing to submit if nothing was taken in and nothing is in flight.
    pub fn submit_wait(&self, batched: usize) -> (r: Option<usize>)
        ensures
            is_submit_wait(*self, batched, r),
    {
        broadcast use vstd::std_specs::hash::group_hash_axioms;

        let nothing_pending = self.pending.is_empty();
        assert(nothing_pending <==> self.pending@.dom() =~= Set::<u64>::empty());
        if batched == 0 && nothing_pending {
            None
        } else if nothing_pending {
            Some(0)
        } else {
            Some(1)
        }
    }

    /// How a write of `len` bytes goes out. A paced write is direct only if its chunks are
    /// aligned, a whole one only if its length is.
    pub fn plan_write(&self, len: usize) -> (r: WritePlan)
        ensures
            r == write_plan_of(*self, len),
    {
        if self.pacing_enabled && len > self.chunk_bytes {
            WritePlan::Paced { direct_io: self.direct_io && self.chunk_bytes % 4096 == 0 }
        } else {
            WritePlan::Whole { direct_io: self.direct_io && len % 4096 == 0 }
        }
    }

    /// Takes the next number.
    pub fn take_id(&mut self) -> (r: u64)
        requires
            old(self).wf(),
            old(self).next_id() < u64::MAX,
        ensures
            final(self).wf(),
            same_settings(*old(self), *final(self)),
            same_reads(*old(self), *final(self)),
            has_taken_id(*old(self), *final(self), r),
    {
        let r: u64 = self.next_user_data;
        self.next_user_data = self.next_user_data + 1;
        r
    }

    /// Takes note that a read was submitted under a number taken before.
    pub fn read_submitted(&mut self, user_data: u64, plan: ReadPlan, len: usize, now_us: u64)
        requires
            old(self).wf(),
            user_data < old(self).next_id(),
            !old(self).pending().contains_key(user_data),
        ensures
            final(self).wf(),
            same_settings(*old(self), *final(self)),
            same_reads(*old(self), *final(self)),
            has_submitted(
                *old(self),
                *final(self),
                user_data,
                (InFlight::Read {
                    head_pad: plan.head_pad,
                    requested_len: len,
                    submitted_at_us: now_us,
                }),
            ),
    {
        broadcast use vstd::std_specs::hash::group_hash_axioms;

        let ghost before = *self;
        self.pending.insert(
            user_data,
            InFlight::Read { head_pad: plan.head_pad, requested_len: len, submitted_at_us: now_us },
        );
        proof {
            lemma_other_chunks(before.pending@, self.pending@, user_data);
        }
    }

    /// Takes note that a whole write of `len` bytes was submitted under a number taken before.
    pub fn write_submitted(&mut self, user_data: u64, rename: bool, len: usize)
        requires
            old(self).wf(),
            user_data < old(self).next_id(),
            !old(self).pending().contains_key(user_data),
        ensures
            final(self).wf(),
            same_settings(*old(self), *final(self)),
            same_reads(*old(self), *final(self)),
            has_submitted(
                *old(self),
                *final(self),
                user_data,
                (InFlight::Write { rename, len }),
            ),
    {
        broadcast use vstd::std_specs::hash::group_hash_axioms;

        let ghost before = *self;
        self.pending.insert(user_data, InFlight::Write { rename, len });
        proof {
            lemma_other_chunks(before.pending@, self.pending@, user_data);
        }
    }

    /// Takes in a paced write whose file is open. Its first chunk is due at once.
    pub fn begin_paced(&mut self, total_len: usize, direct_io: bool, rename: bool, now_us: u64)
        -> (r: u64)
        requires
            old(self).wf(),
            old(self).next_paced() < u64::MAX,
            old(self).paces(),
            total_len > old(self).chunk_size(),
            total_len <= isize::MAX,
            direct_io ==> old(self).chunk_size() % O_DIRECT_ALIGN as int == 0,
        ensures
            final(self).wf(),
            same_settings(*old(self), *final(self)),
            same_reads(*old(self), *final(self)),
            has_begun_paced(*old(self), *final(self), total_len, direct_io, rename, now_us, r),
    {
        broadcast use vstd::std_specs::hash::group_hash_axioms;

        let ghost before = *self;
        let id: u64 = self.next_paced_id;
        self.next_paced_id = self.next_paced_id + 1;
        self.paced_writes.insert(
            id,
            PacedWrite {
                total_len,
                chunk_bytes: self.chunk_bytes,
                next_offset_to_submit: 0,
                direct_io,
                needs_truncate: false,
                rename,
                failed: None,
            },
        );
        self.delayed_chunks.push((now_us, id));
        proof {
            lemma_delayed_push(before.delayed_chunks@, now_us, id);
        }
        id
    }

    /// The chunks whose time has come, in the order in which they were scheduled. The others
    /// keep waiting.
    pub fn due_chunks(&mut self, now_us: u64) -> (r: Vec<(u64, u64)>)
        requires
            old(self).wf(),
        ensures
            final(self).wf(),
            same_settings(*old(self), *final(self)),
            same_reads(*old(self), *final(self)),
            are_due(old(self).delayed(), now_us, r@),
            are_later(old(self).delayed(), now_us, final(self).delayed()),
            forall|i: int| 0 <= i < r@.len() ==> is_idle(*final(self), (#[trigger] r@[i]).1),
            forall|i: int, j: int|
                0 <= i < j < r@.len() ==> (#[trigger] r@[i]).1 != (#[trigger] r@[j]).1,
            final(self).pending() == old(self).pending(),
            final(self).paced() == old(self).paced(),
            final(self).next_id() == old(self).next_id(),
            final(self).next_paced() == old(self).next_paced(),
    {
        let ghost before = *self;
        let ghost all = self.delayed_chunks@;
        let ghost is_due = |c: (u64, u64)| c.0 <= now_us;
        let ghost is_later = |c: (u64, u64)| c.0 > now_us;
        let mut due: Vec<(u64, u64)> = Vec::new();
        let mut later: Vec<(u64, u64)> = Vec::new();
        let mut i: usize = 0;
        proof {
            reveal(Seq::filter);
            assert(all.take(0) =~= Seq::<(u64, u64)>::empty());
        }
        while i < self.delayed_chunks.len()
            invariant
                *self == before,
                before.wf(),
                all == before.delayed_chunks@,
                i <= all.len(),
                is_due == (|c: (u64, u64)| c.0 <= now_us),
                is_later == (|c: (u64, u64)| c.0 > now_us),
                due@ == all.take(i as int).filter(is_due),
                later@ == all.take(i as int).filter(is_later),
                forall|a: int|
                    0 <= a < due@.len() ==> (#[trigger] due@[a]).0 <= now_us && (exists|k: int|
                        0 <= k < i && #[trigger] all[k] == due@[a]),
                forall|a: int|
                    0 <= a < later@.len() ==> (#[trigger] later@[a]).0 > now_us && (exists|k: int|
                        0 <= k < i && #[trigger] all[k] == later@[a]),
                forall|a: int, b: int|
                    0 <= a < b < due@.len() ==> (#[trigger] due@[a]).1 != (#[trigger] due@[b]).1,
                forall|a: int, b: int|
                    0 <= a < b < later@.len() ==> (#[trigger] later@[a]).1 != (
                    #[trigger] later@[b]).1,
            decreases all.len() - i,
        {
            let chunk: (u64, u64) = self.delayed_chunks[i];
            proof {
                reveal(Seq::filter);
                assert(all.take(i + 1).drop_last() =~= all.take(i as int));
                assert(all.take(i + 1).last() == chunk);
                assert(all[i as int] == chunk);
            }
            if chunk.0 > now_us {
                later.push(chunk);
            } else {
                due.push(chunk);
            }
            i = i + 1;
        }
        proof {
            assert(all.take(i as int) =~= all);
            assert forall|a: int, b: int| 0 <= a < due@.len() && 0 <= b < later@.len() implies (
            #[trigger] due@[a]).1 != (#[trigger] later@[b]).1 by {
                let k = choose|k: int| 0 <= k < all.len() && #[trigger] all[k] == due@[a];
                let l = choose|l: int| 0 <= l < all.len() && #[trigger] all[l] == later@[b];
                assert(k != l);
            }
        }
        self.delayed_chunks = later;
        proof {
            assert forall|k: u64| #[trigger] is_delayed(self.delayed_chunks@, k) implies is_delayed(
                all,
                k,
            ) by {
                let b = choose|b: int|
                    0 <= b < self.delayed_chunks@.len() && (#[trigger] self.delayed_chunks@[b]).1
                        == k;
                let l = choose|l: int|
                    0 <= l < all.len() && #[trigger] all[l] == self.delayed_chunks@[b];
                assert(all[l].1 == k);
            }
            assert forall|a: int| 0 <= a < due@.len() implies is_idle(*self, (#[trigger] due@[a]).1) by {
                let id = due@[a].1;
                let k = choose|k: int| 0 <= k < all.len() && #[trigger] all[k] == due@[a];
                assert(is_delayed(all, id)) by {
                    assert(all[k].1 == id);
                }
                assert forall|u: u64| !#[trigger] is_chunk_of(self.pending@, u, id) by {
                    assert(is_chunk_of(before.pending@, u, id) ==> !is_delayed(all, id));
                }
                if is_delayed(self.delayed_chunks@, id) {
                    let b = choose|b: int|
                        0 <= b < self.delayed_chunks@.len() && (#[trigger] self.delayed_chunks@[b]).1
                            == id;
                    assert(due@[a].1 != self.delayed_chunks@[b].1);
                }
            }
        }
        due
    }

    /// What to do for a chunk whose time has come.
    pub fn next_chunk(&mut self, id: u64) -> (r: ChunkStep)
        requires
            old(self).wf(),
        ensures
            final(self).wf(),
            same_settings(*old(self), *final(self)),
            same_reads(*old(self), *final(self)),
            is_chunk_step(*old(self), *final(self), id, r),
            final(self).pending() == old(self).pending(),
            final(self).delayed() == old(self).delayed(),
            final(self).next_id() == old(self).next_id(),
            final(self).next_paced() == old(self).next_paced(),
    {
        broadcast use vstd::std_specs::hash::group_hash_axioms;

        let write: PacedWrite = match self.paced_writes.get(&id) {
            None => {
                return ChunkStep::Gone;
            },
            Some(write) => *write,
        };
        if write.failed.is_some() {
            let end = end_of(&write, write.failed);
            self.paced_writes.remove(&id);
            return ChunkStep::End(end);
        }
        let start: usize = write.next_offset_to_submit;
        let end: usize = if write.chunk_bytes <= write.total_len - start {
            start + write.chunk_bytes
        } else {
            write.total_len
        };
        let submit_len: usize = if write.direct_io {
            aligned_len(end - start)
        } else {
            end - start
        };
        ChunkStep::Submit(Chunk { user_data: self.next_user_data, start, end, submit_len })
    }

    /// Takes note that a chunk was submitted.
    pub fn chunk_submitted(&mut self, id: u64, chunk: Chunk)
        requires
            old(self).wf(),
            old(self).next_id() < u64::MAX,
            old(self).paced().contains_key(id),
            old(self).paced()[id].failed is None,
            is_next_chunk(chunk, old(self).paced()[id]),
            chunk.user_data == old(self).next_id(),
            is_idle(*old(self), id),
        ensures
            final(self).wf(),
            same_settings(*old(self), *final(self)),
            same_reads(*old(self), *final(self)),
            has_submitted_chunk(*old(self), *final(self), id, chunk),
    {
        broadcast use vstd::std_specs::hash::group_hash_axioms;

        let ghost before = *self;
        let write: PacedWrite = match self.paced_writes.get(&id) {
            None => {
                return;
            },
            Some(write) => *write,
        };
        let padded = chunk.submit_len != chunk.end - chunk.start;
        proof {
            lemma_after_chunk(write, chunk);
        }
        self.paced_writes.insert(
            id,
            PacedWrite {
                total_len: write.total_len,
                chunk_bytes: write.chunk_bytes,
                next_offset_to_submit: chunk.end,
                direct_io: write.direct_io,
                needs_truncate: write.needs_truncate || padded,
                rename: write.rename,
                failed: write.failed,
            },
        );
        self.next_user_data = self.next_user_data + 1;
        self.pending.insert(
            chunk.user_data,
            InFlight::PacedChunk { paced_write_id: id, chunk_len: chunk.submit_len },
        );
        proof {
            let u = chunk.user_data;
            assert forall|v: u64, k: u64| #[trigger] is_chunk_of(self.pending@, v, k) implies k
                < self.next_paced_id && !is_delayed(self.delayed_chunks@, k) && (v == u ==> k == id)
                && (v != u ==> is_chunk_of(before.pending@, v, k) && k != id) by {
                assert(before.paced_writes@.contains_key(id));
                if v != u {
                    assert(is_chunk_of(before.pending@, v, k));
                    assert(!is_chunk_of(before.pending(), v, id));
                }
            }
        }
    }

    /// Takes note that there was no memory for a chunk: the write has failed, and is ended
    /// when its turn comes again.
    pub fn chunk_without_buffer(&mut self, id: u64, now_us: u64)
        requires
            old(self).wf(),
            old(self).paced().contains_key(id),
            is_idle(*old(self), id),
        ensures
            final(self).wf(),
            same_settings(*old(self), *final(self)),
            same_reads(*old(self), *final(self)),
            has_failed_chunk(*old(self), *final(self), id, now_us),
    {
        broadcast use vstd::std_specs::hash::group_hash_axioms;

        let ghost before = *self;
        let write: PacedWrite = match self.paced_writes.get(&id) {
            None => {
                return;
            },
            Some(write) => *write,
        };
        self.paced_writes.insert(
            id,
            PacedWrite {
                total_len: write.total_len,
                chunk_bytes: write.chunk_bytes,
                next_offset_to_submit: write.total_len,
                direct_io: write.direct_io,
                needs_truncate: write.needs_truncate,
                rename: write.rename,
                failed: Some(PacedFailure::NoBuffer),
            },
        );
        self.delayed_chunks.push((now_us, id));
        proof {
            lemma_delayed_push(before.delayed_chunks@, now_us, id);
            lemma_not_delayed(before.delayed_chunks@, id);
            assert(before.paced_writes@.contains_key(id));
            assert forall|v: u64, k: u64| #[trigger] is_chunk_of(self.pending@, v, k) implies k
                < self.next_paced_id && !is_delayed(self.delayed_chunks@, k) by {
                assert(is_chunk_of(before.pending@, v, k));
                assert(!is_chunk_of(before.pending(), v, id));
            }
        }
    }

    /// Lets the next chunk of a write wait until `at_us`.
    pub fn schedule_chunk(&mut self, id: u64, at_us: u64)
        requires
            old(self).wf(),
            old(self).paced().contains_key(id),
            is_idle(*old(self), id),
        ensures
            final(self).wf(),
            same_settings(*old(self), *final(self)),
            same_reads(*old(self), *final(self)),
            has_scheduled(*old(self), *final(self), id, at_us),
    {
        let ghost before = *self;
        self.delayed_chunks.push((at_us, id));
        proof {
            lemma_delayed_push(before.delayed_chunks@, at_us, id);
            lemma_not_delayed(before.delayed_chunks@, id);
            assert(before.paced_writes@.contains_key(id));
            assert forall|v: u64, k: u64| #[trigger] is_chunk_of(self.pending@, v, k) implies k
                < self.next_paced_id && !is_delayed(self.delayed_chunks@, k) by {
                assert(is_chunk_of(before.pending@, v, k));
                assert(!is_chunk_of(before.pending(), v, id));
            }
        }
    }

    /// Takes note of a completion and says what it means.
    pub fn complete(&mut self, user_data: u64, result: i32, now_us: u64) -> (r: Completion)
        requires
            old(self).wf(),
        ensures
            final(self).wf(),
            same_settings(*old(self), *final(self)),
            is_completion(*old(self), *final(self), user_data, result, now_us, r),
            r matches Completion::PacedNext { id, .. } ==> final(self).paced().contains_key(id)
                && is_idle(*final(self), id),
    {
        broadcast use vstd::std_specs::hash::group_hash_axioms;

        let ghost before = *self;
        let found: InFlight = match self.pending.remove(&user_data) {
            None => {
                assert(self.pending@ =~= before.pending@);
                return Completion::Unknown;
            },
            Some(found) => found,
        };
        proof {
            assert forall|v: u64, k: u64| #[trigger] is_chunk_of(self.pending@, v, k) implies v
                != user_data && is_chunk_of(before.pending@, v, k) by {}
        }
        match found {
            InFlight::Read { head_pad, requested_len, submitted_at_us } => {
                self.pacing.record_read(now_us, now_us.saturating_sub(submitted_at_us));
                if result < 0 {
                    return Completion::ReadFailed { errno: -(result as i64) };
                }
                let there: usize = (result as usize).saturating_sub(head_pad);
                let take: usize = if there <= requested_len {
                    there
                } else {
                    requested_len
                };
                Completion::ReadDone { from: head_pad, take }
            },
            InFlight::Write { rename, len } => {
                if result < 0 {
                    Completion::WriteFailed { errno: -(result as i64) }
                } else if result as usize != len {
                    Completion::WriteShort { written: result as usize, expected: len }
                } else {
                    Completion::WriteDone { rename }
                }
            },
            InFlight::PacedChunk { paced_write_id, chunk_len } => {
                assert(is_chunk_of(before.pending@, user_data, paced_write_id));
                self.complete_chunk(paced_write_id, chunk_len, result)
            },
        }
    }

    /// Takes note of the result of one chunk: the next one follows after a pause, or the
    /// write ends, with its last chunk or with a failure.
    fn complete_chunk(&mut self, id: u64, chunk_len: usize, result: i32) -> (r: Completion)
        requires
            old(self).wf(),
        ensures
            final(self).wf(),
            same_settings(*old(self), *final(self)),
            same_reads(*old(self), *final(self)),
            final(self).pending() == old(self).pending(),
            final(self).delayed() == old(self).delayed(),
            final(self).next_id() == old(self).next_id(),
            final(self).next_paced() == old(self).next_paced(),
            is_chunk_completion(*old(self), *final(self), id, chunk_len, result, r),
    {
        broadcast use vstd::std_specs::hash::group_hash_axioms;

        let write: PacedWrite = match self.paced_writes.get(&id) {
            None => {
                return Completion::PacedGone;
            },
            Some(write) => *write,
        };
        let failed: Option<PacedFailure> = if result < 0 {
            Some(PacedFailure::Errno(-(result as i64)))
        } else if result as usize != chunk_len {
            Some(PacedFailure::ShortWrite { written: result as usize, expected: chunk_len })
        } else {
            write.failed
        };
        if failed.is_none() && write.next_offset_to_submit < write.total_len {
            let pause = self.pacing.next_pause();
            return Completion::PacedNext { id, pause };
        }
        self.paced_writes.remove(&id);
        Completion::PacedEnded { id, end: end_of(&write, failed) }
    }

    /// How long the worker may nap when all that is left to do are chunks that wait for
    /// their time: until the first of them is due, but not for long.
    pub fn idle_sleep_us(&self, now_us: u64) -> (r: Option<u64>)
        ensures
            is_nap(*self, now_us, r),
    {
        broadcast use vstd::std_specs::hash::group_hash_axioms;

        let nothing_pending = self.pending.is_empty();
        let nothing_paced = self.paced_writes.is_empty();
        assert(nothing_pending <==> self.pending@.dom() =~= Set::<u64>::empty());
        assert(nothing_paced <==> self.paced_writes@.dom() =~= Set::<u64>::empty());
        if nothing_paced || !nothing_pending {
            return None;
        }
        if self.delayed_chunks.len() == 0 {
            return Some(IDLE_POLL_US);
        }
        let mut first: u64 = self.delayed_chunks[0].0;
        let mut i: usize = 1;
        assert(self.delayed_chunks@.take(1).drop_last() =~= Seq::<(u64, u64)>::empty());
        while i < self.delayed_chunks.len()
            invariant
                1 <= i <= self.delayed_chunks@.len(),
                first == earliest(self.delayed_chunks@.take(i as int)),
            decreases self.delayed_chunks@.len() - i,
        {
            proof {
                assert(self.delayed_chunks@.take(i + 1).drop_last() =~= self.delayed_chunks@.take(
                    i as int,
                ));
            }
            if self.delayed_chunks[i].0 < first {
                first = self.delayed_chunks[i].0;
            }
            i = i + 1;
        }
        assert(self.delayed_chunks@.take(i as int) =~= self.delayed_chunks@);
        if first <= now_us {
            return None;
        }
        let wait: u64 = first - now_us;
        if wait <= MAX_IDLE_SLEEP_US {
            Some(wait)
        } else {
            Some(MAX_IDLE_SLEEP_US)
        }
    }
}

/// `after` is `before` when it has given out the number `r`.
pub open spec fn has_taken_id(before: UringWorker, after: UringWorker, r: u64) -> bool {
    &&& r == before.next_id()
    &&& after.next_id() == before.next_id() + 1
    &&& after.next_paced() == before.next_paced()
    &&& after.pending() == before.pending()
    &&& after.paced() == before.paced()
    &&& after.delayed() == before.delayed()
}

/// `after` is `before` with `what` in flight under `user_data`.
pub open spec fn has_submitted(
    before: UringWorker,
    after: UringWorker,
    user_data: u64,
    what: InFlight,
) -> bool {
    &&& after.pending() == before.pending().insert(user_data, what)
    &&& after.paced() == before.paced()
    &&& after.delayed() == before.delayed()
    &&& after.next_id() == before.next_id()
    &&& after.next_paced() == before.next_paced()
}

/// `after` is `before` when it has taken in a paced write under the number `r`.
pub open spec fn has_begun_paced(
    before: UringWorker,
    after: UringWorker,
    total_len: usize,
    direct_io: bool,
    rename: bool,
    now_us: u64,
    r: u64,
) -> bool {
    &&& r == before.next_paced()
    &&& after.next_paced() == before.next_paced() + 1
    &&& after.next_id() == before.next_id()
    &&& after.pending() == before.pending()
    &&& after.paced() == before.paced().insert(
        r,
        (PacedWrite {
            total_len,
            chunk_bytes: before.chunk_size() as usize,
            next_offset_to_submit: 0,
            direct_io,
            needs_truncate: false,
            rename,
            failed: None,
        }),
    )
    &&& after.delayed() == before.delayed().push((now_us, r))
}

/// `after` is `before` when a chunk of write `id` has gone out.
pub open spec fn has_submitted_chunk(
    before: UringWorker,
    after: UringWorker,
    id: u64,
    chunk: Chunk,
) -> bool {
    &&& after.next_id() == before.next_id() + 1
    &&& after.next_paced() == before.next_paced()
    &&& after.delayed() == before.delayed()
    &&& after.pending() == before.pending().insert(
        chunk.user_data,
        (InFlight::PacedChunk { paced_write_id: id, chunk_len: chunk.submit_len }),
    )
    &&& after.paced() == before.paced().insert(id, after_chunk(before.paced()[id], chunk))
}

/// `after` is `before` when there was no memory for a chunk of write `id`.
pub open spec fn has_failed_chunk(
    before: UringWorker,
    after: UringWorker,
    id: u64,
    now_us: u64,
) -> bool {
    &&& after.paced() == before.paced().insert(
        id,
        (PacedWrite {
            failed: Some(PacedFailure::NoBuffer),
            next_offset_to_submit: before.paced()[id].total_len,
            ..before.paced()[id]
        }),
    )
    &&& after.delayed() == before.delayed().push((now_us, id))
    &&& after.pending() == before.pending()
    &&& after.next_id() == before.next_id()
    &&& after.next_paced() == before.next_paced()
}

/// `after` is `before` when the next chunk of write `id` waits until `at_us`.
pub open spec fn has_scheduled(
    before: UringWorker,
    after: UringWorker,
    id: u64,
    at_us: u64,
) -> bool {
    &&& after.delayed() == before.delayed().push((at_us, id))
    &&& after.paced() == before.paced()
    &&& after.pending() == before.pending()
    &&& after.next_id() == before.next_id()
    &&& after.next_paced() == before.next_paced()
}

/// No number is given out twice.
pub proof fn lemma_ids_differ(
    first: UringWorker,
    second: UringWorker,
    third: UringWorker,
    a: u64,
    b: u64,
)
    requires
        has_taken_id(first, second, a),
        has_taken_id(second, third, b),
    ensures
        a < b,
        third.next_id() > b,
        third.next_paced() == first.next_paced(),
        third.pending() == first.pending(),
        third.paced() == first.paced(),
        third.delayed() == first.delayed(),
{
}

/// A read that is planned, submitted and completed is answered from the place in its buffer
/// where the wanted bytes begin, with all of them if the result reaches that far and else with
/// those that it reaches. What is recorded is the time that it took. The read is then no longer
/// in flight, and all else is as before.
pub proof fn lemma_read_from_plan_to_answer(
    before: UringWorker,
    waiting: UringWorker,
    after: UringWorker,
    plan: ReadPlan,
    direct_io: bool,
    offset: u64,
    len: usize,
    user_data: u64,
    submitted_us: u64,
    result: i32,
    now_us: u64,
    r: Completion,
)
    requires
        is_read_plan(plan, direct_io, offset, len),
        !before.pending().contains_key(user_data),
        has_submitted(
            before,
            waiting,
            user_data,
            (InFlight::Read {
                head_pad: plan.head_pad,
                requested_len: len,
                submitted_at_us: submitted_us,
            }),
        ),
        is_completion(waiting, after, user_data, result, now_us, r),
        result >= 0,
        submitted_us <= now_us,
    ensures
        r matches Completion::ReadDone { from, take } && {
            let end = plan.file_offset + result;
            &&& plan.file_offset + from == offset
            &&& offset + len <= end ==> take == len
            &&& offset <= end <= offset + len ==> offset + take == end
            &&& end <= offset ==> take == 0
        },
        after.controller().reads().last() == (now_us, (now_us - submitted_us) as u64),
        after.next_id() == before.next_id(),
        after.next_paced() == before.next_paced(),
        after.pending() == before.pending(),
        after.paced() == before.paced(),
        after.delayed() == before.delayed(),
{
    lemma_read_plan_is_tight(plan, direct_io, offset, len);
    let other = if user_data == 0 {
        1u64
    } else {
        0u64
    };
    lemma_read_completion(waiting, after, user_data, result, now_us, r, other);
    assert(after.pending() =~= before.pending());
}

/// A whole write that is submitted is done when the result is its length, and renamed if that
/// was wanted.
pub proof fn lemma_write_from_submission_to_end(
    before: UringWorker,
    waiting: UringWorker,
    after: UringWorker,
    user_data: u64,
    rename: bool,
    len: usize,
    result: i32,
    now_us: u64,
    r: Completion,
)
    requires
        !before.pending().contains_key(user_data),
        has_submitted(before, waiting, user_data, InFlight::Write { rename, len }),
        is_completion(waiting, after, user_data, result, now_us, r),
    ensures
        result == len ==> r == (Completion::WriteDone { rename }),
        result != len ==> r is WriteFailed || r is WriteShort,
        after.pending() == before.pending(),
        after.paced() == before.paced(),
{
    assert(after.pending() =~= before.pending());
}

/// A paced write that is taken in has its first chunk due at once. It begins with the first
/// byte, is as long as it was said to be, and ends as it was said to.
pub proof fn lemma_paced_write_begins(
    before: UringWorker,
    after: UringWorker,
    total_len: usize,
    direct_io: bool,
    rename: bool,
    now_us: u64,
    id: u64,
    due: Seq<(u64, u64)>,
    other: u64,
)
    requires
        has_begun_paced(before, after, total_len, direct_io, rename, now_us, id),
        are_due(after.delayed(), now_us, due),
        other != id,
    ensures
        due.contains((now_us, id)),
        after.paced().contains_key(id),
        after.paced()[id].next_offset_to_submit == 0,
        after.paced()[id].total_len == total_len,
        after.paced()[id].chunk_bytes == before.chunk_size(),
        after.paced()[id].direct_io == direct_io,
        after.paced()[id].rename == rename,
        after.paced()[id].failed is None && !after.paced()[id].needs_truncate,
        after.paced().contains_key(other) <==> before.paced().contains_key(other),
        before.paced().contains_key(other) ==> after.paced()[other] == before.paced()[other],
        after.pending() == before.pending(),
        after.next_id() == before.next_id(),
        after.next_paced() > id,
{
    let is_due = |c: (u64, u64)| c.0 <= now_us;
    let n = before.delayed().len() as int;
    assert(after.delayed()[n] == (now_us, id));
    after.delayed().lemma_filter_contains(is_due, n);
}

/// A chunk that is scheduled is due from its time on and not before.
pub proof fn lemma_scheduled_chunk_waits(
    before: UringWorker,
    after: UringWorker,
    id: u64,
    at_us: u64,
    now_us: u64,
    due: Seq<(u64, u64)>,
)
    requires
        has_scheduled(before, after, id, at_us),
        is_idle(before, id),
        are_due(after.delayed(), now_us, due),
    ensures
        at_us <= now_us ==> due.contains((at_us, id)),
        now_us < at_us ==> !is_delayed(due, id),
        after.next_id() == before.next_id(),
        after.next_paced() == before.next_paced(),
        after.paced() == before.paced(),
        after.pending() == before.pending(),
{
    let is_due = |c: (u64, u64)| c.0 <= now_us;
    let n = before.delayed().len() as int;
    assert(after.delayed()[n] == (at_us, id));
    if at_us <= now_us {
        assert(is_due(after.delayed()[n]));
        after.delayed().lemma_filter_contains(is_due, n);
    }
    if now_us < at_us && is_delayed(due, id) {
        let k = choose|k: int| 0 <= k < due.len() && (#[trigger] due[k]).1 == id;
        after.delayed().lemma_filter_pred(is_due, k);
        assert(due.contains(due[k]));
        after.delayed().lemma_filter_contains_rev(is_due, due[k]);
        let i = choose|i: int| 0 <= i < after.delayed().len() && after.delayed()[i] == due[k];
        if i < n {
            assert(before.delayed()[i].1 == id);
        }
    }
}

/// A paced write for a chunk of which there was no memory has failed: when its turn comes
/// again, which is at once, it ends with that failure and no chunk of it goes out any more.
pub proof fn lemma_write_without_buffer_ends(
    before: UringWorker,
    failed: UringWorker,
    after: UringWorker,
    id: u64,
    now_us: u64,
    r: ChunkStep,
)
    requires
        before.paced().contains_key(id),
        has_failed_chunk(before, failed, id, now_us),
        is_chunk_step(failed, after, id, r),
    ensures
        failed.delayed().last() == (now_us, id),
        r matches ChunkStep::End(end) && end.failed == Some(PacedFailure::NoBuffer) && end.rename
            == before.paced()[id].rename && end.truncate_to is None,
        !after.paced().contains_key(id),
        failed.next_id() == before.next_id(),
        failed.next_paced() == before.next_paced(),
        failed.pending() == before.pending(),
{
}

/// A chunk that has gone out is in flight under its number, with the length that was handed
/// over, and the write goes on behind it. Other writes are not affected.
pub proof fn lemma_chunk_in_flight(
    before: UringWorker,
    after: UringWorker,
    id: u64,
    chunk: Chunk,
    other: u64,
)
    requires
        has_submitted_chunk(before, after, id, chunk),
        other != id,
    ensures
        is_chunk_of(after.pending(), chunk.user_data, id),
        after.pending()[chunk.user_data]->chunk_len == chunk.submit_len,
        after.paced().contains_key(id),
        after.paced()[id].next_offset_to_submit == chunk.end,
        after.paced()[id].total_len == before.paced()[id].total_len,
        after.paced()[id].rename == before.paced()[id].rename,
        after.paced().contains_key(other) <==> before.paced().contains_key(other),
        before.paced().contains_key(other) ==> after.paced()[other] == before.paced()[other],
        after.delayed() == before.delayed(),
        after.next_id() == before.next_id() + 1,
        after.next_paced() == before.next_paced(),
{
}

/// Nothing is in flight, nothing was taken in, and no paced write is between its chunks.
pub open spec fn may_block(worker: UringWorker, batched: usize) -> bool {
    worker.pending().dom() == Set::<u64>::empty() && batched == 0 && worker.paced().dom()
        == Set::<u64>::empty()
}

/// How many completions to wait for when submitting, if there is anything to submit.
pub open spec fn is_submit_wait(worker: UringWorker, batched: usize, r: Option<usize>) -> bool {
    &&& r is None <==> batched == 0 && worker.pending().dom() == Set::<u64>::empty()
    &&& r matches Some(want) ==> want == if worker.pending().dom() == Set::<u64>::empty() {
        0int
    } else {
        1int
    }
}

/// A worker with anything in flight, taken in or between its chunks does not wait for the next
/// request alone. One with anything in flight submits and waits for one completion, one with
/// nothing in flight waits for none, and there is nothing to submit only if nothing was taken
/// in either. So a worker that may not block, submits or has a paced write.
pub proof fn lemma_worker_does_not_sleep(
    worker: UringWorker,
    batched: usize,
    r: Option<usize>,
    id: u64,
)
    requires
        is_submit_wait(worker, batched, r),
    ensures
        worker.pending().contains_key(id) ==> !may_block(worker, batched) && r == Some(1usize),
        worker.paced().contains_key(id) ==> !may_block(worker, batched),
        batched > 0 ==> !may_block(worker, batched) && r is Some,
        r == Some(0usize) ==> batched > 0 && !worker.pending().contains_key(id),
        r is None ==> batched == 0 && !worker.pending().contains_key(id),
        r is None && worker.paced().dom() == Set::<u64>::empty() ==> may_block(worker, batched),
        may_block(worker, batched) ==> r is None,
{
    if worker.pending().contains_key(id) {
        assert(worker.pending().dom().contains(id));
    }
    if worker.paced().contains_key(id) {
        assert(worker.paced().dom().contains(id));
    }
}

/// How a write of `len` bytes goes out.
pub open spec fn write_plan_of(worker: UringWorker, len: usize) -> WritePlan {
    if worker.paces() && len > worker.chunk_size() {
        WritePlan::Paced {
            direct_io: worker.is_direct() && worker.chunk_size() % O_DIRECT_ALIGN as int == 0,
        }
    } else {
        WritePlan::Whole {
            direct_io: worker.is_direct() && len as int % O_DIRECT_ALIGN as int == 0,
        }
    }
}

/// `due` are the chunks whose time has come, in the order in which they were scheduled.
pub open spec fn are_due(delayed: Seq<(u64, u64)>, now_us: u64, due: Seq<(u64, u64)>) -> bool {
    due == delayed.filter(|c: (u64, u64)| c.0 <= now_us)
}

/// `later` are the chunks whose time is still to come, in the order in which they were
/// scheduled.
pub open spec fn are_later(delayed: Seq<(u64, u64)>, now_us: u64, later: Seq<(u64, u64)>) -> bool {
    later == delayed.filter(|c: (u64, u64)| c.0 > now_us)
}

/// What to do for a scheduled chunk of write `id`, and what becomes of the write.
pub open spec fn is_chunk_step(
    before: UringWorker,
    after: UringWorker,
    id: u64,
    r: ChunkStep,
) -> bool {
    if !before.paced().contains_key(id) {
        &&& r == ChunkStep::Gone
        &&& after.paced() == before.paced()
    } else if before.paced()[id].failed is Some {
        &&& r == ChunkStep::End(paced_end(before.paced()[id], before.paced()[id].failed))
        &&& after.paced() == before.paced().remove(id)
    } else {
        &&& r matches ChunkStep::Submit(chunk)
        &&& chunk.user_data == before.next_id()
        &&& is_next_chunk(chunk, before.paced()[id])
        &&& after.paced() == before.paced()
    }
}

/// How long the worker may nap, if at all.
pub open spec fn is_nap(worker: UringWorker, now_us: u64, r: Option<u64>) -> bool {
    let idle = worker.paced().dom() != Set::<u64>::empty() && worker.pending().dom() == Set::<
        u64,
    >::empty();
    let wait = if worker.delayed().len() == 0 {
        IDLE_POLL_US as int
    } else {
        earliest(worker.delayed()) - now_us
    };
    &&& r is Some <==> idle && wait > 0
    &&& r matches Some(nap) ==> nap == parts::min_int(wait, MAX_IDLE_SLEEP_US as int)
}

/// The first time at which a chunk is due.
pub open spec fn earliest(delayed: Seq<(u64, u64)>) -> int
    decreases delayed.len(),
{
    if delayed.len() <= 1 {
        delayed[0].0 as int
    } else {
        parts::min_int(earliest(delayed.drop_last()), delayed.last().0 as int)
    }
}

/// What the completion of a chunk of write `id` means, and what becomes of the write.
pub open spec fn is_chunk_completion(
    before: UringWorker,
    after: UringWorker,
    id: u64,
    chunk_len: usize,
    result: i32,
    r: Completion,
) -> bool {
    if !before.paced().contains_key(id) {
        r == Completion::PacedGone && after.paced() == before.paced()
    } else {
        let write = before.paced()[id];
        let failed = chunk_failure(write, chunk_len, result);
        if failed is None && write.next_offset_to_submit < write.total_len {
            &&& after.paced() == before.paced()
            &&& r matches Completion::PacedNext { id: next, pause }
            &&& next == id
            &&& pacing::is_pause_choice(before.controller(), pause)
        } else {
            &&& after.paced() == before.paced().remove(id)
            &&& r == (Completion::PacedEnded { id, end: paced_end(write, failed) })
        }
    }
}

/// What a completion means, and what it leaves in flight.
pub open spec fn is_completion(
    before: UringWorker,
    after: UringWorker,
    user_data: u64,
    result: i32,
    now_us: u64,
    r: Completion,
) -> bool {
    let found = before.pending()[user_data];
    let errno = -(result as int) as i64;
    &&& after.delayed() == before.delayed()
    &&& after.next_id() == before.next_id()
    &&& after.next_paced() == before.next_paced()
    &&& after.pending() == before.pending().remove(user_data)
    &&& if !before.pending().contains_key(user_data) {
        r == Completion::Unknown && same_reads(before, after) && after.paced() == before.paced()
    } else {
        match found {
            InFlight::Read { head_pad, requested_len, submitted_at_us } => {
                let latency = if now_us >= submitted_at_us {
                    (now_us - submitted_at_us) as u64
                } else {
                    0
                };
                &&& after.paced() == before.paced()
                &&& after.controller().reads() == pacing::since(
                    before.controller().reads().push((now_us, latency)),
                    now_us - pacing::READ_WINDOW_US,
                )
                &&& after.controller().base_pause() == before.controller().base_pause()
                &&& after.controller().target() == before.controller().target()
                &&& if result < 0 {
                    r == (Completion::ReadFailed { errno })
                } else {
                    r matches Completion::ReadDone { from, take } && (from as int, take as int)
                        == read_slice(head_pad as int, requested_len as int, result as int)
                }
            },
            InFlight::Write { rename, len } => {
                &&& after.paced() == before.paced()
                &&& same_reads(before, after)
                &&& r == if result < 0 {
                    Completion::WriteFailed { errno }
                } else if result as int != len {
                    Completion::WriteShort { written: result as usize, expected: len }
                } else {
                    Completion::WriteDone { rename }
                }
            },
            InFlight::PacedChunk { paced_write_id, chunk_len } => {
                &&& same_reads(before, after)
                &&& is_chunk_completion(before, after, paced_write_id, chunk_len, result, r)
            },
        }
    }
}

/// A whole write is done, and its file may be renamed, only when every byte went out.
pub proof fn lemma_write_done(
    before: UringWorker,
    after: UringWorker,
    user_data: u64,
    result: i32,
    now_us: u64,
    r: Completion,
)
    requires
        is_completion(before, after, user_data, result, now_us, r),
    ensures
        r is WriteDone <==> before.pending().contains_key(user_data)
            && before.pending()[user_data] is Write && before.pending()[user_data]->len == result,
        r matches Completion::WriteDone { rename } ==> rename
            == before.pending()[user_data]->Write_rename,
{
}

/// A paced write that ends without a failure has handed every byte to the kernel, and its
/// file is cut to length exactly if its end was filled up with zeros.
pub proof fn lemma_paced_end(
    before: UringWorker,
    after: UringWorker,
    id: u64,
    chunk_len: usize,
    result: i32,
    r: Completion,
)
    requires
        before.wf(),
        before.paced().contains_key(id),
        is_chunk_completion(before, after, id, chunk_len, result, r),
    ensures
        r matches Completion::PacedEnded { end, .. } ==> {
            let write = before.paced()[id];
            &&& end.failed is None ==> write.next_offset_to_submit == write.total_len
            &&& end.failed is None ==> (end.truncate_to == Some(write.total_len) <==> write.direct_io
                && write.total_len % O_DIRECT_ALIGN != 0)
            &&& end.failed is Some ==> end.truncate_to is None
        },
{
    assert(is_paced_write(before.paced()[id]));
}

/// No chunk of write `id` is in flight or waits for its time.
pub open spec fn is_idle(worker: UringWorker, id: u64) -> bool {
    &&& !is_delayed(worker.delayed(), id)
    &&& forall|u: u64| !#[trigger] is_chunk_of(worker.pending(), u, id)
}

/// A paced write after `chunk` was submitted.
pub open spec fn after_chunk(write: PacedWrite, chunk: Chunk) -> PacedWrite {
    PacedWrite {
        next_offset_to_submit: chunk.end,
        needs_truncate: write.needs_truncate || chunk.submit_len != chunk.end - chunk.start,
        ..write
    }
}

fn end_of(write: &PacedWrite, failed: Option<PacedFailure>) -> (r: PacedEnd)
    ensures
        r == paced_end(*write, failed),
{
    let truncate_to = if write.needs_truncate && failed.is_none() {
        Some(write.total_len)
    } else {
        None
    };
    PacedEnd { failed, truncate_to, rename: write.rename }
}

/// Submitting the next chunk keeps a paced write in order. Only the last chunk of a
/// direct write is ever filled up with zeros.
pub proof fn lemma_after_chunk(write: PacedWrite, chunk: Chunk)
    requires
        is_paced_write(write),
        write.failed is None,
        is_next_chunk(chunk, write),
    ensures
        is_paced_write(after_chunk(write, chunk)),
        chunk.start <= chunk.end <= write.total_len,
        write.next_offset_to_submit < write.total_len ==> chunk.start < chunk.end,
        chunk.submit_len != chunk.end - chunk.start ==> write.direct_io && chunk.end
            == write.total_len,
        after_chunk(write, chunk).next_offset_to_submit == chunk.end,
        after_chunk(write, chunk).total_len == write.total_len,
        after_chunk(write, chunk).chunk_bytes == write.chunk_bytes,
        after_chunk(write, chunk).direct_io == write.direct_io,
        after_chunk(write, chunk).rename == write.rename,
        after_chunk(write, chunk).failed is None,
{
    let len = chunk.end - chunk.start;
    parts::lemma_parts_needed(len, O_DIRECT_ALIGN as int);
    if write.direct_io {
        if chunk.end < write.total_len {
            assert(len == write.chunk_bytes);
        }
    }
}

proof fn lemma_not_delayed(delayed: Seq<(u64, u64)>, id: u64)
    requires
        !is_delayed(delayed, id),
    ensures
        forall|i: int| 0 <= i < delayed.len() ==> (#[trigger] delayed[i]).1 != id,
{
    assert forall|i: int| 0 <= i < delayed.len() implies (#[trigger] delayed[i]).1 != id by {
        if delayed[i].1 == id {
            assert(is_delayed(delayed, id));
        }
    }
}

/// Adding something that is no chunk under a fresh number leaves the chunks as they are.
proof fn lemma_other_chunks(before: Map<u64, InFlight>, after: Map<u64, InFlight>, user_data: u64)
    requires
        !before.contains_key(user_data),
        after == before.insert(user_data, after[user_data]),
        !(after[user_data] is PacedChunk),
    ensures
        forall|u: u64, id: u64| #[trigger]
            is_chunk_of(after, u, id) <==> is_chunk_of(before, u, id),
{
}

proof fn lemma_delayed_push(delayed: Seq<(u64, u64)>, at: u64, id: u64)
    ensures
        forall|k: u64| #[trigger]
            is_delayed(delayed.push((at, id)), k) <==> is_delayed(delayed, k) || k == id,
{
    let next = delayed.push((at, id));
    assert forall|k: u64| #[trigger]
        is_delayed(next, k) <==> is_delayed(delayed, k) || k == id by {
        if is_delayed(delayed, k) {
            let i = choose|i: int| 0 <= i < delayed.len() && (#[trigger] delayed[i]).1 == k;
            assert(next[i].1 == k);
        }
        if k == id {
            assert(next[delayed.len() as int].1 == k);
        }
        if is_delayed(next, k) && k != id {
            let i = choose|i: int| 0 <= i < next.len() && (#[trigger] next[i]).1 == k;
            assert(delayed[i].1 == k);
        }
    }
}

/// A paced write after a run of chunks was submitted.
pub open spec fn after_chunks(write: PacedWrite, chunks: Seq<Chunk>) -> PacedWrite
    decreases chunks.len(),
{
    if chunks.len() == 0 {
        write
    } else {
        after_chunk(after_chunks(write, chunks.drop_last()), chunks.last())
    }
}

/// Each chunk of the run is the one that is due when its turn comes.
pub open spec fn is_chunk_run(write: PacedWrite, chunks: Seq<Chunk>) -> bool
    decreases chunks.len(),
{
    chunks.len() > 0 ==> {
        &&& is_chunk_run(write, chunks.drop_last())
        &&& is_next_chunk(chunks.last(), after_chunks(write, chunks.drop_last()))
    }
}

/// The bytes of a paced write that a run of chunks carries.
pub open spec fn run_pieces(data: Seq<u8>, chunks: Seq<Chunk>) -> Seq<Seq<u8>> {
    Seq::new(chunks.len(), |i: int| data.subrange(chunks[i].start as int, chunks[i].end as int))
}

/// Chunk by chunk, a paced write writes each of its bytes once and in order, each at its
/// own place: what a run has carried is the payload up to the next offset.
pub proof fn lemma_chunks_carry_payload(write: PacedWrite, chunks: Seq<Chunk>, data: Seq<u8>)
    requires
        is_paced_write(write),
        write.failed is None,
        write.next_offset_to_submit == 0,
        write.total_len == data.len(),
        is_chunk_run(write, chunks),
    ensures
        is_paced_write(after_chunks(write, chunks)),
        after_chunks(write, chunks).failed is None,
        after_chunks(write, chunks).total_len == write.total_len,
        run_pieces(data, chunks).flatten() == data.take(
            after_chunks(write, chunks).next_offset_to_submit as int,
        ),
    decreases chunks.len(),
{
    let pieces = run_pieces(data, chunks);
    if chunks.len() == 0 {
        assert(pieces =~= Seq::<Seq<u8>>::empty());
        assert(pieces.flatten() =~= data.take(0));
    } else {
        let before = chunks.drop_last();
        lemma_chunks_carry_payload(write, before, data);
        let now = after_chunks(write, before);
        lemma_after_chunk(now, chunks.last());
        assert(pieces =~= run_pieces(data, before).push(pieces.last()));
        run_pieces(data, before).lemma_flatten_push(pieces.last());
        let lo = chunks.last().start as int;
        let hi = chunks.last().end as int;
        assert(data.take(lo) + data.subrange(lo, hi) =~= data.take(hi));
    }
}

/// A planned read covers the wanted bytes. Where it is direct it begins and ends on multiples of
/// 4096 and goes less than that beyond them on either side; else it is just what was wanted.
pub proof fn lemma_read_plan_is_tight(plan: ReadPlan, direct_io: bool, offset: u64, len: usize)
    requires
        is_read_plan(plan, direct_io, offset, len),
    ensures
        plan.file_offset + plan.head_pad == offset,
        offset + len <= plan.file_offset + plan.submit_len,
        direct_io ==> {
            &&& plan.file_offset as int % 4096 == 0
            &&& plan.submit_len as int % 4096 == 0
            &&& plan.head_pad < 4096
            &&& plan.file_offset + plan.submit_len < offset + len + 4096
        },
        !direct_io ==> plan.file_offset == offset && plan.submit_len == len,
{
    parts::lemma_parts_needed(offset as int, 4096);
    parts::lemma_parts_needed(plan.head_pad + len, 4096);
}

/// A read that has brought `brought` bytes is answered with those of the wanted bytes that are
/// among them: all of them as soon as they are all there, none while the read has not come to
/// the first, and one more for each byte in between.
pub proof fn lemma_read_takes_what_is_there(head_pad: int, len: int, brought: int)
    requires
        head_pad >= 0,
        len >= 0,
        brought >= 0,
    ensures
        read_slice(head_pad, len, brought).0 == head_pad,
        head_pad + len <= brought ==> read_slice(head_pad, len, brought).1 == len,
        brought <= head_pad ==> read_slice(head_pad, len, brought).1 == 0,
        head_pad <= brought <= head_pad + len ==> read_slice(head_pad, len, brought).1 == brought
            - head_pad,
        head_pad <= brought < head_pad + len ==> read_slice(head_pad, len, brought + 1).1
            == read_slice(head_pad, len, brought).1 + 1,
{
}

/// What the completion of a read means: an error is passed on, and else the answer begins at
/// the padding and takes as many of the wanted bytes as the result says are there. Its latency
/// goes on record. Nothing else that is in flight is affected.
pub proof fn lemma_read_completion(
    before: UringWorker,
    after: UringWorker,
    user_data: u64,
    result: i32,
    now_us: u64,
    r: Completion,
    other: u64,
)
    requires
        is_completion(before, after, user_data, result, now_us, r),
        before.pending().contains_key(user_data),
        before.pending()[user_data] is Read,
        other != user_data,
    ensures
        ({
            let pad = before.pending()[user_data]->head_pad;
            let len = before.pending()[user_data]->requested_len;
            let at = before.pending()[user_data]->submitted_at_us;
            &&& r is ReadFailed <==> result < 0
            &&& r matches Completion::ReadFailed { errno } ==> errno == -result
            &&& r is ReadDone <==> result >= 0
            &&& r matches Completion::ReadDone { from, take } ==> {
                &&& from == pad
                &&& pad + len <= result ==> take == len
                &&& result <= pad ==> take == 0
                &&& pad <= result <= pad + len ==> take == result - pad
            }
            &&& after.controller().reads().len() > 0
            &&& after.controller().reads().last().0 == now_us
            &&& at <= now_us ==> after.controller().reads().last().1 == now_us - at
            &&& now_us <= at ==> after.controller().reads().last().1 == 0
        }),
        !after.pending().contains_key(user_data),
        after.pending().contains_key(other) <==> before.pending().contains_key(other),
        before.pending().contains_key(other) ==> after.pending()[other] == before.pending()[other],
        after.paced() == before.paced(),
        after.delayed() == before.delayed(),
{
    let at = before.pending()[user_data]->submitted_at_us;
    let latency = if now_us >= at {
        (now_us - at) as u64
    } else {
        0
    };
    pacing::lemma_window_is_a_second(before.controller(), after.controller(), now_us, latency, 0);
}

/// What the completion of a whole write means: it is done if the result is its length, has
/// failed if the result is an error, and else went out in part. The reads on record and the
/// other writes are not affected.
pub proof fn lemma_write_completion(
    before: UringWorker,
    after: UringWorker,
    user_data: u64,
    result: i32,
    now_us: u64,
    r: Completion,
)
    requires
        is_completion(before, after, user_data, result, now_us, r),
        before.pending().contains_key(user_data),
        before.pending()[user_data] is Write,
    ensures
        ({
            let rename = before.pending()[user_data]->Write_rename;
            let len = before.pending()[user_data]->len;
            &&& r is WriteDone <==> result == len
            &&& r matches Completion::WriteDone { rename: then } ==> then == rename
            &&& r is WriteFailed <==> result < 0
            &&& r matches Completion::WriteFailed { errno } ==> errno == -result
            &&& r is WriteShort <==> 0 <= result && result != len
            &&& r matches Completion::WriteShort { written, expected } ==> written == result
                && expected == len
        }),
        !after.pending().contains_key(user_data),
        after.controller().reads() == before.controller().reads(),
        after.paced() == before.paced(),
        after.delayed() == before.delayed(),
{
}

/// A number under which nothing is in flight means nothing, and changes nothing.
pub proof fn lemma_unknown_completion(
    before: UringWorker,
    after: UringWorker,
    user_data: u64,
    result: i32,
    now_us: u64,
    r: Completion,
)
    requires
        is_completion(before, after, user_data, result, now_us, r),
    ensures
        r is Unknown <==> !before.pending().contains_key(user_data),
        r is Unknown ==> after.pending() == before.pending() && after.paced() == before.paced()
            && after.controller().reads() == before.controller().reads(),
        after.delayed() == before.delayed(),
        after.next_id() == before.next_id(),
        after.next_paced() == before.next_paced(),
{
    assert(!before.pending().contains_key(user_data) ==> before.pending().remove(user_data)
        =~= before.pending());
}

/// What the completion of a chunk means. The next chunk follows exactly if this one went out in
/// full, the write has not failed before, and there are bytes left; else the write ends, with
/// the error, the short write or the earlier failure, and leaves. The pause before the next
/// chunk goes by the latency of the reads on record. Other writes are not affected.
pub proof fn lemma_chunk_completion(
    before: UringWorker,
    after: UringWorker,
    id: u64,
    chunk_len: usize,
    result: i32,
    r: Completion,
    other: u64,
    p99: u64,
)
    requires
        is_chunk_completion(before, after, id, chunk_len, result, r),
        other != id,
        pacing::is_p99(before.controller().reads(), p99),
    ensures
        r matches Completion::PacedNext { pause, .. } ==> pause == if before.controller().reads().len()
            >= 32 && before.controller().target() > 0 && p99 > 0 {
            PauseChoice::Scaled { p99_us: p99 }
        } else {
            PauseChoice::Base
        },
        r is PacedGone <==> !before.paced().contains_key(id),
        before.paced().contains_key(id) ==> {
            let write = before.paced()[id];
            &&& r is PacedNext <==> result == chunk_len && write.failed is None
                && write.next_offset_to_submit < write.total_len
            &&& r is PacedNext || r is PacedEnded
            &&& r matches Completion::PacedNext { id: next, .. } ==> next == id
                && after.paced().contains_key(id) && after.paced()[id] == write
            &&& r matches Completion::PacedEnded { id: ended, end } ==> {
                &&& ended == id && !after.paced().contains_key(id)
                &&& end.rename == write.rename
                &&& end.failed is None <==> result == chunk_len && write.failed is None
                &&& result < 0 ==> end.failed == Some(PacedFailure::Errno(-result as i64))
                &&& 0 <= result && result != chunk_len ==> end.failed == Some(
                    (PacedFailure::ShortWrite { written: result as usize, expected: chunk_len }),
                )
                &&& result == chunk_len ==> end.failed == write.failed
            }
        },
        after.paced().contains_key(other) <==> before.paced().contains_key(other),
        before.paced().contains_key(other) ==> after.paced()[other] == before.paced()[other],
{
    if let Completion::PacedNext { pause, .. } = r {
        if before.paced().contains_key(id) {
            pacing::lemma_pause_follows_reads(before.controller(), pause, p99);
        }
    }
}

/// A chunk that completes is no longer in flight. No read is recorded and nothing is scheduled;
/// only the write that the chunk is of is affected.
pub proof fn lemma_chunk_leaves_flight(
    before: UringWorker,
    after: UringWorker,
    user_data: u64,
    result: i32,
    now_us: u64,
    r: Completion,
    other: u64,
)
    requires
        is_completion(before, after, user_data, result, now_us, r),
        before.pending().contains_key(user_data),
        before.pending()[user_data] is PacedChunk,
        other != before.pending()[user_data]->paced_write_id,
    ensures
        !after.pending().contains_key(user_data),
        after.controller().reads() == before.controller().reads(),
        after.controller().base_pause() == before.controller().base_pause(),
        after.controller().target() == before.controller().target(),
        after.delayed() == before.delayed(),
        after.paced().contains_key(other) <==> before.paced().contains_key(other),
        before.paced().contains_key(other) ==> after.paced()[other] == before.paced()[other],
        r is PacedGone || r is PacedNext || r is PacedEnded,
        r matches Completion::PacedNext { id, .. } ==> id
            == before.pending()[user_data]->paced_write_id,
        r matches Completion::PacedEnded { id, .. } ==> id
            == before.pending()[user_data]->paced_write_id,
{
}

/// A write goes out in chunks exactly if writes are paced and it is larger than a chunk. What
/// is handed to direct I/O in one go is a multiple of 4096 long, and what could be is.
pub proof fn lemma_write_plan(worker: UringWorker, len: usize)
    ensures
        write_plan_of(worker, len) is Paced <==> worker.paces() && len > worker.chunk_size(),
        write_plan_of(worker, len) matches WritePlan::Paced { direct_io } ==> (direct_io
            <==> worker.is_direct() && worker.chunk_size() % 4096 == 0),
        write_plan_of(worker, len) matches WritePlan::Whole { direct_io } ==> (direct_io
            <==> worker.is_direct() && len as int % 4096 == 0),
{
}

/// The file of a write that failed is removed, whether it was to be renamed or not; only a
/// write that was to be renamed is, and only if it did not fail.
pub proof fn lemma_file_fate(failed: bool, rename: bool)
    ensures
        fate_of(failed, rename) is Remove <==> failed,
        fate_of(failed, rename) is Rename <==> rename && !failed,
        fate_of(failed, rename) is Keep <==> !rename && !failed,
{
}

/// A chunk is due exactly if its time is not after now, and keeps waiting else. Which of two
/// chunks comes first does not change.
pub proof fn lemma_due_or_later(
    delayed: Seq<(u64, u64)>,
    now_us: u64,
    due: Seq<(u64, u64)>,
    later: Seq<(u64, u64)>,
    chunk: (u64, u64),
)
    requires
        are_due(delayed, now_us, due),
        are_later(delayed, now_us, later),
    ensures
        due.contains(chunk) <==> delayed.contains(chunk) && chunk.0 <= now_us,
        later.contains(chunk) <==> delayed.contains(chunk) && now_us < chunk.0,
        due.len() + later.len() == delayed.len(),
{
    let is_due = |c: (u64, u64)| c.0 <= now_us;
    let is_later = |c: (u64, u64)| c.0 > now_us;
    assert(due == delayed.filter(is_due));
    assert(later == delayed.filter(is_later));
    if due.contains(chunk) {
        let k = choose|k: int| 0 <= k < due.len() && due[k] == chunk;
        delayed.lemma_filter_pred(is_due, k);
        delayed.lemma_filter_contains_rev(is_due, chunk);
    }
    if later.contains(chunk) {
        let k = choose|k: int| 0 <= k < later.len() && later[k] == chunk;
        delayed.lemma_filter_pred(is_later, k);
        delayed.lemma_filter_contains_rev(is_later, chunk);
    }
    if delayed.contains(chunk) {
        let k = choose|k: int| 0 <= k < delayed.len() && delayed[k] == chunk;
        if is_due(chunk) {
            delayed.lemma_filter_contains(is_due, k);
        } else {
            assert(is_later(chunk));
            delayed.lemma_filter_contains(is_later, k);
        }
    }
    lemma_due_count(delayed, now_us);
}

proof fn lemma_due_count(delayed: Seq<(u64, u64)>, now_us: u64)
    ensures
        delayed.filter(|c: (u64, u64)| c.0 <= now_us).len() + delayed.filter(
            |c: (u64, u64)| c.0 > now_us,
        ).len() == delayed.len(),
    decreases delayed.len(),
{
    reveal(Seq::filter);
    if delayed.len() > 0 {
        lemma_due_count(delayed.drop_last(), now_us);
    }
}

/// Chunks come due in the order in which they were scheduled: those of the first part of the
/// row before those of the rest.
pub proof fn lemma_due_in_order(
    first: Seq<(u64, u64)>,
    rest: Seq<(u64, u64)>,
    now_us: u64,
    due: Seq<(u64, u64)>,
    due_first: Seq<(u64, u64)>,
    due_rest: Seq<(u64, u64)>,
)
    requires
        are_due(first + rest, now_us, due),
        are_due(first, now_us, due_first),
        are_due(rest, now_us, due_rest),
    ensures
        due == due_first + due_rest,
{
    Seq::filter_distributes_over_add(first, rest, |c: (u64, u64)| c.0 <= now_us);
}

/// What is done for a scheduled chunk: nothing for a write that is gone, an end for one that
/// has failed, and else its next chunk goes out under the next number, from where the last one
/// ended on. Other writes are not affected.
pub proof fn lemma_chunk_step(
    before: UringWorker,
    after: UringWorker,
    id: u64,
    r: ChunkStep,
    other: u64,
)
    requires
        is_chunk_step(before, after, id, r),
        other != id,
    ensures
        r is Gone <==> !before.paced().contains_key(id),
        r is End <==> before.paced().contains_key(id) && before.paced()[id].failed is Some,
        r is Submit <==> before.paced().contains_key(id) && before.paced()[id].failed is None,
        r matches ChunkStep::End(end) ==> end.failed == before.paced()[id].failed && end.rename
            == before.paced()[id].rename && end.truncate_to is None && !after.paced().contains_key(
            id,
        ),
        r matches ChunkStep::Submit(chunk) ==> {
            let write = before.paced()[id];
            &&& chunk.user_data == before.next_id()
            &&& after.paced().contains_key(id) && after.paced()[id] == write
            &&& chunk.start == write.next_offset_to_submit
            &&& chunk.end == chunk.start + write.chunk_bytes || chunk.end == write.total_len
            &&& chunk.start <= write.total_len ==> chunk.start <= chunk.end <= write.total_len
            &&& !write.direct_io ==> chunk.submit_len == chunk.end - chunk.start
        },
        after.paced().contains_key(other) <==> before.paced().contains_key(other),
        before.paced().contains_key(other) ==> after.paced()[other] == before.paced()[other],
{
}

/// The next chunk of a write begins where the last one ended and has the size of a chunk, or
/// what is left if that is less. A direct one is handed over as the next multiple of 4096, any
/// other as it is.
pub proof fn lemma_next_chunk(chunk: Chunk, write: PacedWrite)
    requires
        is_paced_write(write),
        is_next_chunk(chunk, write),
    ensures
        ({
            let left = write.total_len - write.next_offset_to_submit;
            let len = chunk.end - chunk.start;
            &&& chunk.start == write.next_offset_to_submit
            &&& left >= write.chunk_bytes ==> len == write.chunk_bytes
            &&& left < write.chunk_bytes ==> len == left
            &&& write.direct_io ==> chunk.submit_len as int % 4096 == 0 && len <= chunk.submit_len
                < len + 4096
            &&& !write.direct_io ==> chunk.submit_len == len
        }),
{
    parts::lemma_parts_needed(chunk.end - chunk.start, 4096);
}

/// No chunk is due before the earliest time, and one is due then.
pub proof fn lemma_earliest(delayed: Seq<(u64, u64)>, i: int)
    requires
        0 <= i < delayed.len(),
    ensures
        earliest(delayed) <= delayed[i].0,
        exists|k: int| 0 <= k < delayed.len() && (#[trigger] delayed[k]).0 == earliest(delayed),
    decreases delayed.len(),
{
    let n = delayed.len() - 1;
    if n == 0 {
        assert(delayed[0].0 == earliest(delayed));
    } else {
        let rest = delayed.drop_last();
        assert(delayed[n] == delayed.last());
        if i < n {
            lemma_earliest(rest, i);
            assert(rest[i] == delayed[i]);
        } else {
            lemma_earliest(rest, 0);
        }
        let k = choose|k: int| 0 <= k < rest.len() && (#[trigger] rest[k]).0 == earliest(rest);
        assert(delayed[k] == rest[k]);
    }
}

/// A worker naps only if paced writes are between their chunks and nothing is in flight, never
/// past the time of a chunk, and no longer than fifty milliseconds. It does not nap less than
/// that allows: if it does not nap until a chunk is due, it naps for a millisecond, with
/// nothing scheduled, or for the whole fifty. A worker that might nap and does not has a chunk
/// whose time has come.
pub proof fn lemma_nap(worker: UringWorker, now_us: u64, r: Option<u64>, i: int)
    requires
        is_nap(worker, now_us, r),
        worker.delayed().len() > 0 ==> 0 <= i < worker.delayed().len(),
    ensures
        r matches Some(nap) ==> {
            &&& 0 < nap <= 50_000
            &&& worker.pending().dom() == Set::<u64>::empty()
            &&& worker.paced().dom() != Set::<u64>::empty()
            &&& worker.delayed().len() > 0 ==> now_us + nap <= worker.delayed()[i].0
            &&& worker.delayed().len() == 0 ==> nap == 1_000
            &&& worker.delayed().len() == 0 || nap == 50_000 || exists|k: int|
                0 <= k < worker.delayed().len() && (#[trigger] worker.delayed()[k]).0 == now_us
                    + nap
        },
        r is None && worker.pending().dom() == Set::<u64>::empty() && worker.paced().dom()
            != Set::<u64>::empty() ==> exists|k: int|
            0 <= k < worker.delayed().len() && (#[trigger] worker.delayed()[k]).0 <= now_us,
{
    if worker.delayed().len() > 0 {
        lemma_earliest(worker.delayed(), i);
    }
}

} // verus!
