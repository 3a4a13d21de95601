//! Pacing of cache writes: large writes are cut into chunks with a pause between them,
//! and the pause follows the latency of the reads that are going on.

use crate::sorting;
use std::collections::VecDeque;
use vstd::prelude::*;

verus! {

/// How far back reads count, in microseconds.
pub const READ_WINDOW_US: u64 = 1_000_000;

/// How many reads it takes to go by their latency.
pub const MIN_READ_SAMPLES: usize = 32;

/// Whether a write of `len` bytes is cut into chunks: only if both the chunk size and
/// the pause are set, and the write is larger than a chunk.
pub open spec fn is_chunked(len: int, chunk_bytes: int, pause_us: int) -> bool {
    chunk_bytes > 0 && pause_us > 0 && len > chunk_bytes
}

/// The end of the chunk that begins at `offset`.
pub open spec fn chunk_end(offset: int, chunk_bytes: int, len: int) -> int {
    if offset + chunk_bytes <= len {
        offset + chunk_bytes
    } else {
        len
    }
}

/// Chunks that cover `0..len` in order without gap or overlap, each of `chunk_bytes`
/// bytes but for a shorter last one.
pub open spec fn are_chunks(out: Seq<(usize, usize)>, len: int, chunk_bytes: int) -> bool {
    &&& out.len() > 0
    &&& out[0].0 == 0
    &&& out.last().1 == len
    &&& forall|i: int|
        #![trigger out[i]]
        0 <= i < out.len() ==> out[i].0 < out[i].1 && out[i].1 == chunk_end(
            out[i].0 as int,
            chunk_bytes,
            len,
        )
    &&& forall|i: int| 0 <= i < out.len() - 1 ==> (#[trigger] out[i]).1 == out[i + 1].0
}

/// How a write of `len` bytes is cut: into chunks, or not at all.
pub open spec fn is_chunk_plan(
    out: Seq<(usize, usize)>,
    len: usize,
    chunk_bytes: usize,
    pause_us: u64,
) -> bool {
    if is_chunked(len as int, chunk_bytes as int, pause_us as int) {
        are_chunks(out, len as int, chunk_bytes as int)
    } else {
        out == seq![(0usize, len)]
    }
}

/// Chunk `i` of a write begins at `i` times the chunk size and ends there where the next one
/// begins, or with the write; it is never empty unless the write is. A write goes out in one
/// piece exactly if there is no chunk size, no pause, or no more than a chunk to write.
pub proof fn lemma_chunk_plan(
    out: Seq<(usize, usize)>,
    len: usize,
    chunk_bytes: usize,
    pause_us: u64,
    i: int,
)
    requires
        is_chunk_plan(out, len, chunk_bytes, pause_us),
        0 <= i < out.len(),
    ensures
        out.len() == 1 <==> chunk_bytes == 0 || pause_us == 0 || len <= chunk_bytes,
        out[0].0 == 0,
        out.last().1 == len,
        out.len() > 1 ==> out[i].0 == i * chunk_bytes,
        i < out.len() - 1 ==> out[i].1 == (i + 1) * chunk_bytes && out[i].1 == out[i + 1].0,
        len > 0 ==> out[i].0 < out[i].1,
        out.len() > 1 ==> out[i].1 - out[i].0 <= chunk_bytes,
        out.len() > 1 ==> (out.len() - 1) * chunk_bytes < len <= out.len() * chunk_bytes,
{
    if is_chunked(len as int, chunk_bytes as int, pause_us as int) {
        let n = out.len() as int;
        if n == 1 {
            assert(out[0].1 == chunk_end(0, chunk_bytes as int, len as int));
        }
        lemma_chunk_starts(out, len as int, chunk_bytes as int, i);
        lemma_chunk_starts(out, len as int, chunk_bytes as int, n - 1);
        assert(out[n - 1] == out.last());
        assert((i + 1) * chunk_bytes == i * chunk_bytes + chunk_bytes) by (nonlinear_arith);
        assert(n * chunk_bytes == (n - 1) * chunk_bytes + chunk_bytes) by (nonlinear_arith);
        if i < n - 1 {
            assert(out[i].1 == out[i + 1].0);
            lemma_chunk_starts(out, len as int, chunk_bytes as int, i + 1);
        }
    }
}

proof fn lemma_chunk_starts(out: Seq<(usize, usize)>, len: int, chunk_bytes: int, i: int)
    requires
        are_chunks(out, len, chunk_bytes),
        chunk_bytes > 0,
        0 <= i < out.len(),
    ensures
        out[i].0 == i * chunk_bytes,
        out[i].1 <= len,
    decreases i,
{
    if i > 0 {
        lemma_chunk_starts(out, len, chunk_bytes, i - 1);
        assert(out[i - 1].1 == out[i - 1 + 1].0);
        assert(out[i].0 < out[i].1);
        assert((i - 1) * chunk_bytes + chunk_bytes == i * chunk_bytes) by (nonlinear_arith);
    }
}

/// The pieces in which a write of `len` bytes goes to disk, as start and end. There is
/// a pause after every piece but the last.
pub fn chunk_plan(len: usize, chunk_bytes: usize, pause_us: u64) -> (r: Vec<(usize, usize)>)
    ensures
        is_chunk_plan(r@, len, chunk_bytes, pause_us),
{
    let mut out: Vec<(usize, usize)> = Vec::new();
    if chunk_bytes == 0 || pause_us == 0 || len <= chunk_bytes {
        out.push((0, len));
        return out;
    }
    let mut offset: usize = 0;
    while offset < len
        invariant
            0 < chunk_bytes < len,
            offset <= len,
            out@.len() == 0 ==> offset == 0,
            out@.len() > 0 ==> out@[0].0 == 0 && out@.last().1 == offset,
            forall|i: int|
                #![trigger out@[i]]
                0 <= i < out@.len() ==> out@[i].0 < out@[i].1 && out@[i].1 == chunk_end(
                    out@[i].0 as int,
                    chunk_bytes as int,
                    len as int,
                ),
            forall|i: int| 0 <= i < out@.len() - 1 ==> (#[trigger] out@[i]).1 == out@[i + 1].0,
        decreases len - offset,
    {
        let end: usize = if chunk_bytes <= len - offset {
            offset + chunk_bytes
        } else {
            len
        };
        let ghost before = out@;
        out.push((offset, end));
        proof {
            assert forall|i: int| 0 <= i < out@.len() - 1 implies (#[trigger] out@[i]).1
                == out@[i + 1].0 by {
                if i < before.len() - 1 {
                    assert(before[i].1 == before[i + 1].0);
                }
            }
        }
        offset = end;
    }
    out
}

/// The bytes of a write, piece by piece along its chunks.
pub open spec fn chunk_pieces(data: Seq<u8>, chunks: Seq<(usize, usize)>) -> Seq<Seq<u8>> {
    Seq::new(chunks.len(), |i: int| data.subrange(chunks[i].0 as int, chunks[i].1 as int))
}

/// Writing chunk after chunk writes every byte once and in order.
pub proof fn lemma_chunks_make_write(data: Seq<u8>, chunks: Seq<(usize, usize)>, chunk_bytes: int)
    requires
        are_chunks(chunks, data.len() as int, chunk_bytes),
    ensures
        chunk_pieces(data, chunks).flatten() == data,
{
    lemma_chunk_prefix(data, chunks, chunk_bytes, chunks.len() as int);
    assert(chunk_pieces(data, chunks).take(chunks.len() as int) =~= chunk_pieces(data, chunks));
    assert(data.subrange(0, data.len() as int) =~= data);
}

proof fn lemma_chunk_prefix(data: Seq<u8>, chunks: Seq<(usize, usize)>, chunk_bytes: int, n: int)
    requires
        are_chunks(chunks, data.len() as int, chunk_bytes),
        1 <= n <= chunks.len(),
    ensures
        chunk_pieces(data, chunks).take(n).flatten() == data.subrange(0, chunks[n - 1].1 as int),
        chunks[n - 1].1 <= data.len(),
    decreases n,
{
    let pieces = chunk_pieces(data, chunks);
    assert(pieces.take(n) =~= pieces.take(n - 1).push(pieces[n - 1]));
    pieces.take(n - 1).lemma_flatten_push(pieces[n - 1]);
    assert(chunks[n - 1].0 < chunks[n - 1].1);
    if n == 1 {
        assert(pieces.take(0) =~= Seq::<Seq<u8>>::empty());
        assert(pieces.take(0).flatten() =~= Seq::<u8>::empty());
    } else {
        lemma_chunk_prefix(data, chunks, chunk_bytes, n - 1);
        assert(chunks[n - 2].1 == chunks[n - 2 + 1].0);
    }
    let lo = chunks[n - 1].0 as int;
    let hi = chunks[n - 1].1 as int;
    assert(data.subrange(0, lo) + data.subrange(lo, hi) =~= data.subrange(0, hi));
}

/// `reads` without those at the front that came before `cutoff`.
pub open spec fn since(reads: Seq<(u64, u64)>, cutoff: int) -> Seq<(u64, u64)>
    decreases reads.len(),
{
    if reads.len() > 0 && reads[0].0 < cutoff {
        since(reads.skip(1), cutoff)
    } else {
        reads
    }
}

/// The latencies of reads.
pub open spec fn latencies(reads: Seq<(u64, u64)>) -> Seq<u64> {
    Seq::new(reads.len(), |i: int| reads[i].1)
}

/// `p99` stands at ninety-nine hundredths of the latencies in order; it is zero if there
/// are none.
pub open spec fn is_p99(reads: Seq<(u64, u64)>, p99: u64) -> bool {
    if reads.len() == 0 {
        p99 == 0
    } else {
        exists|ordered: Seq<u64>|
            #![trigger sorting::is_sorted(ordered)]
            sorting::is_sorted(ordered) && ordered.to_multiset() == latencies(reads).to_multiset()
                && p99 == ordered[(reads.len() as int * 99) / 100]
    }
}

/// There is one such latency for given reads.
pub proof fn lemma_p99_is_unique(reads: Seq<(u64, u64)>, a: u64, b: u64)
    requires
        is_p99(reads, a),
        is_p99(reads, b),
    ensures
        a == b,
{
    if reads.len() > 0 {
        let all = latencies(reads).to_multiset();
        let at = (reads.len() as int * 99) / 100;
        let x = choose|ordered: Seq<u64>|
            #![trigger sorting::is_sorted(ordered)]
            sorting::is_sorted(ordered) && ordered.to_multiset() == all && a == ordered[at];
        let y = choose|ordered: Seq<u64>|
            #![trigger sorting::is_sorted(ordered)]
            sorting::is_sorted(ordered) && ordered.to_multiset() == all && b == ordered[at];
        let leq = |p: u64, q: u64| p <= q;
        assert forall|i: int, j: int| 0 <= i < j < x.len() implies #[trigger] leq(x[i], x[j]) by {
            assert(sorting::Ranked::precedes(x[i], x[j]));
        }
        assert forall|i: int, j: int| 0 <= i < j < y.len() implies #[trigger] leq(y[i], y[j]) by {
            assert(sorting::Ranked::precedes(y[i], y[j]));
        }
        vstd::seq_lib::lemma_sorted_unique(x, y, leq);
    }
}

/// How the pause before the next chunk is found.
#[derive(Clone, Copy, Debug, PartialEq, Eq, Structural)]
pub enum PauseChoice {
    /// The configured pause.
    Base,
    /// The configured pause times the latency of reads over its target.
    Scaled { p99_us: u64 },
}

/// Follows the latency of reads over the last second, and from it chooses the pause
/// between two chunks: longer when reads are slow, shorter when the device is idle.
pub struct PacingController {
    base_pause_us: u64,
    target_read_p99_us: u64,
    read_window: VecDeque<(u64, u64)>,
}

/// The pause that a controller chooses. With few reads to go by, no target, or no latency,
/// it is the configured one.
pub open spec fn is_pause_choice(controller: PacingController, choice: PauseChoice) -> bool {
    match choice {
        PauseChoice::Base => controller.reads().len() < MIN_READ_SAMPLES || controller.target() == 0
            || is_p99(controller.reads(), 0),
        PauseChoice::Scaled { p99_us } => controller.reads().len() >= MIN_READ_SAMPLES
            && controller.target() > 0 && p99_us > 0 && is_p99(controller.reads(), p99_us),
    }
}

impl PacingController {
    pub closed spec fn base_pause(self) -> u64 {
        self.base_pause_us
    }

    pub closed spec fn target(self) -> u64 {
        self.target_read_p99_us
    }

    /// The reads that count, oldest first, each with its time and latency.
    pub closed spec fn reads(self) -> Seq<(u64, u64)> {
        self.read_window@
    }

    /// A controller that has seen no reads. A target of zero turns the adaptation off.
    pub fn new(base_pause_us: u64, target_read_p99_us: u64) -> (r: PacingController)
        ensures
            r.base_pause() == base_pause_us,
            r.target() == target_read_p99_us,
            r.reads() == Seq::<(u64, u64)>::empty(),
    {
        PacingController { base_pause_us, target_read_p99_us, read_window: VecDeque::new() }
    }

    /// The configured pause.
    pub fn base_pause_us(&self) -> (r: u64)
        ensures
            r == self.base_pause(),
    {
        self.base_pause_us
    }

    /// The latency that reads should stay at.
    pub fn target_read_p99_us(&self) -> (r: u64)
        ensures
            r == self.target(),
    {
        self.target_read_p99_us
    }

    /// Takes note of a read that ended at `now_us`, and forgets those at the front that
    /// are more than a second old.
    pub fn record_read(&mut self, now_us: u64, latency_us: u64)
        ensures
            has_recorded_read(*old(self), *final(self), now_us, latency_us),
    {
        self.read_window.push_back((now_us, latency_us));
        let ghost all = self.read_window@;
        let ghost cutoff_at = now_us - READ_WINDOW_US;
        if now_us < READ_WINDOW_US {
            return;
        }
        let cutoff: u64 = now_us - READ_WINDOW_US;
        while self.read_window.len() > 0 && self.read_window[0].0 < cutoff
            invariant
                cutoff == cutoff_at,
                since(self.read_window@, cutoff_at) == since(all, cutoff_at),
                self.base_pause_us == old(self).base_pause_us,
                self.target_read_p99_us == old(self).target_read_p99_us,
            decreases self.read_window@.len(),
        {
            let ghost before = self.read_window@;
            let _ = self.read_window.pop_front();
            assert(self.read_window@ =~= before.skip(1));
        }
    }

    /// The latency that ninety-nine of a hundred reads stay at or below.
    pub fn current_p99_us(&self) -> (r: u64)
        ensures
            is_p99(self.reads(), r),
    {
        let len: usize = self.read_window.len();
        if len == 0 {
            return 0;
        }
        let mut found: Vec<u64> = Vec::new();
        let mut i: usize = 0;
        while i < len
            invariant
                len == self.read_window@.len(),
                i <= len,
                found@ == latencies(self.read_window@).take(i as int),
            decreases len - i,
        {
            let (_, latency) = self.read_window[i];
            found.push(latency);
            assert(found@ =~= latencies(self.read_window@).take(i + 1));
            i = i + 1;
        }
        assert(found@ =~= latencies(self.read_window@));
        let ordered = sorting::sorted(found);
        let hundreds: usize = len / 100;
        let rest: usize = len % 100;
        let at: usize = hundreds * 99 + rest * 99 / 100;
        assert(at == (len as int * 99) / 100);
        ordered[at]
    }

    /// How to find the pause before the next chunk.
    pub fn next_pause(&self) -> (r: PauseChoice)
        ensures
            is_pause_choice(*self, r),
    {
        if self.read_window.len() < MIN_READ_SAMPLES || self.target_read_p99_us == 0 {
            return PauseChoice::Base;
        }
        let p99_us: u64 = self.current_p99_us();
        if p99_us == 0 {
            return PauseChoice::Base;
        }
        PauseChoice::Scaled { p99_us }
    }
}

/// `after` is `before` when it has taken note of a read.
pub open spec fn has_recorded_read(
    before: PacingController,
    after: PacingController,
    now_us: u64,
    latency_us: u64,
) -> bool {
    &&& after.base_pause() == before.base_pause()
    &&& after.target() == before.target()
    &&& after.reads() == since(
        before.reads().push((now_us, latency_us)),
        now_us - READ_WINDOW_US,
    )
}

/// What is left of a row of reads is its end; what is left out is older than the cutoff, and
/// the first that is left is not.
pub proof fn lemma_since_drops_the_old(reads: Seq<(u64, u64)>, cutoff: int, k: int)
    ensures
        since(reads, cutoff).len() <= reads.len(),
        reads.skip(reads.len() - since(reads, cutoff).len()) == since(reads, cutoff),
        0 <= k < reads.len() - since(reads, cutoff).len() ==> reads[k].0 < cutoff,
        since(reads, cutoff).len() > 0 ==> since(reads, cutoff)[0].0 >= cutoff,
    decreases reads.len(),
{
    if reads.len() > 0 && reads[0].0 < cutoff {
        let rest = reads.skip(1);
        lemma_since_drops_the_old(rest, cutoff, k - 1);
        let r = since(reads, cutoff);
        assert(rest.skip(rest.len() - r.len()) =~= reads.skip(reads.len() - r.len()));
        if 0 < k < reads.len() - r.len() {
            assert(reads[k] == rest[k - 1]);
        }
    } else {
        assert(reads.skip(0) =~= reads);
    }
}

/// A read that has just ended is the last one on record. Before it stand the reads that were on
/// record, without some at the front, each of which ended more than a second ago; the first
/// that is left ended within the last second.
pub proof fn lemma_window_is_a_second(
    before: PacingController,
    after: PacingController,
    now_us: u64,
    latency_us: u64,
    k: int,
)
    requires
        has_recorded_read(before, after, now_us, latency_us),
    ensures
        ({
            let dropped = before.reads().len() + 1 - after.reads().len();
            &&& after.reads().len() > 0 && after.reads().last() == (now_us, latency_us)
            &&& 0 <= dropped <= before.reads().len()
            &&& after.reads().drop_last() == before.reads().skip(dropped)
            &&& 0 <= k < dropped ==> before.reads()[k].0 + 1_000_000 < now_us
            &&& after.reads()[0].0 + 1_000_000 >= now_us
        }),
        after.base_pause() == before.base_pause(),
        after.target() == before.target(),
{
    let all = before.reads().push((now_us, latency_us));
    let r = after.reads();
    let cutoff = now_us - READ_WINDOW_US;
    lemma_since_drops_the_old(all, cutoff, k);
    lemma_since_drops_the_old(all, cutoff, all.len() - 1);
    assert(all.last() == all[all.len() - 1]);
    assert(r.last() == all.skip(all.len() - r.len())[r.len() - 1]);
    assert(r.drop_last() =~= before.reads().skip(all.len() - r.len()));
    if 0 <= k < all.len() - r.len() {
        assert(all[k] == before.reads()[k]);
    }
}

proof fn lemma_filter_goes_by_multiset(s: Seq<u64>, t: Seq<u64>, f: spec_fn(u64) -> bool)
    requires
        s.to_multiset() == t.to_multiset(),
    ensures
        s.filter(f).len() == t.filter(f).len(),
    decreases s.len(),
{
    broadcast use vstd::seq_lib::group_to_multiset_ensures;

    reveal(Seq::filter);
    s.to_multiset_ensures();
    t.to_multiset_ensures();
    if s.len() > 0 {
        let x = s.last();
        assert(s.contains(x));
        assert(s.to_multiset().count(x) > 0);
        assert(t.contains(x));
        let k = choose|k: int| 0 <= k < t.len() && t[k] == x;
        let rest = t.remove(k);
        assert(s.drop_last() =~= s.remove(s.len() - 1));
        assert(s.drop_last().to_multiset() =~= rest.to_multiset());
        lemma_filter_goes_by_multiset(s.drop_last(), rest, f);
        let head = t.take(k);
        let tail = t.skip(k + 1);
        assert(t =~= head.push(x) + tail);
        assert(rest =~= head + tail);
        Seq::filter_distributes_over_add(head.push(x), tail, f);
        Seq::filter_distributes_over_add(head, tail, f);
        head.lemma_filter_push(x, f);
    }
}

proof fn lemma_filter_takes_all(s: Seq<u64>, f: spec_fn(u64) -> bool)
    requires
        forall|i: int| 0 <= i < s.len() ==> f(#[trigger] s[i]),
    ensures
        s.filter(f).len() == s.len(),
    decreases s.len(),
{
    reveal(Seq::filter);
    if s.len() > 0 {
        lemma_filter_takes_all(s.drop_last(), f);
        assert(f(s[s.len() - 1]));
    }
}

proof fn lemma_filter_takes_none(s: Seq<u64>, f: spec_fn(u64) -> bool)
    requires
        forall|i: int| 0 <= i < s.len() ==> !f(#[trigger] s[i]),
    ensures
        s.filter(f).len() == 0,
    decreases s.len(),
{
    reveal(Seq::filter);
    if s.len() > 0 {
        lemma_filter_takes_none(s.drop_last(), f);
        assert(!f(s[s.len() - 1]));
    }
}

/// At most one of a hundred latencies lies above the one that is found, and at least one of a
/// hundred is as high. It is the latency of one of the reads.
pub proof fn lemma_p99_splits_reads(reads: Seq<(u64, u64)>, p99: u64)
    requires
        reads.len() > 0,
        is_p99(reads, p99),
    ensures
        100 * latencies(reads).filter(|l: u64| l > p99).len() < reads.len(),
        100 * latencies(reads).filter(|l: u64| l >= p99).len() >= reads.len(),
        exists|i: int| 0 <= i < reads.len() && (#[trigger] reads[i]).1 == p99,
{
    broadcast use vstd::seq_lib::group_to_multiset_ensures;

    let all = latencies(reads);
    let n = reads.len() as int;
    let at = (n * 99) / 100;
    let ordered = choose|ordered: Seq<u64>|
        #![trigger sorting::is_sorted(ordered)]
        sorting::is_sorted(ordered) && ordered.to_multiset() == all.to_multiset() && p99
            == ordered[at];
    assert(ordered.to_multiset().len() == all.to_multiset().len());
    assert(ordered.len() == n);
    let above = |l: u64| l > p99;
    let from = |l: u64| l >= p99;
    lemma_filter_goes_by_multiset(ordered, all, above);
    lemma_filter_goes_by_multiset(ordered, all, from);
    let low = ordered.take(at + 1);
    let high = ordered.skip(at + 1);
    assert(ordered =~= low + high);
    assert forall|i: int| 0 <= i < low.len() implies !above(#[trigger] low[i]) by {
        if i < at {
            assert(sorting::Ranked::precedes(ordered[i], ordered[at]));
        }
    }
    lemma_filter_takes_none(low, above);
    Seq::filter_distributes_over_add(low, high, above);
    high.lemma_filter_len(above);
    let below = ordered.take(at);
    let rest = ordered.skip(at);
    assert(ordered =~= below + rest);
    assert forall|i: int| 0 <= i < rest.len() implies from(#[trigger] rest[i]) by {
        if i > 0 {
            assert(sorting::Ranked::precedes(ordered[at], ordered[at + i]));
        }
    }
    lemma_filter_takes_all(rest, from);
    Seq::filter_distributes_over_add(below, rest, from);
    assert(ordered.contains(p99));
    assert(all.to_multiset().count(p99) > 0);
    assert(all.contains(p99));
    let i = choose|i: int| 0 <= i < all.len() && all[i] == p99;
    assert(reads[i].1 == p99);
}

/// The pause is scaled exactly if there are thirty-two reads to go by, a target, and a latency
/// to hold against it; the latency that goes into the scale is that of those reads.
pub proof fn lemma_pause_follows_reads(
    controller: PacingController,
    choice: PauseChoice,
    p99: u64,
)
    requires
        is_pause_choice(controller, choice),
        is_p99(controller.reads(), p99),
    ensures
        choice == if controller.reads().len() >= 32 && controller.target() > 0 && p99 > 0 {
            PauseChoice::Scaled { p99_us: p99 }
        } else {
            PauseChoice::Base
        },
{
    match choice {
        PauseChoice::Base => {
            if is_p99(controller.reads(), 0) {
                lemma_p99_is_unique(controller.reads(), 0, p99);
            }
        },
        PauseChoice::Scaled { p99_us } => {
            lemma_p99_is_unique(controller.reads(), p99_us, p99);
        },
    }
}

} // verus!
