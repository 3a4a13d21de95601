//! How the bytes of an object are cut into parts of one size, and how a range of
//! the object is read back out of them.

use crate::buffers;
use bytes::{Bytes, BytesMut};
use vstd::arithmetic::div_mod::*;
use vstd::arithmetic::mul::*;
use vstd::prelude::*;

verus! {

/// The number of a part inside its object, counted from zero.
pub type PartID = usize;

/// `n` rounded down to a multiple of `a`.
pub open spec fn align_down(n: int, a: int) -> int {
    n - n % a
}

/// How many parts of size `a` it takes to hold `n` bytes.
pub open spec fn parts_needed(n: int, a: int) -> int {
    (n + a - 1) / a
}

/// `n` rounded up to a multiple of `a`.
pub open spec fn align_up(n: int, a: int) -> int {
    parts_needed(n, a) * a
}

pub open spec fn min_int(a: int, b: int) -> int {
    if a <= b {
        a
    } else {
        b
    }
}

/// Part `k` of an object: `part_size` bytes, or what is left of it for the last part.
pub open spec fn part_of(data: Seq<u8>, k: int, part_size: int) -> Seq<u8> {
    data.subrange(k * part_size, min_int((k + 1) * part_size, data.len() as int))
}

/// All parts of an object in order.
pub open spec fn all_parts(data: Seq<u8>, part_size: int) -> Seq<Seq<u8>> {
    Seq::new(
        parts_needed(data.len() as int, part_size) as nat,
        |i: int| part_of(data, i, part_size),
    )
}

/// Where the range from `start` to `end` of an object lies in its parts: the
/// number of each part that the range touches, with the first byte inside the part
/// and the byte after the last.
pub open spec fn part_spans(start: int, end: int, part_size: int) -> Seq<(int, int, int)> {
    let first = start / part_size;
    let after = parts_needed(end, part_size);
    if after <= first {
        Seq::empty()
    } else {
        Seq::new(
            (after - first) as nat,
            |i: int|
                (
                    first + i,
                    if i == 0 {
                        start % part_size
                    } else {
                        0
                    },
                    if i == after - first - 1 && end % part_size != 0 {
                        end % part_size
                    } else {
                        part_size
                    },
                ),
        )
    }
}

/// The pieces of an object that its spans name.
pub open spec fn span_pieces(
    data: Seq<u8>,
    spans: Seq<(int, int, int)>,
    part_size: int,
) -> Seq<Seq<u8>> {
    Seq::new(
        spans.len(),
        |i: int| part_of(data, spans[i].0, part_size).subrange(spans[i].1, spans[i].2),
    )
}

/// Division facts on one number: quotient, remainder and the rounded up quotient.
pub proof fn lemma_parts_needed(n: int, a: int)
    requires
        a > 0,
        n >= 0,
    ensures
        n == (n / a) * a + n % a,
        0 <= n % a < a,
        parts_needed(n, a) == n / a + (if n % a == 0 {
            0int
        } else {
            1int
        }),
        align_down(n, a) == (n / a) * a,
        align_up(n, a) >= n,
        align_up(n, a) < n + a,
        n / a >= 0,
        align_up(n, a) % a == 0,
        align_down(n, a) % a == 0,
        align_down(n, a) <= n,
{
    lemma_fundamental_div_mod(n, a);
    lemma_mul_is_commutative(a, n / a);
    lemma_mod_pos_bound(n, a);
    lemma_div_pos_is_pos(n, a);
    let q = n / a;
    let r = n % a;
    if r == 0 {
        lemma_fundamental_div_mod_converse(n + a - 1, a, q, a - 1);
    } else {
        assert((q + 1) * a == q * a + a) by (nonlinear_arith);
        lemma_fundamental_div_mod_converse(n + a - 1, a, q + 1, r - 1);
    }
    assert((q + 1) * a == q * a + a) by (nonlinear_arith);
    lemma_mod_multiples_basic(parts_needed(n, a), a);
    lemma_mod_multiples_basic(q, a);
}

/// A range of an object, read part by part along its spans, is that range: the
/// pieces follow each other without gap or overlap.
pub proof fn lemma_spans_read_back(data: Seq<u8>, start: int, end: int, part_size: int)
    requires
        part_size > 0,
        0 <= start <= end <= data.len(),
    ensures
        span_pieces(data, part_spans(start, end, part_size), part_size).flatten()
            == data.subrange(start, end),
{
    let spans = part_spans(start, end, part_size);
    let pieces = span_pieces(data, spans, part_size);
    lemma_parts_needed(start, part_size);
    lemma_parts_needed(end, part_size);
    if spans.len() == 0 {
        assert(start == end) by {
            let first = start / part_size;
            let after = parts_needed(end, part_size);
            assert(after * part_size <= first * part_size) by (nonlinear_arith)
                requires
                    after <= first,
                    part_size > 0,
            ;
        }
        assert(pieces =~= Seq::empty());
        assert(data.subrange(start, end) =~= Seq::empty());
    } else {
        lemma_span_prefix(data, start, end, part_size, spans.len() as int);
        assert(pieces.take(spans.len() as int) =~= pieces);
        let first = start / part_size;
        let after = parts_needed(end, part_size);
        assert(first + spans.len() == after);
    }
}

/// The first `n` pieces make up the range up to the end of the last of them.
proof fn lemma_span_prefix(data: Seq<u8>, start: int, end: int, part_size: int, n: int)
    requires
        part_size > 0,
        0 <= start <= end <= data.len(),
        1 <= n <= part_spans(start, end, part_size).len(),
    ensures
        span_pieces(data, part_spans(start, end, part_size), part_size).take(n).flatten()
            == data.subrange(start, min_int((start / part_size + n) * part_size, end)),
        start <= min_int((start / part_size + n) * part_size, end),
    decreases n,
{
    let spans = part_spans(start, end, part_size);
    let pieces = span_pieces(data, spans, part_size);
    let first = start / part_size;
    let after = parts_needed(end, part_size);
    lemma_parts_needed(start, part_size);
    lemma_parts_needed(end, part_size);
    let k = first + n - 1;
    assert((k + 1) * part_size == k * part_size + part_size) by (nonlinear_arith);
    assert(first * part_size <= k * part_size) by (nonlinear_arith)
        requires
            first <= k,
            part_size > 0,
    ;
    assert(k * part_size <= end) by {
        // the last part starts at or before the end
        assert(k <= after - 1);
        assert(k * part_size <= (after - 1) * part_size) by (nonlinear_arith)
            requires
                k <= after - 1,
                part_size > 0,
        ;
        assert((after - 1) * part_size == after * part_size - part_size) by (nonlinear_arith);
    }
    let boundary = min_int((k + 1) * part_size, end);
    // where the last of the pieces lies in the object
    let lo = k * part_size + spans[n - 1].1;
    let hi = k * part_size + spans[n - 1].2;
    assert(hi == boundary) by {
        if n == spans.len() {
            assert(k + 1 == after);
            if end % part_size != 0 {
                assert(k == end / part_size);
            } else {
                assert(k + 1 == end / part_size);
            }
        } else {
            assert(k + 1 <= after - 1);
            assert((k + 1) * part_size <= (after - 1) * part_size) by (nonlinear_arith)
                requires
                    k + 1 <= after - 1,
                    part_size > 0,
            ;
            assert((after - 1) * part_size == after * part_size - part_size) by (nonlinear_arith);
        }
    }
    assert(pieces[n - 1] =~= data.subrange(lo, hi));
    assert(pieces.take(n) =~= pieces.take(n - 1).push(pieces[n - 1]));
    pieces.take(n - 1).lemma_flatten_push(pieces[n - 1]);
    if n == 1 {
        assert(pieces.take(0) =~= Seq::<Seq<u8>>::empty());
        assert(pieces.take(0).flatten() =~= Seq::<u8>::empty());
        assert(lo == start);
    } else {
        lemma_span_prefix(data, start, end, part_size, n - 1);
        assert(lo == k * part_size);
        assert(data.subrange(start, lo) + data.subrange(lo, hi) =~= data.subrange(start, hi));
    }
}

/// The whole parts at the head of `data`, without a shorter last one.
pub open spec fn whole_parts(data: Seq<u8>, part_size: int) -> Seq<Seq<u8>> {
    Seq::new((data.len() as int / part_size) as nat, |i: int| part_of(data, i, part_size))
}

/// What `data` holds behind its whole parts.
pub open spec fn remainder(data: Seq<u8>, part_size: int) -> Seq<u8> {
    data.skip((data.len() as int / part_size) * part_size)
}

/// Numbered parts whose numbers run upward from `first` and whose bytes are `parts`.
pub open spec fn are_numbered_parts(
    out: Seq<(PartID, Bytes)>,
    first: int,
    parts: Seq<Seq<u8>>,
) -> bool {
    &&& out.len() == parts.len()
    &&& forall|i: int|
        0 <= i < out.len() ==> (#[trigger] out[i]).0 == first + i && buffers::bytes_contents(
            out[i].1,
        ) == parts[i]
}

/// Cuts a stream of chunks into parts of one size. A part leaves as soon as it is
/// full; the last one leaves when the stream ends.
pub struct PartSplitter {
    part_size: usize,
    buffer: BytesMut,
    part_number: PartID,
    total_bytes: u64,
}

impl PartSplitter {
    #[verifier::type_invariant]
    spec fn positive_part_size(self) -> bool {
        self.part_size > 0
    }

    /// The size of every part but the last.
    pub closed spec fn part_size(self) -> int {
        self.part_size as int
    }

    /// The bytes that have come in and have not left in a part.
    pub closed spec fn held(self) -> Seq<u8> {
        buffers::buffer_contents(self.buffer)
    }

    /// The number of the next part to leave.
    pub closed spec fn next_part(self) -> int {
        self.part_number as int
    }

    /// How many bytes have come in.
    pub closed spec fn total(self) -> int {
        self.total_bytes as int
    }

    /// A splitter whose first part gets the number `start_part_number`.
    pub fn new(part_size: usize, start_part_number: PartID) -> (r: PartSplitter)
        requires
            part_size > 0,
        ensures
            r.part_size() == part_size,
            r.held() == Seq::<u8>::empty(),
            r.next_part() == start_part_number,
            r.total() == 0,
    {
        PartSplitter {
            part_size,
            buffer: buffers::empty_buffer(),
            part_number: start_part_number,
            total_bytes: 0,
        }
    }

    /// Takes in one chunk and gives out the parts that it fills.
    pub fn push(&mut self, chunk: &[u8]) -> (r: Vec<(PartID, Bytes)>)
        requires
            old(self).held().len() + chunk@.len() <= isize::MAX,
            old(self).total() + chunk@.len() <= u64::MAX,
            old(self).next_part() + (old(self).held() + chunk@).len() as int / old(
                self,
            ).part_size() <= usize::MAX,
        ensures
            has_pushed(*old(self), *final(self), chunk@, r@),
    {
        proof {
            use_type_invariant(&*self);
        }
        let ghost all = self.held() + chunk@;
        let ghost size = self.part_size();
        let ghost first = self.next_part();
        let part_size: usize = self.part_size;
        let mut buffer = buffers::empty_buffer();
        std::mem::swap(&mut buffer, &mut self.buffer);
        let mut part_number: PartID = self.part_number;
        let mut out: Vec<(PartID, Bytes)> = Vec::new();
        buffers::buffer_extend(&mut buffer, chunk);
        proof {
            lemma_parts_needed(all.len() as int, size);
            assert(0 * size == 0) by (nonlinear_arith);
            assert(all.skip(0) =~= all);
            assert(whole_parts(all, size).take(0) =~= Seq::<Seq<u8>>::empty());
        }
        while buffers::buffer_len(&buffer) >= part_size
            invariant
                part_size == size,
                size > 0,
                0 <= out@.len() * size <= all.len(),
                buffers::buffer_contents(buffer) == all.skip(out@.len() * size),
                part_number == first + out@.len(),
                first + all.len() as int / size <= usize::MAX,
                out@.len() <= all.len() as int / size,
                all.len() as int == (all.len() as int / size) * size + all.len() as int % size,
                0 <= all.len() as int % size < size,
                are_numbered_parts(out@, first, whole_parts(all, size).take(out@.len() as int)),
            decreases all.len() - out@.len() * size,
        {
            let ghost n = out@.len() as int;
            proof {
                assert((n + 1) * size == n * size + size) by (nonlinear_arith);
                let q = all.len() as int / size;
                assert(n < q) by (nonlinear_arith)
                    requires
                        n * size + size <= all.len(),
                        all.len() == q * size + all.len() as int % size,
                        0 <= all.len() as int % size < size,
                        size > 0,
                ;
            }
            let part = buffers::buffer_split_to(&mut buffer, part_size);
            let frozen = buffers::buffer_freeze(part);
            proof {
                assert(buffers::bytes_contents(frozen) =~= part_of(all, n, size));
                assert(buffers::buffer_contents(buffer) =~= all.skip((n + 1) * size));
                assert(whole_parts(all, size).take(n + 1) =~= whole_parts(all, size).take(n).push(
                    part_of(all, n, size),
                ));
            }
            out.push((part_number, frozen));
            part_number = part_number + 1;
        }
        proof {
            let n = out@.len() as int;
            let q = all.len() as int / size;
            assert(n == q) by (nonlinear_arith)
                requires
                    n <= q,
                    all.len() - n * size < size,
                    all.len() == q * size + all.len() as int % size,
                    0 <= all.len() as int % size < size,
                    size > 0,
            ;
            assert(whole_parts(all, size).take(n) =~= whole_parts(all, size));
        }
        self.total_bytes = self.total_bytes + chunk.len() as u64;
        self.part_number = part_number;
        self.buffer = buffer;
        out
    }

    /// Ends the stream: what is still held leaves as the last part, unless it is
    /// empty.
    pub fn flush(&mut self) -> (r: Option<(PartID, Bytes)>)
        ensures
            is_last_part(*old(self), r),
            final(self).held() == Seq::<u8>::empty(),
            final(self).part_size() == old(self).part_size(),
            final(self).next_part() == old(self).next_part(),
            final(self).total() == old(self).total(),
    {
        proof {
            use_type_invariant(&*self);
        }
        let mut buffer = buffers::empty_buffer();
        std::mem::swap(&mut buffer, &mut self.buffer);
        if buffers::buffer_len(&buffer) == 0 {
            assert(self.held() =~= Seq::<u8>::empty());
            None
        } else {
            Some((self.part_number, buffers::buffer_freeze(buffer)))
        }
    }

    /// How many bytes have come in.
    pub fn total_bytes(&self) -> (r: u64)
        ensures
            r == self.total(),
    {
        self.total_bytes
    }

    /// How many bytes wait for their part to fill.
    pub fn held_bytes(&self) -> (r: usize)
        ensures
            r == self.held().len(),
    {
        buffers::buffer_len(&self.buffer)
    }

    /// The number of the next part to leave.
    pub fn next_part_number(&self) -> (r: PartID)
        ensures
            r == self.next_part(),
    {
        self.part_number
    }
}

/// `after` is `before` when it has taken in `chunk` and given out the parts that are full.
pub open spec fn has_pushed(
    before: PartSplitter,
    after: PartSplitter,
    chunk: Seq<u8>,
    out: Seq<(PartID, Bytes)>,
) -> bool {
    let data = before.held() + chunk;
    &&& are_numbered_parts(out, before.next_part(), whole_parts(data, before.part_size()))
    &&& after.part_size() == before.part_size()
    &&& after.held() == remainder(data, before.part_size())
    &&& after.next_part() == before.next_part() + out.len()
    &&& after.total() == before.total() + chunk.len()
}

/// What `splitter` gives out as the last part: what it holds, or nothing if it holds nothing.
pub open spec fn is_last_part(splitter: PartSplitter, last: Option<(PartID, Bytes)>) -> bool {
    &&& last is None <==> splitter.held().len() == 0
    &&& last matches Some(p) ==> p.0 == splitter.next_part() && buffers::bytes_contents(p.1)
        == splitter.held()
}

/// A splitter that starts at part `first` takes in `chunks` one after the other; it is
/// `states[i]` before chunk `i`, for which it gives out `out[i]`.
pub open spec fn is_splitter_run(
    states: Seq<PartSplitter>,
    first: int,
    chunks: Seq<Seq<u8>>,
    out: Seq<Seq<(PartID, Bytes)>>,
) -> bool {
    &&& states.len() == chunks.len() + 1
    &&& out.len() == chunks.len()
    &&& states[0].next_part() == first
    &&& states[0].held() == Seq::<u8>::empty()
    &&& states[0].total() == 0
    &&& forall|i: int|
        #![trigger out[i]]
        0 <= i < chunks.len() ==> has_pushed(states[i], states[i + 1], chunks[i], out[i])
}

/// However a stream is cut into chunks, what is saved of it depends on its bytes alone. If it
/// breaks off, the parts that went out are the full parts of what came in, numbered upward
/// from the first. If it ends, they are, with the last one, all parts of what came in, and
/// the splitter has counted every byte.
pub proof fn lemma_stream_is_saved(
    states: Seq<PartSplitter>,
    first: int,
    chunks: Seq<Seq<u8>>,
    out: Seq<Seq<(PartID, Bytes)>>,
    last: Option<(PartID, Bytes)>,
)
    requires
        is_splitter_run(states, first, chunks, out),
        states[0].part_size() > 0,
        is_last_part(states.last(), last),
    ensures
        ({
            let data = chunks.flatten();
            let part_size = states[0].part_size();
            &&& are_numbered_parts(out.flatten(), first, whole_parts(data, part_size))
            &&& are_numbered_parts(
                if last is Some {
                    out.flatten().push(last->0)
                } else {
                    out.flatten()
                },
                first,
                all_parts(data, part_size),
            )
            &&& states.last().total() == data.len()
        }),
{
    let size = states[0].part_size();
    lemma_splitter_run(states, first, chunks, out);
    lemma_stream_prefix(chunks, size);
    lemma_stream_parts(chunks, size);
    let given = out.flatten();
    let whole = split_stream(chunks, size).0;
    if last is Some {
        let all = given.push(last->0);
        assert forall|i: int| 0 <= i < all.len() implies (#[trigger] all[i]).0 == first + i
            && buffers::bytes_contents(all[i].1) == saved_parts(chunks, size)[i] by {
            if i < given.len() {
                assert(all[i] == given[i]);
            }
        }
    }
}

/// A run of a splitter gives out what the chunks are split into, and counts their bytes.
proof fn lemma_splitter_run(
    states: Seq<PartSplitter>,
    first: int,
    chunks: Seq<Seq<u8>>,
    out: Seq<Seq<(PartID, Bytes)>>,
)
    requires
        is_splitter_run(states, first, chunks, out),
    ensures
        ({
            let (whole, held) = split_stream(chunks, states[0].part_size());
            &&& are_numbered_parts(out.flatten(), first, whole)
            &&& states.last().held() == held
            &&& states.last().part_size() == states[0].part_size()
            &&& states.last().next_part() == first + whole.len()
            &&& states.last().total() == chunks.flatten().len()
        }),
    decreases chunks.len(),
{
    let size = states[0].part_size();
    if chunks.len() == 0 {
        assert(chunks =~= Seq::<Seq<u8>>::empty());
        assert(out =~= Seq::<Seq<(PartID, Bytes)>>::empty());
        assert(chunks.flatten() =~= Seq::<u8>::empty());
        assert(out.flatten() =~= Seq::<(PartID, Bytes)>::empty());
        assert(states.last() == states[0]);
    } else {
        let n = chunks.len() - 1;
        let earlier = states.drop_last();
        assert forall|i: int|
            #![trigger out.drop_last()[i]]
            0 <= i < n implies has_pushed(
            earlier[i],
            earlier[i + 1],
            chunks.drop_last()[i],
            out.drop_last()[i],
        ) by {
            assert(out[i] == out.drop_last()[i]);
        }
        lemma_splitter_run(earlier, first, chunks.drop_last(), out.drop_last());
        assert(has_pushed(states[n], states[n + 1], chunks[n], out[n]));
        assert(earlier.last() == states[n]);
        assert(chunks =~= chunks.drop_last().push(chunks[n]));
        assert(out =~= out.drop_last().push(out[n]));
        chunks.drop_last().lemma_flatten_push(chunks[n]);
        out.drop_last().lemma_flatten_push(out[n]);
        let given = out.drop_last().flatten();
        let (whole, held) = split_stream(chunks.drop_last(), size);
        let next = whole_parts(held + chunks[n], size);
        assert forall|i: int| 0 <= i < (given + out[n]).len() implies (#[trigger] (given
            + out[n])[i]).0 == first + i && buffers::bytes_contents((given + out[n])[i].1) == (whole
            + next)[i] by {
            if i < given.len() {
                assert((given + out[n])[i] == given[i]);
            } else {
                assert((given + out[n])[i] == out[n][i - given.len()]);
            }
        }
    }
}

/// What a splitter has given out, and what it holds, after it took in `chunks`.
pub open spec fn split_stream(chunks: Seq<Seq<u8>>, part_size: int) -> (Seq<Seq<u8>>, Seq<u8>)
    decreases chunks.len(),
{
    if chunks.len() == 0 {
        (Seq::empty(), Seq::empty())
    } else {
        let (parts, held) = split_stream(chunks.drop_last(), part_size);
        let data = held + chunks.last();
        (parts + whole_parts(data, part_size), remainder(data, part_size))
    }
}

/// The parts that are saved of a stream of chunks: those that a splitter gives out, with
/// what it holds at the end as the last one.
pub open spec fn saved_parts(chunks: Seq<Seq<u8>>, part_size: int) -> Seq<Seq<u8>> {
    let (parts, held) = split_stream(chunks, part_size);
    if held.len() == 0 {
        parts
    } else {
        parts.push(held)
    }
}

/// However the bytes of an object are cut into chunks, the parts that are saved of them are
/// the parts of the object.
pub proof fn lemma_stream_parts(chunks: Seq<Seq<u8>>, part_size: int)
    requires
        part_size > 0,
    ensures
        saved_parts(chunks, part_size) == all_parts(chunks.flatten(), part_size),
{
    lemma_stream_prefix(chunks, part_size);
    let data = chunks.flatten();
    let (parts, held) = split_stream(chunks, part_size);
    lemma_parts_needed(data.len() as int, part_size);
    let q = data.len() as int / part_size;
    assert((q + 1) * part_size == q * part_size + part_size) by (nonlinear_arith);
    if held.len() == 0 {
        assert(all_parts(data, part_size) =~= parts);
    } else {
        assert(part_of(data, q, part_size) =~= held);
        assert(all_parts(data, part_size) =~= parts.push(held));
    }
}

/// A range of a part is that range of the object.
pub proof fn lemma_range_of_part(data: Seq<u8>, k: int, part_size: int, start: int, end: int)
    requires
        part_size > 0,
        0 <= k,
        k * part_size <= data.len(),
        0 <= start <= end <= part_of(data, k, part_size).len(),
    ensures
        part_of(data, k, part_size).subrange(start, end) == data.subrange(
            k * part_size + start,
            k * part_size + end,
        ),
{
    assert((k + 1) * part_size == k * part_size + part_size) by (nonlinear_arith);
    assert(k * part_size >= 0) by (nonlinear_arith)
        requires
            k >= 0,
            part_size > 0,
    ;
    assert(part_of(data, k, part_size).subrange(start, end) =~= data.subrange(
        k * part_size + start,
        k * part_size + end,
    ));
}

/// A splitter gives out exactly the whole parts of what came in, and holds the rest.
proof fn lemma_stream_prefix(chunks: Seq<Seq<u8>>, part_size: int)
    requires
        part_size > 0,
    ensures
        split_stream(chunks, part_size).0 == whole_parts(chunks.flatten(), part_size),
        split_stream(chunks, part_size).1 == remainder(chunks.flatten(), part_size),
    decreases chunks.len(),
{
    if chunks.len() == 0 {
        assert(chunks =~= Seq::<Seq<u8>>::empty());
        let none = Seq::<Seq<u8>>::empty().flatten();
        assert(none =~= Seq::<u8>::empty());
        lemma_parts_needed(0, part_size);
        assert(0int / part_size == 0) by (nonlinear_arith)
            requires
                part_size > 0,
        ;
        assert(whole_parts(none, part_size) =~= Seq::empty());
        assert(remainder(none, part_size) =~= Seq::empty());
    } else {
        lemma_stream_prefix(chunks.drop_last(), part_size);
        assert(chunks =~= chunks.drop_last().push(chunks.last()));
        chunks.drop_last().lemma_flatten_push(chunks.last());
        let before = chunks.drop_last().flatten();
        let data = chunks.flatten();
        assert(data =~= before + chunks.last());
        let held = remainder(before, part_size);
        let next = held + chunks.last();
        lemma_parts_needed(before.len() as int, part_size);
        lemma_parts_needed(next.len() as int, part_size);
        lemma_parts_needed(data.len() as int, part_size);
        let p = before.len() as int / part_size;
        let q = next.len() as int / part_size;
        assert((p + q) * part_size == p * part_size + q * part_size) by (nonlinear_arith);
        assert(data.len() == (p + q) * part_size + next.len() as int % part_size);
        lemma_fundamental_div_mod_converse(
            data.len() as int,
            part_size,
            p + q,
            next.len() as int % part_size,
        );
        assert forall|i: int| 0 <= i < p + q implies part_of(data, i, part_size) == (whole_parts(
            before,
            part_size,
        ) + whole_parts(next, part_size))[i] by {
            assert((i + 1) * part_size == i * part_size + part_size) by (nonlinear_arith);
            if i < p {
                assert((i + 1) * part_size <= p * part_size) by (nonlinear_arith)
                    requires
                        i + 1 <= p,
                        part_size > 0,
                ;
                assert(0 <= i * part_size) by (nonlinear_arith)
                    requires
                        0 <= i,
                        part_size > 0,
                ;
                assert(part_of(data, i, part_size) =~= part_of(before, i, part_size));
            } else {
                let j = i - p;
                assert((i + 1) * part_size <= (p + q) * part_size) by (nonlinear_arith)
                    requires
                        i + 1 <= p + q,
                        part_size > 0,
                ;
                assert(i * part_size == p * part_size + j * part_size) by (nonlinear_arith)
                    requires
                        i == p + j,
                ;
                assert((j + 1) * part_size == j * part_size + part_size) by (nonlinear_arith);
                assert(0 <= j * part_size) by (nonlinear_arith)
                    requires
                        0 <= j,
                        part_size > 0,
                ;
                assert(part_of(data, i, part_size) =~= part_of(next, j, part_size));
            }
        }
        assert(whole_parts(data, part_size) =~= whole_parts(before, part_size) + whole_parts(
            next,
            part_size,
        ));
        assert(remainder(data, part_size) =~= remainder(next, part_size));
    }
}

/// The parts of an object, one after the other, are the object.
pub proof fn lemma_parts_make_object(data: Seq<u8>, part_size: int)
    requires
        part_size > 0,
    ensures
        all_parts(data, part_size).flatten() == data,
{
    let len = data.len() as int;
    lemma_parts_needed(len, part_size);
    lemma_parts_needed(0, part_size);
    lemma_spans_read_back(data, 0, len, part_size);
    let spans = part_spans(0, len, part_size);
    let n = parts_needed(len, part_size);
    assert(0int / part_size == 0 && 0int % part_size == 0) by (nonlinear_arith)
        requires
            part_size > 0,
    ;
    assert forall|i: int| 0 <= i < n implies span_pieces(data, spans, part_size)[i] == part_of(
        data,
        i,
        part_size,
    ) by {
        assert((i + 1) * part_size == i * part_size + part_size) by (nonlinear_arith);
        assert((i + 1) * part_size <= n * part_size) by (nonlinear_arith)
            requires
                i + 1 <= n,
                part_size > 0,
        ;
        assert(0 <= i * part_size) by (nonlinear_arith)
            requires
                0 <= i,
                part_size > 0,
        ;
        assert((n - 1) * part_size == n * part_size - part_size) by (nonlinear_arith);
        if i < n - 1 {
            assert((i + 1) * part_size <= (n - 1) * part_size) by (nonlinear_arith)
                requires
                    i + 1 <= n - 1,
                    part_size > 0,
            ;
        }
        assert(part_of(data, i, part_size).subrange(spans[i].1, spans[i].2) =~= part_of(
            data,
            i,
            part_size,
        ));
    }
    assert(span_pieces(data, spans, part_size) =~= all_parts(data, part_size));
    assert(data.subrange(0, len) =~= data);
}

/// An answer that begins on a part, and ends on one or at the end of the object, is
/// cut into parts of the object itself: cutting it with the number of its first part
/// saves each part of the object under its own number.
pub proof fn lemma_aligned_slice_parts(data: Seq<u8>, start: int, end: int, part_size: int)
    requires
        part_size > 0,
        0 <= start <= end <= data.len(),
        start % part_size == 0,
        end % part_size == 0 || end == data.len(),
    ensures
        forall|i: int|
            0 <= i < all_parts(data.subrange(start, end), part_size).len() ==> #[trigger] all_parts(
                data.subrange(start, end),
                part_size,
            )[i] == part_of(data, start / part_size + i, part_size),
{
    let slice = data.subrange(start, end);
    let first = start / part_size;
    let n = parts_needed(end - start, part_size);
    lemma_parts_needed(start, part_size);
    lemma_parts_needed(end, part_size);
    lemma_parts_needed(end - start, part_size);
    assert forall|i: int| 0 <= i < n implies part_of(slice, i, part_size) == part_of(
        data,
        first + i,
        part_size,
    ) by {
        assert((i + 1) * part_size == i * part_size + part_size) by (nonlinear_arith);
        assert((first + i) * part_size == first * part_size + i * part_size) by (nonlinear_arith);
        assert((first + i + 1) * part_size == first * part_size + i * part_size + part_size)
            by (nonlinear_arith);
        assert(0 <= i * part_size) by (nonlinear_arith)
            requires
                0 <= i,
                part_size > 0,
        ;
        assert(i * part_size <= (n - 1) * part_size) by (nonlinear_arith)
            requires
                i <= n - 1,
                part_size > 0,
        ;
        assert((n - 1) * part_size == n * part_size - part_size) by (nonlinear_arith);
        if end % part_size == 0 {
            // the slice is made of whole parts
            let last = end / part_size;
            assert(end - start == (last - first) * part_size) by (nonlinear_arith)
                requires
                    end == last * part_size,
                    start == first * part_size,
            ;
            lemma_mod_multiples_basic(last - first, part_size);
            assert((i + 1) * part_size <= n * part_size) by (nonlinear_arith)
                requires
                    i + 1 <= n,
                    part_size > 0,
            ;
        }
        assert(part_of(slice, i, part_size) =~= part_of(data, first + i, part_size));
    }
}

/// The parts that a range touches lie among those of any wider range that begins on a part:
/// counted from the first part of the wider range, they have a number in it.
pub proof fn lemma_spans_stay_inside(
    start: int,
    end: int,
    wide_start: int,
    wide_end: int,
    part_size: int,
)
    requires
        part_size > 0,
        0 <= wide_start <= start,
        end <= wide_end,
        0 <= end,
        wide_start <= wide_end,
        wide_start % part_size == 0,
    ensures
        forall|i: int|
            0 <= i < part_spans(start, end, part_size).len() ==> 0 <= (#[trigger] part_spans(
                start,
                end,
                part_size,
            )[i]).0 - wide_start / part_size < parts_needed(wide_end - wide_start, part_size),
{
    let first = wide_start / part_size;
    lemma_parts_needed(wide_start, part_size);
    lemma_parts_needed(wide_end, part_size);
    lemma_parts_needed(wide_end - wide_start, part_size);
    lemma_div_is_ordered(wide_start, start, part_size);
    lemma_div_is_ordered(end + part_size - 1, wide_end + part_size - 1, part_size);
    let q = wide_end / part_size - first;
    assert(wide_end - wide_start == q * part_size + wide_end % part_size) by (nonlinear_arith)
        requires
            wide_start == first * part_size,
            wide_end == (wide_end / part_size) * part_size + wide_end % part_size,
            q == wide_end / part_size - first,
    ;
    lemma_fundamental_div_mod_converse(
        wide_end - wide_start,
        part_size,
        q,
        wide_end % part_size,
    );
}

/// Rounding up gives the least multiple that is no smaller, and rounding down the greatest
/// that is no larger.
pub proof fn lemma_align_up_is_least(n: int, a: int, k: int)
    requires
        a > 0,
        n >= 0,
    ensures
        n <= k * a ==> align_up(n, a) <= k * a,
        k * a <= n ==> k * a <= align_down(n, a),
        n <= align_up(n, a) < n + a,
        n - a < align_down(n, a) <= n,
        align_up(n, a) % a == 0,
        align_down(n, a) % a == 0,
{
    lemma_parts_needed(n, a);
    if n <= k * a {
        let up = parts_needed(n, a);
        assert(up <= k) by (nonlinear_arith)
            requires
                n <= k * a,
                up * a < n + a,
                a > 0,
        ;
        assert(up * a <= k * a) by (nonlinear_arith)
            requires
                up <= k,
                a > 0,
        ;
    }
    if k * a <= n {
        let down = n / a;
        assert(k <= down) by (nonlinear_arith)
            requires
                k * a <= n,
                n < down * a + a,
                a > 0,
        ;
        assert(k * a <= down * a) by (nonlinear_arith)
            requires
                k <= down,
                a > 0,
        ;
    }
}

/// An object is cut into as many parts as it takes: every part but the last is full, the last
/// one is not empty and no longer than a part, and byte `i` of part `k` is byte `k * part_size
/// + i` of the object.
pub proof fn lemma_parts_of_object(data: Seq<u8>, part_size: int, k: int, i: int)
    requires
        part_size > 0,
        0 <= k < all_parts(data, part_size).len(),
    ensures
        ({
            let parts = all_parts(data, part_size);
            &&& (parts.len() - 1) * part_size < data.len() <= parts.len() * part_size
            &&& k < parts.len() - 1 ==> parts[k].len() == part_size
            &&& k == parts.len() - 1 ==> parts[k].len() == data.len() - k * part_size
            &&& 0 < parts[k].len() <= part_size
            &&& 0 <= i < parts[k].len() ==> parts[k][i] == data[k * part_size + i]
        }),
{
    let n = parts_needed(data.len() as int, part_size);
    lemma_parts_needed(data.len() as int, part_size);
    assert((n - 1) * part_size == n * part_size - part_size) by (nonlinear_arith);
    assert((k + 1) * part_size == k * part_size + part_size) by (nonlinear_arith);
    assert(0 <= k * part_size) by (nonlinear_arith)
        requires
            k >= 0,
            part_size > 0,
    ;
    assert(k * part_size <= (n - 1) * part_size) by (nonlinear_arith)
        requires
            k <= n - 1,
            part_size > 0,
    ;
    if k < n - 1 {
        assert((k + 1) * part_size <= (n - 1) * part_size) by (nonlinear_arith)
            requires
                k + 1 <= n - 1,
                part_size > 0,
        ;
    }
}

/// The spans of a range that is not empty are consecutive parts, each with a piece that is not
/// empty and lies inside the part; a piece begins at the beginning of its part unless it is the
/// first, and ends with its part unless it is the last. They begin where the range begins and
/// end where it ends.
pub proof fn lemma_spans_of_range(start: int, end: int, part_size: int, i: int)
    requires
        part_size > 0,
        0 <= start < end,
        0 <= i < part_spans(start, end, part_size).len(),
    ensures
        ({
            let spans = part_spans(start, end, part_size);
            let n = spans.len() as int;
            &&& spans[0].0 * part_size + spans[0].1 == start
            &&& spans[n - 1].0 * part_size + spans[n - 1].2 == end
            &&& spans[i].0 == spans[0].0 + i
            &&& 0 <= spans[i].1 < spans[i].2 <= part_size
            &&& i > 0 ==> spans[i].1 == 0
            &&& i < n - 1 ==> spans[i].2 == part_size
        }),
{
    lemma_parts_needed(start, part_size);
    lemma_parts_needed(end, part_size);
    let first = start / part_size;
    let after = parts_needed(end, part_size);
    assert((after - 1) * part_size == after * part_size - part_size) by (nonlinear_arith);
    assert((first + 1) * part_size == first * part_size + part_size) by (nonlinear_arith);
    if after == first + 1 && end % part_size != 0 {
        assert(end / part_size == first);
    }
}

/// A range that is not empty touches at least one part, and an empty one that begins on a part
/// touches none.
pub proof fn lemma_span_count(start: int, end: int, part_size: int)
    requires
        part_size > 0,
        0 <= start <= end,
    ensures
        start < end ==> part_spans(start, end, part_size).len() > 0,
        start == end && start % part_size == 0 ==> part_spans(start, end, part_size).len() == 0,
{
    lemma_parts_needed(start, part_size);
    lemma_parts_needed(end, part_size);
    let first = start / part_size;
    let after = parts_needed(end, part_size);
    if start < end {
        assert(after > first) by (nonlinear_arith)
            requires
                first * part_size <= start,
                end <= after * part_size,
                start < end,
                part_size > 0,
        ;
    }
}

/// Taking in a chunk loses no byte and changes none: the parts that go out, and then what is
/// held, are what was held and then the chunk. Every part that goes out is full, the numbers
/// run on, and less than a part is held.
pub proof fn lemma_push_keeps_bytes(
    before: PartSplitter,
    after: PartSplitter,
    chunk: Seq<u8>,
    out: Seq<(PartID, Bytes)>,
    i: int,
    k: int,
)
    requires
        before.part_size() > 0,
        has_pushed(before, after, chunk, out),
        0 <= i < out.len(),
        0 <= k < before.part_size(),
    ensures
        ({
            let size = before.part_size();
            let data = before.held() + chunk;
            &&& out[i].0 == before.next_part() + i
            &&& buffers::bytes_contents(out[i].1).len() == size
            &&& buffers::bytes_contents(out[i].1)[k] == data[i * size + k]
            &&& out.len() * size <= data.len()
        }),
{
    let size = before.part_size();
    let data = before.held() + chunk;
    let q = data.len() as int / size;
    lemma_parts_needed(data.len() as int, size);
    assert((i + 1) * size == i * size + size) by (nonlinear_arith);
    assert(0 <= i * size) by (nonlinear_arith)
        requires
            i >= 0,
            size > 0,
    ;
    assert((i + 1) * size <= q * size) by (nonlinear_arith)
        requires
            i + 1 <= q,
            size > 0,
    ;
    assert(buffers::bytes_contents(out[i].1) == whole_parts(data, size)[i]);
}

/// What a splitter holds after a chunk is the end of what it held and the chunk, less than a
/// part of it, and it has counted every byte.
pub proof fn lemma_push_holds_rest(
    before: PartSplitter,
    after: PartSplitter,
    chunk: Seq<u8>,
    out: Seq<(PartID, Bytes)>,
)
    requires
        before.part_size() > 0,
        has_pushed(before, after, chunk, out),
    ensures
        after.held().len() < before.part_size(),
        after.held().len() + out.len() * before.part_size() == before.held().len() + chunk.len(),
        (before.held() + chunk).skip(out.len() * before.part_size()) == after.held(),
        after.next_part() == before.next_part() + out.len(),
        after.total() == before.total() + chunk.len(),
{
    let data = before.held() + chunk;
    lemma_parts_needed(data.len() as int, before.part_size());
}

} // verus!
