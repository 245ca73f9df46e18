//! The mathematical model of chunking that the contracts speak of.

use crate::mincdc::{Cdc, Error};
use vstd::prelude::*;

verus! {

/// A chunk as a value: where it starts, and its bytes.
#[verifier::ext_equal]
pub struct ChunkView {
    pub offset: nat,
    pub bytes: Seq<u8>,
}

/// The rule by which data is cut: the size limits and the splitpoint choice.
pub struct Rule<C> {
    pub min: nat,
    pub max: nat,
    pub cdc: C,
}

impl<C> Rule<C> {
    /// Whether the size limits make sense.
    pub open spec fn valid(self) -> bool {
        self.min <= self.max && self.max > 0
    }
}

impl<C: Cdc> Rule<C> {
    /// The first position of the search range: one window before the smallest
    /// allowed boundary.
    pub open spec fn search_start(self) -> nat {
        if self.min >= self.cdc.window() {
            (self.min - self.cdc.window()) as nat
        } else {
            0
        }
    }

    /// The end of the search range in `n` available bytes.
    pub open spec fn search_end(self, n: nat) -> nat {
        if self.max < n {
            self.max
        } else {
            n
        }
    }

    /// The length of the chunk at the front of `avail`, or `None` if there is
    /// none, or none that can be decided before more data comes.
    ///
    /// Data short enough to be a final chunk is one. Else the boundary is the
    /// best splitpoint of the search range.
    pub open spec fn chunk_len(self, avail: Seq<u8>, eof: bool) -> Option<nat> {
        if avail.len() == 0 || (!eof && avail.len() <= self.max) {
            None
        } else if avail.len() <= self.min {
            Some(avail.len())
        } else {
            Some(
                self.search_start() + self.cdc.split(
                    avail.subrange(
                        self.search_start() as int,
                        self.search_end(avail.len()) as int,
                    ),
                ),
            )
        }
    }

    /// The chunks that `avail` is cut into, as far as they can be decided, where
    /// `avail` starts at offset `base` of the whole data. With `eof` these are
    /// all chunks.
    #[verifier::opaque]
    pub open spec fn chunks(self, avail: Seq<u8>, base: nat, eof: bool) -> Seq<ChunkView>
        decreases avail.len(),
    {
        match self.chunk_len(avail, eof) {
            Some(len) => if 0 < len <= avail.len() {
                seq![ChunkView { offset: base, bytes: avail.take(len as int) }] + self.chunks(
                    avail.skip(len as int),
                    base + len,
                    eof,
                )
            } else {
                Seq::empty()
            },
            None => Seq::empty(),
        }
    }

    /// A chunk is not empty, does not exceed the data or the maximum size, and
    /// respects the minimum size unless it is all the data there is.
    pub proof fn lemma_chunk_len_bounds(self, avail: Seq<u8>, eof: bool)
        requires
            self.valid(),
        ensures
            self.chunk_len(avail, eof) matches Some(len) ==> {
                &&& 0 < len <= avail.len()
                &&& len <= self.max
                &&& (len < self.min ==> len == avail.len())
            },
            avail.len() > 0 && (eof || avail.len() > self.max) ==> self.chunk_len(
                avail,
                eof,
            ) is Some,
    {
        let search = avail.subrange(
            self.search_start() as int,
            self.search_end(avail.len()) as int,
        );
        self.cdc.contract(search);
    }
}

/// A segment as a value: `count` chunks in a row, from `offset` on, each of
/// them `unit`.
#[verifier::ext_equal]
pub struct SegmentView {
    pub offset: nat,
    pub unit: Seq<u8>,
    pub count: nat,
}

/// `unit`, `count` times in a row.
pub open spec fn repeat(unit: Seq<u8>, count: nat) -> Seq<u8>
    decreases count,
{
    if count == 0 {
        Seq::empty()
    } else {
        repeat(unit, (count - 1) as nat) + unit
    }
}

/// Repeating takes as many bytes as it says.
pub proof fn lemma_repeat_len(unit: Seq<u8>, count: nat)
    ensures
        repeat(unit, count).len() == unit.len() * count,
    decreases count,
{
    if count > 0 {
        lemma_repeat_len(unit, (count - 1) as nat);
    }
    assert(count > 0 ==> unit.len() * count == unit.len() * (count - 1) + unit.len())
        by (nonlinear_arith);
    assert(unit.len() * 0 == 0) by (nonlinear_arith);
}

impl SegmentView {
    /// The number of bytes that the segment covers.
    pub open spec fn len(self) -> nat {
        self.unit.len() * self.count
    }

    /// The bytes that the segment covers.
    pub open spec fn bytes(self) -> Seq<u8> {
        repeat(self.unit, self.count)
    }
}

/// How many chunks in a row, from the first one on, hold just `unit`.
pub open spec fn run_len(chunks: Seq<ChunkView>, unit: Seq<u8>) -> nat
    decreases chunks.len(),
{
    if chunks.len() > 0 && chunks[0].bytes == unit {
        1 + run_len(chunks.skip(1), unit)
    } else {
        0
    }
}

/// The segment that the first chunk starts: the longest run of chunks
/// identical to it.
pub open spec fn first_segment(chunks: Seq<ChunkView>) -> SegmentView {
    SegmentView {
        offset: chunks[0].offset,
        unit: chunks[0].bytes,
        count: run_len(chunks, chunks[0].bytes),
    }
}

/// The chunks, with every maximal run of identical neighbors put into one
/// segment.
pub open spec fn coalesce(chunks: Seq<ChunkView>) -> Seq<SegmentView>
    decreases chunks.len(),
{
    if chunks.len() == 0 {
        Seq::empty()
    } else {
        proof {
            lemma_run_len_bounds(chunks, chunks[0].bytes);
        }
        seq![first_segment(chunks)] + coalesce(chunks.skip(first_segment(chunks).count as int))
    }
}

/// A run does not exceed the chunks, and is not empty if the first chunk is
/// `unit`.
pub proof fn lemma_run_len_bounds(chunks: Seq<ChunkView>, unit: Seq<u8>)
    ensures
        run_len(chunks, unit) <= chunks.len(),
        chunks.len() > 0 && chunks[0].bytes == unit ==> run_len(chunks, unit) > 0,
    decreases chunks.len(),
{
    if chunks.len() > 0 && chunks[0].bytes == unit {
        lemma_run_len_bounds(chunks.skip(1), unit);
    }
}

/// The bytes of the chunks, one after the other.
pub open spec fn chunk_bytes(chunks: Seq<ChunkView>) -> Seq<u8>
    decreases chunks.len(),
{
    if chunks.len() == 0 {
        Seq::empty()
    } else {
        chunks[0].bytes + chunk_bytes(chunks.skip(1))
    }
}

/// Whether the first chunk starts at `base` and every other one where the one
/// before it ends.
pub open spec fn contiguous(chunks: Seq<ChunkView>, base: nat) -> bool
    decreases chunks.len(),
{
    chunks.len() > 0 ==> {
        &&& chunks[0].offset == base
        &&& contiguous(chunks.skip(1), base + chunks[0].bytes.len())
    }
}

/// The chunks that a segment stands for.
pub open spec fn expand(segment: SegmentView) -> Seq<ChunkView> {
    Seq::new(
        segment.count,
        |i: int|
            ChunkView {
                offset: (segment.offset + segment.unit.len() * i) as nat,
                bytes: segment.unit,
            },
    )
}

/// The chunks that the segments stand for, one after the other.
pub open spec fn expand_all(segments: Seq<SegmentView>) -> Seq<ChunkView>
    decreases segments.len(),
{
    if segments.len() == 0 {
        Seq::empty()
    } else {
        expand(segments[0]) + expand_all(segments.skip(1))
    }
}

/// The bytes that the segments cover, one after the other.
pub open spec fn segment_bytes(segments: Seq<SegmentView>) -> Seq<u8>
    decreases segments.len(),
{
    if segments.len() == 0 {
        Seq::empty()
    } else {
        segments[0].bytes() + segment_bytes(segments.skip(1))
    }
}

/// The first position from `i` on at which `data` does not repeat what stands
/// `period` bytes before, or its end.
pub open spec fn period_end(data: Seq<u8>, period: nat, i: nat) -> nat
    decreases data.len() - i,
{
    if i < data.len() && data[i as int] == data[i - period] {
        period_end(data, period, i + 1)
    } else {
        i
    }
}

/// The end of the periodic part, by its properties.
pub proof fn lemma_period_end(data: Seq<u8>, period: nat, i: nat, end: nat)
    requires
        0 < period <= i <= end <= data.len(),
        forall|j: int| i <= j < end ==> data[j] == #[trigger] data[j - period],
        end < data.len() ==> data[end as int] != data[end - period],
    ensures
        period_end(data, period, i) == end,
    decreases end - i,
{
    if i < end {
        assert(data[i as int] == data[i - period]);
        lemma_period_end(data, period, i + 1, end);
    }
}

/// How many chunks of length `unit_len` are bound to follow a first one at the
/// start of `tail`: as many as have their whole decision window within the
/// periodic part, one byte before the end at the latest.
pub open spec fn sure_repeats(tail: Seq<u8>, unit_len: nat, max: nat) -> nat {
    if unit_len == 0 || unit_len >= tail.len() {
        0
    } else {
        let end = period_end(tail, unit_len, unit_len);
        let limit = if end < tail.len() {
            end
        } else {
            (tail.len() - 1) as nat
        };
        if limit < max {
            0
        } else {
            ((limit - max) / unit_len as int) as nat
        }
    }
}

/// What a streaming chunker goes by: the bytes that were read but not yet
/// handed out, the stream offset at which they start, whether the end of input
/// was met, and whether the stream is exhausted.
#[verifier::ext_equal]
pub struct StreamState {
    pub pending: Seq<u8>,
    pub offset: nat,
    pub ended: bool,
    pub done: bool,
}

/// What a streaming chunker comes to.
pub enum ReadOutcome {
    /// More has to be read first.
    NeedInput,
    /// The next chunk.
    Chunk(ChunkView),
    /// The stream is exhausted.
    End,
    /// The chunker cannot go on.
    Failed(Error),
}

/// What a streaming chunker that coalesces comes to.
pub enum SegmentOutcome {
    /// More has to be read first.
    NeedInput,
    /// The next segment.
    Segment(SegmentView),
    /// The stream is exhausted.
    End,
    /// The chunker cannot go on.
    Failed(Error),
}

impl StreamState {
    /// The state before anything was read.
    pub open spec fn initial() -> StreamState {
        StreamState { pending: Seq::empty(), offset: 0, ended: false, done: false }
    }

    /// Whether more has to be read before a boundary can be placed.
    pub open spec fn wants_input<C>(self, rule: Rule<C>) -> bool {
        !self.done && !self.ended && self.pending.len() <= rule.max
    }

    /// The state after `bytes` were read. No bytes mean the end of input.
    pub open spec fn fed(self, bytes: Seq<u8>) -> StreamState {
        if bytes.len() == 0 {
            StreamState { ended: true, ..self }
        } else {
            StreamState { pending: self.pending + bytes, ..self }
        }
    }

    /// The next step of a plain streaming chunker: hand out the chunk at the
    /// front of what is pending, which is all there is if it does not fill a
    /// decision window. The end of input is remembered.
    pub open spec fn read_next<C: Cdc>(self, rule: Rule<C>) -> (StreamState, ReadOutcome) {
        if self.done {
            (self, ReadOutcome::End)
        } else if self.wants_input(rule) {
            (self, ReadOutcome::NeedInput)
        } else {
            match rule.chunk_len(self.pending, self.pending.len() <= rule.max) {
                None => (StreamState { done: true, ..self }, ReadOutcome::End),
                Some(len) => if self.offset + len > u64::MAX {
                    (self, ReadOutcome::Failed(Error::OffsetOverflow))
                } else {
                    (
                        StreamState {
                            pending: self.pending.skip(len as int),
                            offset: self.offset + len,
                            ..self
                        },
                        ReadOutcome::Chunk(
                            ChunkView {
                                offset: self.offset,
                                bytes: self.pending.take(len as int),
                            },
                        ),
                    )
                },
            }
        }
    }

    /// The next step of a streaming chunker that coalesces: hand out the first
    /// segment of the chunks that can be decided from what is pending. The end
    /// of input is remembered.
    pub open spec fn segment_next<C: Cdc>(self, rule: Rule<C>) -> (StreamState, SegmentOutcome) {
        if self.done {
            (self, SegmentOutcome::End)
        } else if self.wants_input(rule) {
            (self, SegmentOutcome::NeedInput)
        } else if self.pending.len() == 0 {
            (StreamState { done: true, ..self }, SegmentOutcome::End)
        } else {
            let segment = first_segment(rule.chunks(self.pending, self.offset, self.ended));
            if self.offset + segment.len() > u64::MAX {
                (self, SegmentOutcome::Failed(Error::OffsetOverflow))
            } else {
                (
                    StreamState {
                        pending: self.pending.skip(segment.len() as int),
                        offset: self.offset + segment.len(),
                        ..self
                    },
                    SegmentOutcome::Segment(segment),
                )
            }
        }
    }
}

/// The chunks that a plain streaming chunker hands out from state `st` on, where
/// the reads to come yield `reads`, in this order, and then no bytes any more.
pub open spec fn read_all<C: Cdc>(
    rule: Rule<C>,
    st: StreamState,
    reads: Seq<Seq<u8>>,
) -> Seq<ChunkView>
    decreases
            st.pending.len() + reads.flatten().len(),
            reads.len(),
            (if st.ended {
                0int
            } else {
                1int
            }),
{
    if st.wants_input(rule) {
        if reads.len() == 0 {
            read_all(rule, st.fed(Seq::empty()), reads)
        } else {
            read_all(rule, st.fed(reads[0]), reads.drop_first())
        }
    } else {
        let (next, outcome) = st.read_next(rule);
        match outcome {
            ReadOutcome::Chunk(chunk) => if next.pending.len() < st.pending.len() {
                seq![chunk] + read_all(rule, next, reads)
            } else {
                Seq::empty()
            },
            _ => Seq::empty(),
        }
    }
}

/// The segments that a streaming chunker that coalesces hands out; see
/// [`read_all`].
pub open spec fn segment_all<C: Cdc>(
    rule: Rule<C>,
    st: StreamState,
    reads: Seq<Seq<u8>>,
) -> Seq<SegmentView>
    decreases
            st.pending.len() + reads.flatten().len(),
            reads.len(),
            (if st.ended {
                0int
            } else {
                1int
            }),
{
    if st.wants_input(rule) {
        if reads.len() == 0 {
            segment_all(rule, st.fed(Seq::empty()), reads)
        } else {
            segment_all(rule, st.fed(reads[0]), reads.drop_first())
        }
    } else {
        let (next, outcome) = st.segment_next(rule);
        match outcome {
            SegmentOutcome::Segment(segment) => if next.pending.len() < st.pending.len() {
                seq![segment] + segment_all(rule, next, reads)
            } else {
                Seq::empty()
            },
            _ => Seq::empty(),
        }
    }
}

/// What a streaming chunker that keeps runs together goes by: the state of the
/// stream, and the run that was taken from it but not yet handed out, as more
/// of it may follow.
#[verifier::ext_equal]
pub struct RunState {
    pub stream: StreamState,
    pub held: Option<SegmentView>,
}

impl RunState {
    /// The state before anything was read.
    pub open spec fn initial() -> RunState {
        RunState { stream: StreamState::initial(), held: None }
    }

    /// The chunks of the run that is held.
    pub open spec fn held_chunks(self) -> Seq<ChunkView> {
        match self.held {
            Some(run) => expand(run),
            None => Seq::empty(),
        }
    }

    /// The state after `bytes` were read. No bytes mean the end of input.
    pub open spec fn fed(self, bytes: Seq<u8>) -> RunState {
        RunState { stream: self.stream.fed(bytes), ..self }
    }

    /// The next step: take segments from the stream into the run that is held,
    /// and hand that out as soon as a segment with another unit, or the end of
    /// the stream, shows that it is over.
    pub open spec fn run_next<C: Cdc>(self, rule: Rule<C>) -> (RunState, SegmentOutcome)
        decreases self.stream.pending.len(),
    {
        let (stream, outcome) = self.stream.segment_next(rule);
        match (outcome, self.held) {
            (SegmentOutcome::Segment(segment), Some(run)) if run.unit != segment.unit => (
                RunState { stream, held: Some(segment) },
                SegmentOutcome::Segment(run),
            ),
            (SegmentOutcome::Segment(segment), held) => {
                let run = match held {
                    Some(run) => SegmentView { count: run.count + segment.count, ..run },
                    None => segment,
                };
                let next = RunState { stream, held: Some(run) };
                if stream.pending.len() < self.stream.pending.len() {
                    next.run_next(rule)
                } else {
                    (next, SegmentOutcome::NeedInput)
                }
            },
            (SegmentOutcome::End, Some(run)) => (
                RunState { stream, held: None },
                SegmentOutcome::Segment(run),
            ),
            (other, held) => (RunState { stream, held }, other),
        }
    }
}

/// The segments that a streaming chunker that keeps runs together hands out; see
/// [`read_all`].
pub open spec fn run_all<C: Cdc>(rule: Rule<C>, st: RunState, reads: Seq<Seq<u8>>) -> Seq<
    SegmentView,
>
    decreases
            st.stream.pending.len() + reads.flatten().len(),
            reads.len(),
            (if st.stream.ended {
                0int
            } else {
                1int
            }),
            (if st.held is Some {
                1int
            } else {
                0int
            }),
{
    if st.stream.wants_input(rule) {
        if reads.len() == 0 {
            run_all(rule, st.fed(Seq::empty()), reads)
        } else {
            run_all(rule, st.fed(reads[0]), reads.drop_first())
        }
    } else {
        let (next, outcome) = st.run_next(rule);
        let consumed = next.stream.pending.len() < st.stream.pending.len();
        let emptied = next.stream.pending.len() == st.stream.pending.len() && next.stream.ended
            == st.stream.ended && st.held is Some && next.held is None;
        match outcome {
            SegmentOutcome::Segment(segment) => if consumed || emptied {
                seq![segment] + run_all(rule, next, reads)
            } else {
                Seq::empty()
            },
            SegmentOutcome::NeedInput => if consumed {
                run_all(rule, next, reads)
            } else {
                Seq::empty()
            },
            _ => Seq::empty(),
        }
    }
}

/// The value of an optional machine integer.
pub open spec fn as_nat(len: Option<usize>) -> Option<nat> {
    match len {
        Some(l) => Some(l as nat),
        None => None,
    }
}

} // verus!
