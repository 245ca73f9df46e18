//! The default chunkers: caterpillars over the robust hashed boundary selector.
//!
//! [`MothChunker`] coalesces the chunks of a slice, [`MothReadChunker`] those of
//! a reader. Both hand out the same segments for the same data: a segment is
//! either one ordinary chunk or a maximal run of identical adjacent chunks.

use crate::caterpillar::{
    same_bytes, segment_outcome, CaterpillarChunker, CaterpillarReadChunker, Segment, SegmentStep,
};
use crate::laws::lemma_segment_next;
use crate::mincdc::{
    buffer_size, valid_sizes, Cdc, Chunk, Error, MinCdcHash4, ReadAction, ReadEvent,
    DEFAULT_ADDEND, DEFAULT_MULTIPLIER,
};
use crate::model::{
    coalesce, first_segment, ChunkView, Rule, RunState, SegmentOutcome, SegmentView,
};
use std::collections::TryReserveError;
use vstd::prelude::*;

verus! {

/// The caterpillar chunker for a slice, with [`MinCdcHash4`] by default.
pub struct MothChunker<'a, C = MinCdcHash4> {
    inner: CaterpillarChunker<'a, C>,
}

impl<'a> MothChunker<'a, MinCdcHash4> {
    /// Creates a chunker with the default boundary selector.
    pub fn new(bytes: &'a [u8], min_size: usize, max_size: usize) -> (chunker: Self)
        requires
            valid_sizes(min_size, max_size),
        ensures
            chunker.wf(),
            chunker.rule() == (Rule {
                min: min_size as nat,
                max: max_size as nat,
                cdc: MinCdcHash4::of(DEFAULT_MULTIPLIER, DEFAULT_ADDEND),
            }),
            chunker.rule().cdc.params() == (DEFAULT_MULTIPLIER, DEFAULT_ADDEND),
            chunker.remaining() == chunker.rule().chunks(bytes@, 0, true),
    {
        Self::with_cdc(bytes, min_size, max_size, MinCdcHash4::new())
    }
}

impl<'a, C: Cdc> MothChunker<'a, C> {
    /// The rule by which the slice is cut.
    pub closed spec fn rule(&self) -> Rule<C> {
        self.inner.rule()
    }

    /// The chunks that are still to come.
    pub closed spec fn remaining(&self) -> Seq<ChunkView> {
        self.inner.remaining()
    }

    /// The caterpillar chunker is in order.
    pub closed spec fn wf(&self) -> bool {
        self.inner.wf()
    }

    /// Creates a chunker with the given boundary selector.
    pub fn with_cdc(bytes: &'a [u8], min_size: usize, max_size: usize, cdc: C) -> (chunker: Self)
        requires
            valid_sizes(min_size, max_size),
        ensures
            chunker.wf(),
            chunker.rule() == (Rule { min: min_size as nat, max: max_size as nat, cdc }),
            chunker.remaining() == chunker.rule().chunks(bytes@, 0, true),
    {
        MothChunker { inner: CaterpillarChunker::new(bytes, min_size, max_size, cdc) }
    }

    /// The next segment: the longest run of chunks that are identical to the
    /// next one. `None` at the end of the slice, and from then on.
    pub fn next(&mut self) -> (segment: Option<Segment<'a>>)
        requires
            old(self).wf(),
        ensures
            final(self).wf(),
            final(self).rule() == old(self).rule(),
            segment is Some <==> old(self).remaining().len() > 0,
            segment matches Some(s) ==> {
                &&& s.wf()
                &&& s@ == first_segment(old(self).remaining())
                &&& s@.offset == old(self).remaining()[0].offset
                &&& s@.unit == old(self).remaining()[0].bytes
                &&& 1 <= s@.count <= old(self).remaining().len()
                &&& forall|k: int|
                    0 <= k < s@.count ==> (#[trigger] old(self).remaining()[k]).bytes == s@.unit
                &&& s@.count < old(self).remaining().len() ==> old(
                    self,
                ).remaining()[s@.count as int].bytes != s@.unit
                &&& final(self).remaining() == old(self).remaining().skip(s@.count as int)
            },
            segment is None ==> final(self).remaining() == old(self).remaining(),
    {
        self.inner.next()
    }

    /// All segments that are still to come.
    pub fn collect(self) -> (segments: Vec<Segment<'a>>)
        requires
            self.wf(),
        ensures
            segments@.len() == coalesce(self.remaining()).len(),
            forall|i: int|
                0 <= i < segments@.len() ==> (#[trigger] segments@[i]).wf() && segments@[i]@
                    == coalesce(self.remaining())[i],
    {
        self.inner.collect()
    }
}

/// A run that a segment is added to ends where the segment ends, and has a count
/// that fits if its end does.
proof fn lemma_longer_run(run: SegmentView, segment: SegmentView)
    requires
        run.unit == segment.unit,
        run.unit.len() > 0,
        run.offset + run.len() == segment.offset,
    ensures
        ({
            let longer = SegmentView { count: run.count + segment.count, ..run };
            &&& longer.offset + longer.len() == segment.offset + segment.len()
            &&& longer.count <= longer.len()
        }),
{
    let u = run.unit.len();
    assert(u * (run.count + segment.count) == u * run.count + u * segment.count)
        by (nonlinear_arith);
    assert(run.count + segment.count <= u * (run.count + segment.count)) by (nonlinear_arith)
        requires
            u > 0,
    ;
}

/// What one segment of the stream, or the lack of one, comes to.
enum Pull {
    /// More has to be read first.
    NeedInput,
    /// The stream is exhausted and no run is held.
    End,
    /// The chunker cannot go on.
    Failed(Error),
    /// The segment was taken into the run that is held.
    Kept,
    /// The run that was held is over and was made the last one.
    Over,
}

/// The streaming caterpillar chunker, with [`MinCdcHash4`] by default.
///
/// Runs stay maximal however the reader fragments its data: a run that reaches
/// the end of what was read is held back until it is known to be over, and its
/// unit is copied meanwhile. Handed-out segments are valid only until the next
/// call.
///
/// The chunker holds the reader but leaves reading to its owner: as long as
/// [`ensure`](MothReadChunker::ensure) asks for input, read up to the given
/// number of bytes and report what came of it to
/// [`on_read`](MothReadChunker::on_read); then call
/// [`next`](MothReadChunker::next), and start over if that needs input.
pub struct MothReadChunker<R, C = MinCdcHash4> {
    inner: CaterpillarReadChunker<R, C>,
    /// The unit of the run that is held.
    unit: Vec<u8>,
    /// Where the run that is held starts.
    offset: u64,
    /// How many chunks the run that is held has; 0 if none is held.
    count: u64,
    /// The unit of the segment that was handed out last.
    last_unit: Vec<u8>,
    /// Where the segment that was handed out last starts.
    last_offset: u64,
    /// How many chunks the segment that was handed out last has; 0 if none was.
    last_count: u64,
}

impl<R, C> View for MothReadChunker<R, C> {
    type V = RunState;

    closed spec fn view(&self) -> RunState {
        RunState {
            stream: self.inner@,
            held: if self.count == 0 {
                None
            } else {
                Some(
                    SegmentView {
                        offset: self.offset as nat,
                        unit: self.unit@,
                        count: self.count as nat,
                    },
                )
            },
        }
    }
}

impl<R> MothReadChunker<R, MinCdcHash4> {
    /// Creates a chunker with the default boundary selector.
    ///
    /// Use [`try_new`](Self::try_new) to handle unacceptable sizes and a failing
    /// allocation as errors.
    pub fn new(reader: R, min_size: usize, max_size: usize) -> (chunker: Self)
        requires
            valid_sizes(min_size, max_size),
            buffer_size(min_size, max_size) <= isize::MAX,
        ensures
            chunker.wf(),
            chunker.rule() == (Rule {
                min: min_size as nat,
                max: max_size as nat,
                cdc: MinCdcHash4::of(DEFAULT_MULTIPLIER, DEFAULT_ADDEND),
            }),
            chunker.rule().cdc.params() == (DEFAULT_MULTIPLIER, DEFAULT_ADDEND),
            chunker.reader() == reader,
            chunker@ == RunState::initial(),
            chunker@.stream.pending.len() == 0 && chunker@.stream.offset == 0,
            !chunker@.stream.ended && !chunker@.stream.done && chunker@.held is None,
            chunker.handed_out() is None,
            chunker.room() == buffer_size(min_size, max_size),
            chunker.capacity() == buffer_size(min_size, max_size),
    {
        Self::with_cdc(reader, min_size, max_size, MinCdcHash4::new())
    }

    /// Tries to create a chunker with the default boundary selector, without
    /// arithmetic or allocation panics. Whether the buffer can be allocated is
    /// up to the allocator.
    pub fn try_new(reader: R, min_size: usize, max_size: usize) -> (chunker: Result<Self, Error>)
        ensures
            !valid_sizes(min_size, max_size) <==> chunker == Err::<Self, Error>(
                Error::InvalidSizes,
            ),
            (valid_sizes(min_size, max_size) && buffer_size(min_size, max_size) > usize::MAX)
                <==> chunker == Err::<Self, Error>(Error::SizeOverflow),
            (valid_sizes(min_size, max_size) && isize::MAX < buffer_size(min_size, max_size)
                <= usize::MAX) ==> chunker == Err::<Self, Error>(Error::OutOfMemory),
            (min_size > max_size || max_size == 0 || max_size > 0xffff_fffe) <==> chunker == Err::<
                Self,
                Error,
            >(Error::InvalidSizes),
            (min_size <= max_size && 0 < max_size <= 0xffff_fffe && 0x40_0000 + (max_size + 1) + 4
                * min_size > usize::MAX) <==> chunker == Err::<Self, Error>(Error::SizeOverflow),
            (min_size <= max_size && 0 < max_size <= 0xffff_fffe && 0x40_0000 + (max_size + 1) + 4
                * min_size <= isize::MAX) ==> exists|
                bytes: &mut Vec<u8>,
                reserved: Result<(), TryReserveError>,
            | #[trigger]
                call_ensures(
                    Vec::<u8>::try_reserve,
                    (bytes, (0x40_0000 + (max_size + 1) + 4 * min_size) as usize),
                    reserved,
                ) && bytes@.len() == 0 && (chunker is Ok <==> reserved is Ok) && (chunker == Err::<
                    Self,
                    Error,
                >(Error::OutOfMemory) <==> reserved is Err),
            chunker matches Err(e) ==> e != Error::OffsetOverflow,
            chunker matches Ok(c) ==> {
                &&& c.wf()
                &&& c.rule() == (Rule {
                    min: min_size as nat,
                    max: max_size as nat,
                    cdc: MinCdcHash4::of(DEFAULT_MULTIPLIER, DEFAULT_ADDEND),
                })
                &&& c.rule().cdc.params() == (DEFAULT_MULTIPLIER, DEFAULT_ADDEND)
                &&& c.reader() == reader
                &&& c@ == RunState::initial()
                &&& c@.stream.pending.len() == 0 && c@.stream.offset == 0
                &&& !c@.stream.ended && !c@.stream.done && c@.held is None
                &&& c.handed_out() is None
                &&& c.room() == buffer_size(min_size, max_size)
                &&& c.capacity() == buffer_size(min_size, max_size)
            },
    {
        Self::try_with_cdc(reader, min_size, max_size, MinCdcHash4::new())
    }
}

impl<R, C: Cdc> MothReadChunker<R, C> {
    /// The rule by which the stream is cut.
    pub closed spec fn rule(&self) -> Rule<C> {
        self.inner.rule()
    }

    /// The underlying reader.
    pub closed spec fn reader(&self) -> R {
        self.inner.reader()
    }

    /// The size of the buffer.
    pub closed spec fn capacity(&self) -> nat {
        self.inner.capacity()
    }

    /// How many bytes the buffer can take up.
    pub closed spec fn room(&self) -> nat {
        self.inner.room()
    }

    /// The segment that was handed out last, if one was.
    pub closed spec fn handed_out(&self) -> Option<SegmentView> {
        if self.last_count == 0 {
            None
        } else {
            Some(
                SegmentView {
                    offset: self.last_offset as nat,
                    unit: self.last_unit@,
                    count: self.last_count as nat,
                },
            )
        }
    }

    /// The size limits make sense and the streaming caterpillar is in order. A
    /// run that is held is not empty and ends where the stream goes on, and the
    /// segment that was handed out last is not empty and ends within range.
    pub closed spec fn wf(&self) -> bool {
        &&& self.rule().valid()
        &&& self.inner.wf()
        &&& self@.held matches Some(run) ==> {
            &&& run.unit.len() > 0
            &&& run.offset + run.len() == self@.stream.offset
            &&& run.offset + run.len() <= u64::MAX
        }
        &&& self.handed_out() matches Some(segment) ==> {
            &&& segment.unit.len() > 0
            &&& segment.offset + segment.len() <= u64::MAX
        }
    }

    /// The buffer holds more than a decision window, and what is pending and
    /// what it can take up fit in it together.
    pub proof fn lemma_capacity(&self)
        requires
            self.wf(),
        ensures
            self.rule().max < self.capacity(),
            self.room() + self@.stream.pending.len() <= self.capacity(),
    {
        self.inner.lemma_capacity();
    }

    /// A chunker whose stream is exhausted has nothing pending there.
    pub proof fn lemma_exhausted(&self)
        requires
            self.wf(),
        ensures
            self@.stream.done ==> self@.stream.pending.len() == 0,
    {
        self.inner.lemma_exhausted();
    }

    /// Creates a chunker with the given boundary selector.
    ///
    /// Use [`try_with_cdc`](Self::try_with_cdc) to handle unacceptable sizes and
    /// a failing allocation as errors.
    pub fn with_cdc(reader: R, min_size: usize, max_size: usize, cdc: C) -> (chunker: Self)
        requires
            valid_sizes(min_size, max_size),
            buffer_size(min_size, max_size) <= isize::MAX,
        ensures
            chunker.wf(),
            chunker.rule() == (Rule { min: min_size as nat, max: max_size as nat, cdc }),
            chunker.reader() == reader,
            chunker@ == RunState::initial(),
            chunker@.stream.pending.len() == 0 && chunker@.stream.offset == 0,
            !chunker@.stream.ended && !chunker@.stream.done && chunker@.held is None,
            chunker.handed_out() is None,
            chunker.room() == buffer_size(min_size, max_size),
            chunker.capacity() == buffer_size(min_size, max_size),
    {
        MothReadChunker {
            inner: CaterpillarReadChunker::new(reader, min_size, max_size, cdc),
            unit: Vec::new(),
            offset: 0,
            count: 0,
            last_unit: Vec::new(),
            last_offset: 0,
            last_count: 0,
        }
    }

    /// Tries to create a chunker with the given boundary selector, without
    /// arithmetic or allocation panics. Whether the buffer can be allocated is
    /// up to the allocator.
    pub fn try_with_cdc(reader: R, min_size: usize, max_size: usize, cdc: C) -> (chunker: Result<
        Self,
        Error,
    >)
        ensures
            !valid_sizes(min_size, max_size) <==> chunker == Err::<Self, Error>(
                Error::InvalidSizes,
            ),
            (valid_sizes(min_size, max_size) && buffer_size(min_size, max_size) > usize::MAX)
                <==> chunker == Err::<Self, Error>(Error::SizeOverflow),
            (valid_sizes(min_size, max_size) && isize::MAX < buffer_size(min_size, max_size)
                <= usize::MAX) ==> chunker == Err::<Self, Error>(Error::OutOfMemory),
            (min_size > max_size || max_size == 0 || max_size > 0xffff_fffe) <==> chunker == Err::<
                Self,
                Error,
            >(Error::InvalidSizes),
            (min_size <= max_size && 0 < max_size <= 0xffff_fffe && 0x40_0000 + (max_size + 1) + 4
                * min_size > usize::MAX) <==> chunker == Err::<Self, Error>(Error::SizeOverflow),
            (min_size <= max_size && 0 < max_size <= 0xffff_fffe && 0x40_0000 + (max_size + 1) + 4
                * min_size <= isize::MAX) ==> exists|
                bytes: &mut Vec<u8>,
                reserved: Result<(), TryReserveError>,
            | #[trigger]
                call_ensures(
                    Vec::<u8>::try_reserve,
                    (bytes, (0x40_0000 + (max_size + 1) + 4 * min_size) as usize),
                    reserved,
                ) && bytes@.len() == 0 && (chunker is Ok <==> reserved is Ok) && (chunker == Err::<
                    Self,
                    Error,
                >(Error::OutOfMemory) <==> reserved is Err),
            chunker matches Err(e) ==> e != Error::OffsetOverflow,
            chunker matches Ok(c) ==> {
                &&& c.wf()
                &&& c.rule() == (Rule { min: min_size as nat, max: max_size as nat, cdc })
                &&& c.reader() == reader
                &&& c@ == RunState::initial()
                &&& c@.stream.pending.len() == 0 && c@.stream.offset == 0
                &&& !c@.stream.ended && !c@.stream.done && c@.held is None
                &&& c.handed_out() is None
                &&& c.room() == buffer_size(min_size, max_size)
                &&& c.capacity() == buffer_size(min_size, max_size)
            },
    {
        match CaterpillarReadChunker::try_new(reader, min_size, max_size, cdc) {
            Ok(inner) => Ok(
                MothReadChunker {
                    inner,
                    unit: Vec::new(),
                    offset: 0,
                    count: 0,
                    last_unit: Vec::new(),
                    last_offset: 0,
                    last_count: 0,
                },
            ),
            Err(e) => Err(e),
        }
    }

    /// Returns a shared reference to the underlying reader.
    pub fn get_ref(&self) -> (reader: &R)
        ensures
            *reader == self.reader(),
    {
        self.inner.get_ref()
    }

    /// Returns a mutable reference to the underlying reader.
    ///
    /// Reading from it without reporting what was read can invalidate chunker
    /// state.
    pub fn get_mut(&mut self) -> (reader: &mut R)
        ensures
            *reader == old(self).reader(),
            final(self).reader() == *final(reader),
            old(self).wf() ==> final(self).wf(),
            final(self)@ == old(self)@,
            final(self).handed_out() == old(self).handed_out(),
            final(self).rule() == old(self).rule(),
            final(self).room() == old(self).room(),
            final(self).capacity() == old(self).capacity(),
    {
        self.inner.get_mut()
    }

    /// Returns the underlying reader, discarding any bytes already read ahead.
    pub fn into_inner(self) -> (reader: R)
        ensures
            reader == self.reader(),
    {
        self.inner.into_inner()
    }

    /// Whether the stream needs more input, and how many bytes there is room for
    /// then; makes that room.
    pub fn ensure(&mut self) -> (room: Option<usize>)
        requires
            old(self).wf(),
        ensures
            final(self).wf(),
            final(self)@ == old(self)@,
            final(self).handed_out() == old(self).handed_out(),
            final(self).rule() == old(self).rule(),
            final(self).reader() == old(self).reader(),
            final(self).capacity() == old(self).capacity(),
            final(self).room() == (if old(self)@.stream.wants_input(old(self).rule()) && old(
                self,
            ).room() + old(self)@.stream.pending.len() <= old(self).rule().max {
                old(self).capacity() - old(self)@.stream.pending.len()
            } else {
                old(self).room() as int
            }),
            final(self).room() >= old(self).room(),
            room is Some <==> old(self)@.stream.wants_input(old(self).rule()),
            room is Some <==> !old(self)@.stream.done && !old(self)@.stream.ended && old(
                self,
            )@.stream.pending.len() <= old(self).rule().max,
            room matches Some(n) ==> {
                &&& n > 0
                &&& n == final(self).room()
                &&& n + final(self)@.stream.pending.len() > final(self).rule().max
            },
    {
        self.inner.ensure()
    }

    /// Takes up what came of an attempt to read; see
    /// [`CaterpillarReadChunker::on_read`].
    pub fn on_read(&mut self, event: ReadEvent<'_>) -> (action: ReadAction)
        requires
            old(self).wf(),
            old(self)@.stream.wants_input(old(self).rule()),
            event matches ReadEvent::Data(bytes) ==> bytes@.len() <= old(self).room(),
        ensures
            final(self).wf(),
            final(self).rule() == old(self).rule(),
            final(self).reader() == old(self).reader(),
            final(self).handed_out() == old(self).handed_out(),
            match event {
                ReadEvent::Data(bytes) => final(self)@ == old(self)@.fed(bytes@) && action
                    == ReadAction::Proceed,
                ReadEvent::Interrupted => final(self)@ == old(self)@ && action
                    == ReadAction::Retry,
                ReadEvent::Failed => final(self)@ == old(self)@ && action == ReadAction::Report,
            },
            final(self)@.held == old(self)@.held,
            final(self)@.stream.offset == old(self)@.stream.offset,
            final(self)@.stream.done == old(self)@.stream.done,
            event matches ReadEvent::Data(bytes) ==> {
                &&& final(self)@.stream.pending == old(self)@.stream.pending + bytes@
                &&& final(self)@.stream.ended == (old(self)@.stream.ended || bytes@.len() == 0)
            },
            event !is Data ==> final(self)@ == old(self)@,
            final(self).capacity() == old(self).capacity(),
            final(self).room() == (match event {
                ReadEvent::Data(bytes) => (old(self).room() - bytes@.len()) as nat,
                _ => old(self).room(),
            }),
    {
        self.inner.on_read(event)
    }

    /// Takes one segment from the stream.
    fn pull(&mut self) -> (pull: Pull)
        requires
            old(self).wf(),
        ensures
            final(self).wf(),
            final(self).rule() == old(self).rule(),
            final(self).reader() == old(self).reader(),
            final(self).room() == old(self).room(),
            final(self).capacity() == old(self).capacity(),
            old(self)@.run_next(old(self).rule()) == (match pull {
                Pull::NeedInput => (final(self)@, SegmentOutcome::NeedInput),
                Pull::End => (final(self)@, SegmentOutcome::End),
                Pull::Failed(e) => (final(self)@, SegmentOutcome::Failed(e)),
                Pull::Kept => final(self)@.run_next(old(self).rule()),
                Pull::Over => (
                    final(self)@,
                    SegmentOutcome::Segment(final(self).handed_out()->0),
                ),
            }),
            pull is Kept ==> final(self)@.stream.pending.len() < old(
                self,
            )@.stream.pending.len(),
            pull is Over ==> final(self).handed_out() is Some,
            pull !is Over ==> final(self).handed_out() == old(self).handed_out(),
    {
        let ghost st = self@;
        proof {
            lemma_segment_next(self.rule(), st.stream);
        }
        match self.inner.next() {
            Err(e) => Pull::Failed(e),
            Ok(SegmentStep::NeedInput) => Pull::NeedInput,
            Ok(SegmentStep::End) => {
                if self.count == 0 {
                    return Pull::End;
                }
                std::mem::swap(&mut self.unit, &mut self.last_unit);
                self.last_offset = self.offset;
                self.last_count = self.count;
                self.count = 0;
                Pull::Over
            },
            Ok(SegmentStep::Segment(segment)) => {
                let unit: &[u8] = segment.dedup_key();
                if self.count > 0 && same_bytes(unit, self.unit.as_slice()) {
                    proof {
                        lemma_longer_run(st.held->0, segment@);
                    }
                    self.count = self.count + segment.chunk_count();
                    return Pull::Kept;
                }
                let over: bool = self.count > 0;
                if over {
                    std::mem::swap(&mut self.unit, &mut self.last_unit);
                    self.last_offset = self.offset;
                    self.last_count = self.count;
                }
                self.unit.clear();
                self.unit.extend_from_slice(unit);
                self.offset = segment.offset();
                self.count = segment.chunk_count();
                proof {
                    assert(self.unit@ == segment@.unit);
                }
                if over {
                    Pull::Over
                } else {
                    Pull::Kept
                }
            },
        }
    }

    /// Gets the next [`Segment`] (borrowed, valid until the next call) from what
    /// was read, or tells that the reader is exhausted or that more has to be
    /// read first.
    pub fn next(&mut self) -> (step: Result<SegmentStep<'_>, Error>)
        requires
            old(self).wf(),
        ensures
            final(self).wf(),
            final(self).rule() == old(self).rule(),
            final(self).reader() == old(self).reader(),
            final(self).room() == old(self).room(),
            final(self).capacity() == old(self).capacity(),
            (final(self)@, segment_outcome(step)) == old(self)@.run_next(old(self).rule()),
            match step {
                Ok(SegmentStep::Segment(s)) => s.wf() && final(self).handed_out() == Some(s@),
                _ => final(self).handed_out() == old(self).handed_out(),
            },
    {
        let ghost rule = self.rule();
        loop
            invariant
                self.wf(),
                rule == old(self).rule(),
                self.rule() == rule,
                self.reader() == old(self).reader(),
                self.room() == old(self).room(),
                self.capacity() == old(self).capacity(),
                self.handed_out() == old(self).handed_out(),
                self@.run_next(rule) == old(self)@.run_next(rule),
            decreases self@.stream.pending.len(),
        {
            match self.pull() {
                Pull::NeedInput => {
                    return Ok(SegmentStep::NeedInput);
                },
                Pull::End => {
                    return Ok(SegmentStep::End);
                },
                Pull::Failed(e) => {
                    return Err(e);
                },
                Pull::Kept => {},
                Pull::Over => {
                    return Ok(SegmentStep::Segment(self.last_segment()));
                },
            }
        }
    }

    /// The segment that was handed out last.
    fn last_segment(&self) -> (segment: Segment<'_>)
        requires
            self.wf(),
            self.handed_out() is Some,
        ensures
            segment.wf(),
            Some(segment@) == self.handed_out(),
    {
        let unit: &[u8] = self.last_unit.as_slice();
        if self.last_count >= 2 {
            Segment::Caterpillar { offset: self.last_offset, unit, count: self.last_count }
        } else {
            Segment::Solo(Chunk::new(unit, self.last_offset))
        }
    }

    /// The segment that [`next`](MothReadChunker::next) handed out last, if it
    /// did hand one out.
    pub fn last(&self) -> (segment: Option<Segment<'_>>)
        requires
            self.wf(),
        ensures
            segment is Some <==> self.handed_out() is Some,
            segment matches Some(s) ==> s.wf() && self.handed_out() == Some(s@),
    {
        if self.last_count == 0 {
            None
        } else {
            Some(self.last_segment())
        }
    }
}

} // verus!
