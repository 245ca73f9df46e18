//! Caterpillar coalescing: a metadata-efficiency layer over the chunkers.
//!
//! Periodic / low-entropy regions make any content-defined chunker emit a flood
//! of tiny, near-`min_size` chunks. Each chunk is a separate metadata record, so
//! a long zero-fill or repeated-record region costs metadata out of all
//! proportion to its information content.
//!
//! [`CaterpillarChunker`] wraps a [`SliceChunker`] and run-length-encodes maximal
//! runs of byte-identical adjacent chunks into a single [`Segment::Caterpillar`]
//! record (the unit and a repeat count). On data with no runs it changes
//! nothing. The output is lossless; see [`crate::laws`].
//!
//! Inside a run the caterpillar does not pay for chunking at all: a packed scan
//! proves the region periodic once, and every chunk whose boundary decision
//! provably repeats is emitted without another boundary search.
//!
//! For inputs larger than memory, [`CaterpillarReadChunker`] does the same
//! coalescing over a stream in bounded memory; its segments borrow its buffer. It
//! emits a run that does not fit the buffer as several segments;
//! [`MothReadChunker`] keeps such runs together.

pub use crate::moth::{MothChunker, MothReadChunker};

use crate::buffer::Buffer;
use crate::mincdc::{
    buffer_size, checked_buffer_size, next_chunk_len, valid_sizes, Cdc, Chunk, Error, ReadAction,
    ReadEvent, SliceChunker, MAX_CHUNK_SIZE, MIN_BUFFER_SIZE,
};
use crate::laws::{
    law_unit_tiles_segment, lemma_chunks_len, lemma_chunks_step, lemma_run, lemma_skip_repeats,
};
use crate::meaning::{
    behind_units, law_first_segment, law_first_segment_of_data, law_sure_repeats,
};
use crate::model::{
    as_nat, coalesce, first_segment, lemma_period_end, lemma_repeat_len, lemma_run_len_bounds,
    repeat, run_len, sure_repeats, ChunkView, Rule, SegmentOutcome, SegmentView, StreamState,
};
use crate::simd;
use std::collections::TryReserveError;
use vstd::prelude::*;

verus! {

/// Packed scanning: the fast-forward that lets the caterpillar skip the boundary
/// search inside repetitive runs.
///
/// Given that a chunk of length `u` starts at the beginning of `tail`
/// (`tail[..u]` is that chunk, and `tail` extends to the end of decidable
/// data), returns how many *additional* chunks, each exactly `u` bytes and
/// byte-identical to the first, are guaranteed to follow, without a boundary
/// search for any of them.
///
/// The length of a chunk depends only on its decision window, provided that at
/// least one more byte follows. One equality scan finds how far the data is
/// periodic with period `u`. Within that extent every decision window is
/// byte-identical to the one a period earlier, so the search must return `u`
/// again; [`crate::laws::law_packed_repeats_are_chunks`] is the proof.
pub fn packed_repeats(tail: &[u8], u: usize, max_size: usize) -> (repeats: usize)
    ensures
        repeats == sure_repeats(tail@, u as nat, max_size as nat),
        u == 0 || u >= tail@.len() ==> repeats == 0,
        repeats > 0 ==> {
            &&& repeats * u + max_size < tail@.len()
            &&& forall|j: int|
                u <= j < repeats * u + max_size ==> tail@[j] == #[trigger] tail@[j - u]
        },
        !(u > 0 && (repeats + 1) * u + max_size < tail@.len() && forall|j: int|
            u <= j < (repeats + 1) * u + max_size ==> tail@[j] == #[trigger] tail@[j - u]),
{
    proof {
        let sure = sure_repeats(tail@, u as nat, max_size as nat);
        law_sure_repeats(tail@, u as nat, max_size as nat, sure + 1);
        if sure > 0 {
            law_sure_repeats(tail@, u as nat, max_size as nat, sure);
        }
    }
    let n: usize = tail.len();
    if u == 0 || u >= n {
        return 0;
    }
    let unit: &[u8] = &tail[0..u];
    let behind: &[u8] = &tail[u..n];
    // Extent of the periodic region. A constant-byte unit (zero-fill, padding)
    // uses the broadcast form. Anything else compares the stream against itself
    // shifted back by one period. The `unit[u - 1] == unit[0]` pre-check makes
    // the constant-unit detection O(1) on data without runs.
    let end: usize = if unit[u - 1] == unit[0] && simd::byte_run_len(unit, unit[0]) == u {
        let run: usize = simd::byte_run_len(behind, unit[0]);
        proof {
            let b = unit@[0];
            assert forall|j: int| 0 <= j < u implies tail@[j] == b by {
                assert(unit@[j] == b);
            }
            assert forall|j: int| u <= j < u + run implies tail@[j] == b by {
                assert(behind@[j - u] == b);
            }
            if u + run < n {
                assert(behind@[run as int] != b);
            }
            lemma_period_end(tail@, u as nat, u as nat, (u + run) as nat);
        }
        u + run
    } else {
        let shifted: &[u8] = &tail[0..n - u];
        let same: usize = simd::common_prefix_len(behind, shifted);
        proof {
            assert forall|j: int| u <= j < u + same implies tail@[j] == #[trigger] tail@[j - u] by {
                assert(behind@[j - u] == shifted@[j - u]);
            }
            if u + same < n {
                assert(behind@[same as int] != shifted@[same as int]);
            }
            lemma_period_end(tail@, u as nat, u as nat, (u + same) as nat);
        }
        u + same
    };
    // A chunk needing bytes past `n - 1` could be a final one, whose length
    // depends on more than the window bytes; leave it to the search.
    let limit: usize = if end < n - 1 {
        end
    } else {
        n - 1
    };
    limit.saturating_sub(max_size) / u
}

/// Whether two slices hold the same bytes.
pub(crate) fn same_bytes(a: &[u8], b: &[u8]) -> (same: bool)
    ensures
        same <==> a@ == b@,
{
    if a.len() != b.len() {
        return false;
    }
    let prefix: usize = simd::common_prefix_len(a, b);
    proof {
        if prefix == a@.len() {
            assert(a@ =~= b@);
        }
    }
    prefix == a.len()
}

/// One output unit of [`CaterpillarChunker`] or [`CaterpillarReadChunker`].
///
/// The borrow source differs by producer: from [`CaterpillarChunker`] a segment
/// borrows the input slice (valid for the whole iteration); from
/// [`CaterpillarReadChunker`] it borrows the reader's reused buffer and is valid
/// **only until the next call**. Process it (or copy [`dedup_key`](Self::dedup_key))
/// before advancing the streaming chunker.
#[derive(Copy, Clone, Debug)]
pub enum Segment<'a> {
    /// A single chunk whose neighbor differed, emitted as-is.
    Solo(Chunk<'a>),
    /// A run of `count` (>= 2) byte-identical adjacent chunks.
    Caterpillar {
        /// Start offset of the run within the input.
        offset: u64,
        /// The repeated chunk's bytes.
        unit: &'a [u8],
        /// Number of times `unit` repeats (>= 2).
        count: u64,
    },
}

impl<'a> View for Segment<'a> {
    type V = SegmentView;

    open spec fn view(&self) -> SegmentView {
        match *self {
            Segment::Solo(c) => SegmentView { offset: c@.offset, unit: c@.bytes, count: 1 },
            Segment::Caterpillar { offset, unit, count } => SegmentView {
                offset: offset as nat,
                unit: unit@,
                count: count as nat,
            },
        }
    }
}

impl<'a> Segment<'a> {
    /// What holds of every segment that a chunker hands out: it is not empty, a
    /// run has at least two chunks, and its length and its end are offsets.
    pub open spec fn wf(&self) -> bool {
        &&& self@.unit.len() > 0
        &&& self is Caterpillar ==> self@.count >= 2
        &&& self@.offset + self@.len() <= u64::MAX
    }

    /// Start offset of this segment within the input.
    pub fn offset(&self) -> (offset: u64)
        ensures
            offset == self@.offset,
            offset == (match *self {
                Segment::Solo(c) => c@.offset,
                Segment::Caterpillar { offset, .. } => offset as nat,
            }),
    {
        match self {
            Segment::Solo(c) => c.offset(),
            Segment::Caterpillar { offset, .. } => *offset,
        }
    }

    /// Number of underlying chunks represented (1 for [`Segment::Solo`]).
    pub fn chunk_count(&self) -> (count: u64)
        ensures
            count == self@.count,
            count == (match *self {
                Segment::Solo(_) => 1,
                Segment::Caterpillar { count, .. } => count,
            }),
    {
        match self {
            Segment::Solo(_) => 1,
            Segment::Caterpillar { count, .. } => *count,
        }
    }

    /// Whether this segment stands for a run of chunks.
    pub fn is_caterpillar(&self) -> (b: bool)
        ensures
            b <==> self is Caterpillar,
            self.wf() ==> (b <==> self@.count >= 2),
    {
        match self {
            Segment::Solo(_) => false,
            Segment::Caterpillar { .. } => true,
        }
    }

    /// Total number of bytes covered by this segment.
    pub fn len(&self) -> (len: u64)
        requires
            self@.len() <= u64::MAX,
        ensures
            len == self@.len(),
            len == (match *self {
                Segment::Solo(c) => c@.bytes.len() as int,
                Segment::Caterpillar { unit, count, .. } => unit@.len() * count,
            }),
    {
        match self {
            Segment::Solo(c) => {
                let bytes: &[u8] = c;
                bytes.len() as u64
            },
            Segment::Caterpillar { unit, count, .. } => unit.len() as u64 * *count,
        }
    }

    /// Whether this segment covers zero bytes (never true in practice).
    pub fn is_empty(&self) -> (b: bool)
        requires
            self@.len() <= u64::MAX,
        ensures
            b <==> self@.len() == 0,
            self.wf() ==> !b,
    {
        proof {
            let s = self@;
            assert(s.unit.len() > 0 && s.count > 0 ==> s.unit.len() * s.count > 0)
                by (nonlinear_arith);
        }
        self.len() == 0
    }

    /// The unique content to fingerprint and store for content addressing: the
    /// chunk bytes ([`Segment::Solo`]) or the repeated unit
    /// ([`Segment::Caterpillar`]).
    ///
    /// This is also exactly the bytes to tile back to [`len`](Self::len) to
    /// reconstruct the segment, so a store-then-restore round-trip is lossless:
    /// hash and store `dedup_key()`, record [`offset`](Self::offset) and
    /// [`len`](Self::len), and on restore tile the stored bytes to `len`. See
    /// [`reconstruct_into`](Self::reconstruct_into).
    pub fn dedup_key(&self) -> (key: &[u8])
        ensures
            key@ == self@.unit,
            key@ == (match *self {
                Segment::Solo(c) => c@.bytes,
                Segment::Caterpillar { unit, .. } => unit@,
            }),
    {
        match self {
            Segment::Solo(c) => c,
            Segment::Caterpillar { unit, .. } => unit,
        }
    }

    /// Appends this segment's original bytes to `out` (the inverse of chunking):
    /// the chunk for [`Segment::Solo`] or the unit repeated `count` times for
    /// [`Segment::Caterpillar`]. Equivalent to tiling [`dedup_key`](Self::dedup_key)
    /// to [`len`](Self::len).
    pub fn reconstruct_into(&self, out: &mut Vec<u8>)
        requires
            old(out)@.len() + self@.len() <= isize::MAX,
        ensures
            final(out)@ == old(out)@ + self@.bytes(),
            final(out)@.len() == old(out)@.len() + self@.unit.len() * self@.count,
            final(out)@.take(old(out)@.len() as int) == old(out)@,
            forall|i: int|
                0 <= i < self@.unit.len() * self@.count
                    ==> #[trigger] final(out)@.skip(old(out)@.len() as int)[i]
                    == self@.unit[i % self@.unit.len() as int],
    {
        proof {
            lemma_repeat_len(self@.unit, self@.count);
            assert forall|i: int| 0 <= i < self@.len() implies #[trigger] self@.bytes()[i]
                == self@.unit[i % self@.unit.len() as int] by {
                law_unit_tiles_segment(self@, i);
            }
        }
        let key: &[u8] = self.dedup_key();
        let total: u64 = self.len();
        let mut written: u64 = 0;
        let ghost mut copies: nat = 0;
        proof {
            assert(out@ == old(out)@ + repeat(key@, 0));
            assert(key@.len() * 0 == 0) by (nonlinear_arith);
        }
        while written < total
            invariant
                key@ == self@.unit,
                total == key@.len() * self@.count,
                copies <= self@.count,
                written == key@.len() * copies,
                out@ == old(out)@ + repeat(key@, copies),
            decreases total - written,
        {
            proof {
                assert(copies < self@.count && written + key@.len() <= total && key@.len() > 0)
                    by (nonlinear_arith)
                    requires
                        copies <= self@.count,
                        written == key@.len() * copies,
                        total == key@.len() * self@.count,
                        written < total,
                ;
                assert(written + key@.len() == key@.len() * (copies + 1)) by (nonlinear_arith)
                    requires
                        written == key@.len() * copies,
                ;
            }
            let left: u64 = total - written;
            let take: usize = if (key.len() as u64) < left {
                key.len()
            } else {
                left as usize
            };
            let piece: &[u8] = &key[0..take];
            let ghost before = out@;
            out.extend_from_slice(piece);
            proof {
                assert(piece@ == key@);
                assert(out@ == before + key@);
                copies = copies + 1;
                assert(out@ == old(out)@ + repeat(key@, copies));
            }
            written += take as u64;
        }
        proof {
            assert(copies == self@.count || key@.len() == 0) by (nonlinear_arith)
                requires
                    written == key@.len() * copies,
                    total == key@.len() * self@.count,
                    written >= total,
                    copies <= self@.count,
            ;
            if key@.len() == 0 {
                lemma_repeat_len(key@, copies);
                lemma_repeat_len(key@, self@.count);
                assert(repeat(key@, copies) =~= repeat(key@, self@.count));
            }
            assert(out@.take(old(out)@.len() as int) =~= old(out)@);
            assert(out@.skip(old(out)@.len() as int) =~= self@.bytes());
        }
    }
}

/// The chunks still to come, if `carry` was taken from the front of `rest`.
spec fn with_carry(carry: Option<Chunk<'_>>, rest: Seq<ChunkView>) -> Seq<ChunkView> {
    match carry {
        Some(c) => seq![c@] + rest,
        None => rest,
    }
}

/// Whether `carry`, if there is one, is the chunk that ends at the position of
/// `inner`.
spec fn carry_fits<C: Cdc>(inner: SliceChunker<'_, C>, carry: Option<Chunk<'_>>) -> bool {
    carry matches Some(c) ==> {
        &&& c@.offset + c@.bytes.len() == inner.position()
        &&& c@.bytes == inner.data().subrange(c@.offset as int, inner.position() as int)
        &&& inner.rule().chunk_len(inner.data().skip(c@.offset as int), true) == Some(
            c@.bytes.len(),
        )
    }
}

/// Wraps a [`SliceChunker`] and coalesces repeated regions.
pub struct CaterpillarChunker<'a, C> {
    data: &'a [u8],
    inner: SliceChunker<'a, C>,
    carry: Option<Chunk<'a>>,
}

impl<'a, C: Cdc> CaterpillarChunker<'a, C> {
    /// The rule by which the slice is cut.
    pub closed spec fn rule(&self) -> Rule<C> {
        self.inner.rule()
    }

    /// The whole slice.
    pub closed spec fn data(&self) -> Seq<u8> {
        self.data@
    }

    /// The chunks that are still to come.
    pub closed spec fn remaining(&self) -> Seq<ChunkView> {
        with_carry(self.carry, self.inner.remaining())
    }

    /// The inner chunker works on the same slice, and a chunk that was already
    /// pulled from it stands right before its position.
    pub closed spec fn wf(&self) -> bool {
        &&& self.inner.wf()
        &&& self.inner.data() == self.data@
        &&& carry_fits(self.inner, self.carry)
    }

    /// Creates a caterpillar chunker (run-length-encodes byte-identical adjacent
    /// chunks). This is the recommended default: free on data with no runs, and
    /// it collapses zero-fill, padding, and repeated blocks into single records.
    pub fn new(bytes: &'a [u8], min_size: usize, max_size: usize, cdc: C) -> (chunker: Self)
        requires
            min_size <= max_size,
            max_size > 0,
            max_size <= MAX_CHUNK_SIZE,
        ensures
            chunker.wf(),
            chunker.rule() == (Rule { min: min_size as nat, max: max_size as nat, cdc }),
            chunker.data() == bytes@,
            chunker.remaining() == chunker.rule().chunks(bytes@, 0, true),
    {
        let inner: SliceChunker<'a, C> = SliceChunker::new(bytes, min_size, max_size, cdc);
        proof {
            assert(bytes@.skip(0) == bytes@);
        }
        CaterpillarChunker { data: bytes, inner, carry: None }
    }

    /// The next segment: the longest run of chunks that are identical to the
    /// next one. `None` at the end of the slice, and from then on.
    pub fn next(&mut self) -> (segment: Option<Segment<'a>>)
        requires
            old(self).wf(),
        ensures
            final(self).wf(),
            final(self).rule() == old(self).rule(),
            final(self).data() == old(self).data(),
            segment is Some <==> old(self).remaining().len() > 0,
            segment matches Some(s) ==> {
                &&& s.wf()
                &&& s@ == first_segment(old(self).remaining())
                &&& s@.offset == old(self).remaining()[0].offset
                &&& s@.unit == old(self).remaining()[0].bytes
                &&& 1 <= s@.count <= old(self).remaining().len()
                &&& forall|k: int|
                    0 <= k < s@.count ==> (#[trigger] old(self).remaining()[k]).bytes == s@.unit
                &&& s@.count < old(self).remaining().len() ==> old(
                    self,
                ).remaining()[s@.count as int].bytes != s@.unit
                &&& final(self).remaining() == old(self).remaining().skip(s@.count as int)
            },
            segment is None ==> final(self).remaining() == old(self).remaining(),
    {
        let ghost all = self.remaining();
        let ghost rule = self.inner.rule();
        proof {
            if all.len() > 0 {
                law_first_segment(all);
            }
        }
        let n: usize = self.data.len();
        let first: Chunk<'a> = match self.carry {
            Some(c) => c,
            None => match self.inner.next() {
                Some(c) => c,
                None => {
                    return None;
                },
            },
        };
        self.carry = None;
        let first_bytes: &[u8] = &first;
        let first_len: usize = first_bytes.len();
        let start: usize = first.offset() as usize;
        let unit: &'a [u8] = &self.data[start..start + first_len];
        let tail: &[u8] = &self.data[start..n];
        proof {
            assert(tail@ == self.data@.skip(start as int));
            assert(tail@.take(first_len as int) == unit@);
            assert(tail@.skip(first_len as int) == self.data@.skip(start + first_len));
            lemma_chunks_step(rule, tail@, start as nat, true);
            assert(all == rule.chunks(tail@, start as nat, true));
            assert(all.skip(1) == self.inner.remaining());
        }

        // Packed-scanning fast path: prove the region periodic once and emit
        // every chunk whose decision window stays inside it, skipping the
        // boundary search entirely (see `packed_repeats`). The skipped chunks
        // were never pulled from `inner`, so jump it forward; the run then
        // continues (or ends) through the normal path.
        let repeats: usize = packed_repeats(tail, first_len, self.inner.max_size());
        if repeats > 0 {
            proof {
                lemma_skip_repeats(rule, tail@, start as nat, true, repeats as nat);
                let skipped = (1 + repeats) * first_len;
                assert(tail@.skip(skipped) == self.data@.skip(start + skipped));
            }
            self.inner.seek(start + (1 + repeats) * first_len);
        } else {
            proof {
                assert(all == seq![all[0]] + all.skip(1));
            }
        }
        proof {
            assert(all.skip(1 + repeats) == self.inner.remaining());
            assert(run_len(all, unit@) == 1 + repeats + run_len(self.inner.remaining(), unit@));
            lemma_run(rule, tail@, start as nat, true, unit@, run_len(all, unit@));
            lemma_run_len_bounds(all, unit@);
            lemma_chunks_len(rule, tail@, start as nat, true);
        }
        let (followers, pending) = follow_run(&mut self.inner, unit);
        let count: usize = 1 + repeats + followers;
        proof {
            assert(all.skip(1 + repeats).skip(followers as int) == all.skip(count as int));
        }
        self.carry = pending;
        if count >= 2 {
            Some(Segment::Caterpillar { offset: start as u64, unit, count: count as u64 })
        } else {
            Some(Segment::Solo(first))
        }
    }

    /// All segments that are still to come.
    pub fn collect(self) -> (segments: Vec<Segment<'a>>)
        requires
            self.wf(),
        ensures
            segments@.len() == coalesce(self.remaining()).len(),
            forall|i: int|
                0 <= i < segments@.len() ==> (#[trigger] segments@[i]).wf() && segments@[i]@
                    == coalesce(self.remaining())[i],
    {
        let mut chunker = self;
        let mut segments: Vec<Segment<'a>> = Vec::new();
        let ghost all = coalesce(self.remaining());
        loop
            invariant
                all == coalesce(self.remaining()),
                chunker.wf(),
                all.len() == segments@.len() + coalesce(chunker.remaining()).len(),
                all.skip(segments@.len() as int) == coalesce(chunker.remaining()),
                forall|i: int|
                    0 <= i < segments@.len() ==> (#[trigger] segments@[i]).wf() && segments@[i]@
                        == all[i],
            decreases chunker.remaining().len(),
        {
            let ghost before = chunker.remaining();
            match chunker.next() {
                Some(segment) => {
                    proof {
                        lemma_run_len_bounds(before, before[0].bytes);
                        let done = segments@.len() as int;
                        assert(coalesce(before)[0] == segment@);
                        assert(all[done] == all.skip(done)[0]);
                        assert(coalesce(before).skip(1) == coalesce(chunker.remaining()));
                        assert(all.skip(done).skip(1) == all.skip(done + 1));
                    }
                    segments.push(segment);
                },
                None => {
                    return segments;
                },
            }
        }
    }
}

/// Pulls the chunks that hold just `unit` from the front of `inner`. Returns
/// their number, and the chunk that ended the run, which was pulled as well.
fn follow_run<'a, C: Cdc>(inner: &mut SliceChunker<'a, C>, unit: &[u8]) -> (followed: (
    usize,
    Option<Chunk<'a>>,
))
    requires
        old(inner).wf(),
    ensures
        final(inner).wf(),
        final(inner).rule() == old(inner).rule(),
        final(inner).data() == old(inner).data(),
        carry_fits(*final(inner), followed.1),
        followed.0 == run_len(old(inner).remaining(), unit@),
        with_carry(followed.1, final(inner).remaining()) == old(inner).remaining().skip(
            followed.0 as int,
        ),
{
    let ghost all = inner.remaining();
    let mut count: usize = 0;
    proof {
        let tail = inner.data().skip(inner.position() as int);
        lemma_chunks_len(inner.rule(), tail, inner.position(), true);
        assert(all.skip(0) == all);
    }
    let bound: usize = inner.data_len();
    loop
        invariant
            inner.wf(),
            inner.rule() == old(inner).rule(),
            inner.data() == old(inner).data(),
            all == old(inner).remaining(),
            count <= all.len() <= bound,
            all.skip(count as int) == inner.remaining(),
            run_len(all, unit@) == count + run_len(inner.remaining(), unit@),
        decreases inner.data().len() - inner.position(),
    {
        let ghost before = inner.remaining();
        match inner.next() {
            Some(c) => {
                proof {
                    assert(before[0] == c@);
                    assert(before.skip(1) == inner.remaining());
                    assert(all.skip(count as int).skip(1) == all.skip(count + 1));
                }
                let bytes: &[u8] = &c;
                if same_bytes(bytes, unit) {
                    count += 1;
                } else {
                    return (count, Some(c));
                }
            },
            None => {
                return (count, None);
            },
        }
    }
}

/// What [`CaterpillarReadChunker::next`] comes to.
#[derive(Copy, Clone, Debug)]
pub enum SegmentStep<'a> {
    /// No segment can be decided before more is read.
    NeedInput,
    /// The next segment.
    Segment(Segment<'a>),
    /// The reader is exhausted.
    End,
}

/// The value of what [`CaterpillarReadChunker::next`] comes to.
pub open spec fn segment_outcome(step: Result<SegmentStep<'_>, Error>) -> SegmentOutcome {
    match step {
        Ok(SegmentStep::NeedInput) => SegmentOutcome::NeedInput,
        Ok(SegmentStep::Segment(segment)) => SegmentOutcome::Segment(segment@),
        Ok(SegmentStep::End) => SegmentOutcome::End,
        Err(e) => SegmentOutcome::Failed(e),
    }
}

/// Streaming caterpillar: [`CaterpillarChunker`] for a reader.
///
/// It coalesces byte-identical adjacent chunks *inside* the reader's buffer and
/// yields **borrowed** [`Segment`]s valid only until the next call (the same
/// contract as [`ReadChunker::next`](crate::mincdc::ReadChunker::next)): they
/// borrow that buffer. So it runs in bounded memory, working on inputs larger than
/// RAM.
///
/// A run longer than the internal buffer is emitted as several segments instead
/// of one (still far fewer records than one-per-chunk, and every segment's
/// [`dedup_key`](Segment::dedup_key) is content-defined, so they dedup to one
/// stored blob). Where those splits land depends on the sizes of the reads, so
/// the *record grouping* is not reproducible across readers, but the stored
/// content is, which is what content-addressed dedup relies on.
///
/// The chunker holds the reader but leaves reading to its owner, in the same
/// way as [`ReadChunker`](crate::mincdc::ReadChunker) does.
#[derive(Clone)]
pub struct CaterpillarReadChunker<R, C> {
    min_size: usize,
    max_size: usize,
    cdc: C,
    reader: R,
    buf: Buffer,
    stream_offset: u64,
    eof: bool,
    done: bool,
    /// Length of the chunk at the front of the buffer if already computed by a
    /// previous call's lookahead; avoids computing the boundary twice.
    pending_len: Option<usize>,
}

impl<R, C> View for CaterpillarReadChunker<R, C> {
    type V = StreamState;

    closed spec fn view(&self) -> StreamState {
        StreamState {
            pending: self.buf@,
            offset: self.stream_offset as nat,
            ended: self.eof,
            done: self.done,
        }
    }
}

impl<R, C: Cdc> CaterpillarReadChunker<R, C> {
    /// The rule by which the stream is cut.
    pub closed spec fn rule(&self) -> Rule<C> {
        Rule { min: self.min_size as nat, max: self.max_size as nat, cdc: self.cdc }
    }

    /// The underlying reader.
    pub closed spec fn reader(&self) -> R {
        self.reader
    }

    /// The size of the buffer.
    pub closed spec fn capacity(&self) -> nat {
        self.buf.capacity()
    }

    /// How many bytes the buffer can take up.
    pub closed spec fn room(&self) -> nat {
        self.buf.room()
    }

    /// The size limits make sense, the buffer holds a decision window, once the
    /// reader is exhausted nothing is pending, and a length that was computed
    /// ahead is the one of the next chunk.
    pub closed spec fn wf(&self) -> bool {
        &&& self.rule().valid()
        &&& self.buf.wf()
        &&& self.max_size < self.buf.capacity() <= usize::MAX
        &&& self.done ==> self.buf@.len() == 0
        &&& self.pending_len is Some ==> as_nat(self.pending_len) == self.rule().chunk_len(
            self.buf@,
            self.eof,
        )
    }

    /// The buffer holds more than a decision window, and what is pending and
    /// what it can take up fit in it together.
    pub proof fn lemma_capacity(&self)
        requires
            self.wf(),
        ensures
            self.rule().max < self.capacity(),
            self.room() + self@.pending.len() <= self.capacity(),
    {
        self.buf.lemma_capacity();
    }

    /// An exhausted chunker has nothing pending.
    pub proof fn lemma_exhausted(&self)
        requires
            self.wf(),
        ensures
            self@.done ==> self@.pending.len() == 0,
    {
    }

    /// Creates a streaming caterpillar chunker.
    ///
    /// Any sizes with `min_size <= max_size` and `max_size > 0` are accepted
    /// whose buffer can be as large as an allocation, also a `max_size` above
    /// [`MAX_CHUNK_SIZE`]. [`try_new`](Self::try_new) keeps to that limit, and
    /// handles unacceptable sizes and a failing allocation as errors.
    pub fn new(reader: R, min_size: usize, max_size: usize, cdc: C) -> (chunker: Self)
        requires
            min_size <= max_size,
            max_size > 0,
            buffer_size(min_size, max_size) <= isize::MAX,
        ensures
            chunker.wf(),
            chunker.rule() == (Rule { min: min_size as nat, max: max_size as nat, cdc }),
            chunker.reader() == reader,
            chunker@ == StreamState::initial(),
            chunker@.pending.len() == 0 && chunker@.offset == 0 && !chunker@.ended && !chunker@.done,
            chunker.room() == buffer_size(min_size, max_size),
            chunker.capacity() == buffer_size(min_size, max_size),
    {
        let buf: Buffer = Buffer::new(MIN_BUFFER_SIZE + (max_size + 1) + min_size * 4);
        CaterpillarReadChunker {
            min_size,
            max_size,
            cdc,
            reader,
            buf,
            stream_offset: 0,
            eof: false,
            done: false,
            pending_len: None,
        }
    }

    /// Tries to create a streaming caterpillar chunker without arithmetic or
    /// allocation panics. Whether the buffer can be allocated is up to the
    /// allocator.
    pub fn try_new(reader: R, min_size: usize, max_size: usize, cdc: C) -> (chunker: Result<
        Self,
        Error,
    >)
        ensures
            !valid_sizes(min_size, max_size) <==> chunker == Err::<Self, Error>(
                Error::InvalidSizes,
            ),
            (valid_sizes(min_size, max_size) && buffer_size(min_size, max_size) > usize::MAX)
                <==> chunker == Err::<Self, Error>(Error::SizeOverflow),
            (valid_sizes(min_size, max_size) && isize::MAX < buffer_size(min_size, max_size)
                <= usize::MAX) ==> chunker == Err::<Self, Error>(Error::OutOfMemory),
            (min_size > max_size || max_size == 0 || max_size > 0xffff_fffe) <==> chunker == Err::<
                Self,
                Error,
            >(Error::InvalidSizes),
            (min_size <= max_size && 0 < max_size <= 0xffff_fffe && 0x40_0000 + (max_size + 1) + 4
                * min_size > usize::MAX) <==> chunker == Err::<Self, Error>(Error::SizeOverflow),
            (min_size <= max_size && 0 < max_size <= 0xffff_fffe && 0x40_0000 + (max_size + 1) + 4
                * min_size <= isize::MAX) ==> exists|
                bytes: &mut Vec<u8>,
                reserved: Result<(), TryReserveError>,
            | #[trigger]
                call_ensures(
                    Vec::<u8>::try_reserve,
                    (bytes, (0x40_0000 + (max_size + 1) + 4 * min_size) as usize),
                    reserved,
                ) && bytes@.len() == 0 && (chunker is Ok <==> reserved is Ok) && (chunker == Err::<
                    Self,
                    Error,
                >(Error::OutOfMemory) <==> reserved is Err),
            chunker matches Err(e) ==> e != Error::OffsetOverflow,
            chunker matches Ok(c) ==> {
                &&& c.wf()
                &&& c.rule() == (Rule { min: min_size as nat, max: max_size as nat, cdc })
                &&& c.reader() == reader
                &&& c@ == StreamState::initial()
                &&& c@.pending.len() == 0 && c@.offset == 0 && !c@.ended && !c@.done
                &&& c.room() == buffer_size(min_size, max_size)
                &&& c.capacity() == buffer_size(min_size, max_size)
            },
    {
        let size: usize = match checked_buffer_size(min_size, max_size) {
            Ok(size) => size,
            Err(e) => {
                return Err(e);
            },
        };
        match Buffer::try_new(size) {
            Some(buf) => Ok(
                CaterpillarReadChunker {
                    min_size,
                    max_size,
                    cdc,
                    reader,
                    buf,
                    stream_offset: 0,
                    eof: false,
                    done: false,
                    pending_len: None,
                },
            ),
            None => Err(Error::OutOfMemory),
        }
    }

    /// Returns a shared reference to the underlying reader.
    pub fn get_ref(&self) -> (reader: &R)
        ensures
            *reader == self.reader(),
    {
        &self.reader
    }

    /// Returns a mutable reference to the underlying reader.
    ///
    /// Reading from it without reporting what was read can invalidate chunker
    /// state.
    pub fn get_mut(&mut self) -> (reader: &mut R)
        ensures
            *reader == old(self).reader(),
            final(self).reader() == *final(reader),
            old(self).wf() ==> final(self).wf(),
            final(self)@ == old(self)@,
            final(self).rule() == old(self).rule(),
            final(self).room() == old(self).room(),
            final(self).capacity() == old(self).capacity(),
    {
        &mut self.reader
    }

    /// Returns the underlying reader, discarding any bytes already read ahead.
    pub fn into_inner(self) -> (reader: R)
        ensures
            reader == self.reader(),
    {
        self.reader
    }

    /// Length of the chunk that starts `p` bytes into what is buffered, or
    /// `None` if it can't be decided without more data.
    fn chunk_len(&self, p: usize) -> (len: Option<usize>)
        requires
            self.wf(),
            p <= self@.pending.len(),
        ensures
            as_nat(len) == self.rule().chunk_len(self@.pending.skip(p as int), self@.ended),
    {
        let pending: &[u8] = self.buf.pending();
        let avail: &[u8] = &pending[p..pending.len()];
        proof {
            assert(avail@ == self@.pending.skip(p as int));
        }
        next_chunk_len(avail, self.min_size, self.max_size, self.eof, &self.cdc)
    }

    /// Whether the next segment needs more input, and how many bytes there is
    /// room for then; makes that room by moving what is pending to the front
    /// of the buffer if it has to.
    pub fn ensure(&mut self) -> (room: Option<usize>)
        requires
            old(self).wf(),
        ensures
            final(self).wf(),
            final(self)@ == old(self)@,
            final(self).rule() == old(self).rule(),
            final(self).reader() == old(self).reader(),
            final(self).capacity() == old(self).capacity(),
            final(self).room() == (if old(self)@.wants_input(old(self).rule()) && old(
                self,
            ).room() + old(self)@.pending.len() <= old(self).rule().max {
                old(self).capacity() - old(self)@.pending.len()
            } else {
                old(self).room() as int
            }),
            final(self).room() >= old(self).room(),
            room is Some <==> old(self)@.wants_input(old(self).rule()),
            room is Some <==> !old(self)@.done && !old(self)@.ended && old(
                self,
            )@.pending.len() <= old(self).rule().max,
            room matches Some(n) ==> {
                &&& n > 0
                &&& n == final(self).room()
                &&& n + final(self)@.pending.len() > final(self).rule().max
            },
    {
        if self.done || self.eof || self.buf.len() > self.max_size {
            return None;
        }
        Some(self.buf.make_room(self.max_size + 1))
    }

    /// Takes up what came of an attempt to read.
    ///
    /// A read of no bytes is treated as end of input. An interrupted read is to
    /// be tried again; any other failure is to be reported, and progress
    /// already made is preserved so that the chunker can resume.
    pub fn on_read(&mut self, event: ReadEvent<'_>) -> (action: ReadAction)
        requires
            old(self).wf(),
            old(self)@.wants_input(old(self).rule()),
            event matches ReadEvent::Data(bytes) ==> bytes@.len() <= old(self).room(),
        ensures
            final(self).wf(),
            final(self).rule() == old(self).rule(),
            final(self).reader() == old(self).reader(),
            match event {
                ReadEvent::Data(bytes) => final(self)@ == old(self)@.fed(bytes@) && action
                    == ReadAction::Proceed,
                ReadEvent::Interrupted => final(self)@ == old(self)@ && action
                    == ReadAction::Retry,
                ReadEvent::Failed => final(self)@ == old(self)@ && action == ReadAction::Report,
            },
            final(self)@.offset == old(self)@.offset,
            final(self)@.done == old(self)@.done,
            event matches ReadEvent::Data(bytes) ==> {
                &&& final(self)@.pending == old(self)@.pending + bytes@
                &&& final(self)@.ended == (old(self)@.ended || bytes@.len() == 0)
            },
            event !is Data ==> final(self)@ == old(self)@,
            final(self).capacity() == old(self).capacity(),
            final(self).room() == (match event {
                ReadEvent::Data(bytes) => (old(self).room() - bytes@.len()) as nat,
                _ => old(self).room(),
            }),
    {
        match event {
            ReadEvent::Data(bytes) => {
                // Less than a decision window was buffered, so no boundary can
                // have been computed ahead.
                if bytes.len() == 0 {
                    self.eof = true;
                } else {
                    self.buf.append(bytes);
                }
                ReadAction::Proceed
            },
            ReadEvent::Interrupted => ReadAction::Retry,
            ReadEvent::Failed => ReadAction::Report,
        }
    }

    /// How far the run of chunks identical to the first one reaches in what is
    /// buffered: its length, its number of chunks, and the length of the chunk
    /// behind it where that can be decided.
    fn scan_run(&self, unit_len: usize) -> (run: (usize, usize, Option<usize>))
        requires
            self.wf(),
            self.rule().chunk_len(self@.pending, self@.ended) == Some(unit_len as nat),
        ensures
            run.1 == run_len(
                self.rule().chunks(self@.pending, self@.offset, self@.ended),
                self@.pending.take(unit_len as int),
            ),
            run.1 >= 1,
            run.0 == unit_len * run.1,
            run.0 <= self@.pending.len(),
            as_nat(run.2) == self.rule().chunk_len(
                self@.pending.skip(run.0 as int),
                self@.ended,
            ),
    {
        let ghost rule = self.rule();
        let ghost st = self@;
        let ghost all = rule.chunks(st.pending, st.offset, st.ended);
        let ghost unit_bytes = st.pending.take(unit_len as int);
        let pending: &[u8] = self.buf.pending();
        let n: usize = pending.len();
        proof {
            rule.lemma_chunk_len_bounds(st.pending, st.ended);
            lemma_chunks_len(rule, st.pending, st.offset, st.ended);
            lemma_run_len_bounds(all, unit_bytes);
        }
        let unit: &[u8] = &pending[0..unit_len];

        // Packed-scanning fast path, same as the slice chunker: guaranteed
        // repeats within the buffered region cost one equality scan instead of
        // one boundary search each.
        let repeats: usize = packed_repeats(pending, unit_len, self.max_size);
        proof {
            lemma_skip_repeats(rule, st.pending, st.offset, st.ended, repeats as nat);
            assert((1 + repeats) * unit_len == unit_len * (1 + repeats)) by (nonlinear_arith);
        }
        let mut count: usize = 1 + repeats;
        let mut len: usize = count * unit_len;
        loop
            invariant
                self.wf(),
                rule == self.rule(),
                rule.valid(),
                st == self@,
                all == rule.chunks(st.pending, st.offset, st.ended),
                unit_bytes == unit@,
                unit@ == st.pending.take(unit_len as int),
                pending@ == st.pending,
                n == pending.len(),
                1 <= unit_len <= n,
                unit@.len() == unit_len,
                run_len(all, unit@) <= all.len() <= n,
                1 <= count,
                len == unit_len * count,
                len <= n,
                run_len(all, unit@) == count + run_len(
                    rule.chunks(st.pending.skip(len as int), st.offset + len as nat, st.ended),
                    unit@,
                ),
            decreases n - len,
        {
            let next: Option<usize> = self.chunk_len(len);
            let ghost rest = st.pending.skip(len as int);
            let ghost behind = rule.chunks(rest, st.offset + len as nat, st.ended);
            proof {
                rule.lemma_chunk_len_bounds(rest, st.ended);
                lemma_chunks_step(rule, rest, st.offset + len as nat, st.ended);
            }
            match next {
                Some(next_len) => {
                    let chunk: &[u8] = &pending[len..len + next_len];
                    proof {
                        assert(chunk@ == rest.take(next_len as int));
                        assert(rest.skip(next_len as int) == st.pending.skip(len + next_len));
                    }
                    if next_len == unit_len && same_bytes(chunk, unit) {
                        proof {
                            assert(unit_len * (count + 1) == unit_len * count + unit_len)
                                by (nonlinear_arith);
                        }
                        count += 1;
                        len += next_len;
                    } else {
                        return (len, count, next);
                    }
                },
                None => {
                    return (len, count, next);
                },
            }
        }
    }

    /// Gets the next [`Segment`] (borrowed, valid until the next call) from what
    /// was read, or tells that the reader is exhausted or that more has to be
    /// read first.
    pub fn next(&mut self) -> (step: Result<SegmentStep<'_>, Error>)
        requires
            old(self).wf(),
        ensures
            final(self).wf(),
            final(self).rule() == old(self).rule(),
            final(self).reader() == old(self).reader(),
            final(self).room() == old(self).room(),
            final(self).capacity() == old(self).capacity(),
            (final(self)@, segment_outcome(step)) == old(self)@.segment_next(old(self).rule()),
            step matches Ok(SegmentStep::Segment(s)) ==> s.wf(),
            ({
                let before = old(self)@;
                let after = final(self)@;
                let rule = old(self).rule();
                if before.done {
                    (step matches Ok(SegmentStep::End)) && after == before
                } else if !before.ended && before.pending.len() <= rule.max {
                    (step matches Ok(SegmentStep::NeedInput)) && after == before
                } else if before.pending.len() == 0 {
                    (step matches Ok(SegmentStep::End)) && after == (StreamState {
                        done: true,
                        ..before
                    })
                } else {
                    match step {
                        Ok(SegmentStep::Segment(s)) => {
                            let u = s@.unit.len();
                            &&& s@.offset == before.offset
                            &&& rule.chunk_len(before.pending, before.ended) == Some(u)
                            &&& s@.unit == before.pending.take(u as int)
                            &&& s@.count >= 1
                            &&& forall|k: int|
                                0 <= k < s@.count ==> rule.chunk_len(
                                    #[trigger] behind_units(before.pending, u, k),
                                    before.ended,
                                ) == Some(u) && behind_units(before.pending, u, k).take(u as int)
                                    == s@.unit
                            &&& !(rule.chunk_len(after.pending, before.ended) == Some(u)
                                && after.pending.take(u as int) == s@.unit)
                            &&& after.pending == before.pending.skip((u * s@.count) as int)
                            &&& after.offset == before.offset + u * s@.count
                            &&& after.ended == before.ended
                            &&& !after.done
                        },
                        Err(e) => {
                            &&& e == Error::OffsetOverflow
                            &&& before.offset + before.pending.len() > u64::MAX
                            &&& after == before
                        },
                        _ => false,
                    }
                }
            }),
    {
        if self.done {
            return Ok(SegmentStep::End);
        }
        let avail: usize = self.buf.len();
        if !self.eof && avail <= self.max_size {
            return Ok(SegmentStep::NeedInput);
        }
        if avail == 0 {
            self.done = true;
            return Ok(SegmentStep::End);
        }
        let ghost rule = self.rule();
        let ghost st = self@;
        proof {
            rule.lemma_chunk_len_bounds(st.pending, st.ended);
            lemma_chunks_step(rule, st.pending, st.offset, st.ended);
            law_first_segment_of_data(rule, st.pending, st.offset, st.ended);
            assert(st.pending.skip(0) == st.pending);
        }
        // Reuse the boundary the previous call already computed, if any.
        let first: Option<usize> = match self.pending_len {
            Some(len) => Some(len),
            None => self.chunk_len(0),
        };
        match first {
            Some(unit_len) => {
                let (len, count, behind) = self.scan_run(unit_len);
                let offset: u64 = self.stream_offset;
                match offset.checked_add(len as u64) {
                    Some(next_offset) => {
                        self.stream_offset = next_offset;
                        self.pending_len = behind;
                        proof {
                            assert(unit_len * 1 == unit_len);
                            assert(unit_len <= len) by (nonlinear_arith)
                                requires
                                    len == unit_len * count,
                                    count >= 1,
                            ;
                        }
                        let run: &[u8] = self.buf.consume(len);
                        let unit: &[u8] = &run[0..unit_len];
                        proof {
                            assert(unit@ == st.pending.take(unit_len as int));
                        }
                        Ok(
                            SegmentStep::Segment(
                                if count >= 2 {
                                    Segment::Caterpillar { offset, unit, count: count as u64 }
                                } else {
                                    Segment::Solo(Chunk::new(unit, offset))
                                },
                            ),
                        )
                    },
                    None => Err(Error::OffsetOverflow),
                }
            },
            // A whole decision window, or all there is, can always be decided.
            None => Ok(SegmentStep::NeedInput),
        }
    }
}

} // verus!
