//! MinCDC, a very simple yet efficient content-defined chunking algorithm.
//!
//! The basic idea is to choose chunk boundaries based on the minimum value of a
//! sliding window over the input data. That is, if the desired chunk size is
//! between `min_size` and `max_size`, we find some `min_size <= i <= max_size`
//! such that `evaluate(bytes[i - w..i])` is minimized, where `w` is the window
//! size, breaking ties by choosing the earliest such `i`. Then we return chunk
//! `bytes[..i]` and repeat the process on the remainder `bytes[i..]`.
//!
//! There are two instances, both with a window size of 4:
//!  - [`MinCdc4`], where the evaluation function is
//!    `u32::from_le_bytes(bytes[i - 4..i])`, and
//!  - [`MinCdcHash4`], where the evaluation function is
//!    `hash(u32::from_le_bytes(bytes[i - 4..i]))` with the very simple
//!    `hash(x) = x.wrapping_mul(a).wrapping_add(b)`, for some constants `a` and
//!    `b`.
//!
//! [`MinCdcHash4`] is far more robust and predictable; it is the recommended
//! default.
//!
//! And there are two chunkers: [`SliceChunker`] for a byte slice, and
//! [`ReadChunker`] for a reader. Both hand out [`Chunk`]s, which deref to a byte
//! slice and know their offset in the input.

use crate::buffer::Buffer;
use crate::laws::lemma_chunks_step;
use crate::model::{as_nat, ChunkView, ReadOutcome, Rule, StreamState};
use crate::scalar;
use crate::simd;
use std::collections::TryReserveError;
use vstd::prelude::*;

verus! {

/// Multiplier of the default hash.
pub const DEFAULT_MULTIPLIER: u32 = 0x915f77f5;

/// Addend of the default hash.
pub const DEFAULT_ADDEND: u32 = 0x34636463;

/// The least size of the buffer of a streaming chunker, decision window and
/// slack not counted.
pub const MIN_BUFFER_SIZE: usize = 0x40_0000;

/// Largest supported boundary-search window.
///
/// Keeping this limit consistent across targets keeps chunk boundaries
/// portable.
pub const MAX_CHUNK_SIZE: usize = 0xffff_fffe;

/// The type of the sizes that [`Cdc`] speaks of in its contract, for code that
/// forwards it.
pub type CdcSize = nat;

/// The type of the data that [`Cdc`] speaks of in its contract, for code that
/// forwards it.
pub type CdcData = Seq<u8>;

/// A trait for determining splitpoints in a content-defined way.
///
/// An implementation proves that it keeps the contract, so the chunkers need not
/// test what it returns.
pub trait Cdc {
    /// The value of [`window_size`](Cdc::window_size).
    spec fn window(&self) -> nat;

    /// The value of [`best_splitpoint`](Cdc::best_splitpoint) on `bytes`. A
    /// splitpoint is chosen by the bytes alone.
    spec fn split(&self, bytes: Seq<u8>) -> nat;

    /// What the chunkers rely on: the window is not empty, and a splitpoint
    /// lies behind a whole window, or at the end of data that holds none.
    proof fn contract(&self, bytes: Seq<u8>)
        ensures
            self.window() > 0,
            bytes.len() < self.window() ==> self.split(bytes) == bytes.len(),
            bytes.len() >= self.window() ==> self.window() <= self.split(bytes) <= bytes.len(),
    ;

    /// The amount of bytes needed before position `i` to determine if `i` is a
    /// splitpoint.
    fn window_size(&self) -> (w: usize)
        ensures
            w == self.window(),
    ;

    /// Returns the best splitpoint `i`, indicating bytes is to be split into
    /// `bytes[..i]` and `bytes[i..]`.
    ///
    /// If `bytes.len() < self.window_size()`, this is `bytes.len()`. Otherwise
    /// it is a value in `self.window_size()..=bytes.len()`.
    fn best_splitpoint(&self, bytes: &[u8]) -> (i: usize)
        ensures
            i == self.split(bytes@),
    ;
}

/// The splitpoint behind the first window whose key is minimal.
pub open spec fn min_split(bytes: Seq<u8>, hashed: bool, multiplier: u32, addend: u32) -> nat {
    if bytes.len() < 4 {
        bytes.len()
    } else {
        (4 + scalar::first_min(bytes, hashed, multiplier, addend)) as nat
    }
}

/// An instance of MinCDC4.
///
/// This chooses the first splitpoint `i` where
/// `u32::from_le_bytes(bytes[i-4..i])` is minimized.
#[derive(Copy, Clone, Debug)]
pub struct MinCdc4;

impl MinCdc4 {
    /// Create a new instance of MinCDC4.
    ///
    /// Unless you have a specific reason to use `MinCdc4`, prefer
    /// [`MinCdcHash4`]. `MinCdc4` is less robust to certain input patterns and
    /// can easily create skewed chunk sizes.
    pub fn new() -> (cdc: Self)
        ensures
            cdc == MinCdc4,
    {
        MinCdc4
    }
}

impl Default for MinCdc4 {
    fn default() -> (cdc: Self)
        ensures
            cdc == MinCdc4,
    {
        MinCdc4::new()
    }
}

impl Cdc for MinCdc4 {
    open spec fn window(&self) -> nat {
        4
    }

    open spec fn split(&self, bytes: Seq<u8>) -> nat {
        min_split(bytes, false, 1, 0)
    }

    proof fn contract(&self, bytes: Seq<u8>) {
        if bytes.len() >= 4 {
            scalar::lemma_first_min_exists(bytes, false, 1, 0);
        }
    }

    fn window_size(&self) -> (w: usize) {
        4
    }

    fn best_splitpoint(&self, bytes: &[u8]) -> (i: usize) {
        if bytes.len() < 4 {
            return bytes.len();
        }
        let k: usize = simd::argmin_u32_overlapping_hashed::<false>(bytes, 1, 0);
        proof {
            scalar::lemma_first_min_unique(bytes@, false, 1, 0, k as int);
        }
        4 + k
    }
}

/// An instance of MinCDCHash4.
///
/// This chooses the first splitpoint `i` where
/// `hash(u32::from_le_bytes(bytes[i-4..i]))` is minimized, where
/// `hash(v) = v.wrapping_mul(multiplier).wrapping_add(addend)`.
#[derive(Copy, Clone, Debug)]
pub struct MinCdcHash4 {
    multiplier: u32,
    addend: u32,
}

impl Default for MinCdcHash4 {
    fn default() -> (cdc: Self)
        ensures
            cdc == MinCdcHash4::of(DEFAULT_MULTIPLIER, DEFAULT_ADDEND),
            cdc.params() == (DEFAULT_MULTIPLIER, DEFAULT_ADDEND),
            cdc.params() == (0x915f77f5u32, 0x34636463u32),
    {
        Self::new()
    }
}

impl MinCdcHash4 {
    /// The instance with the given multiplier and addend.
    pub closed spec fn of(multiplier: u32, addend: u32) -> Self {
        MinCdcHash4 { multiplier, addend }
    }

    /// The hash is made for odd multipliers.
    #[verifier::type_invariant]
    spec fn multiplier_is_odd(self) -> bool {
        self.multiplier % 2 == 1
    }

    /// The multiplier and the addend of the hash.
    pub closed spec fn params(&self) -> (u32, u32) {
        (self.multiplier, self.addend)
    }

    /// The parameters of an instance are those it is made of.
    pub proof fn lemma_of_params(multiplier: u32, addend: u32)
        ensures
            MinCdcHash4::of(multiplier, addend).params() == (multiplier, addend),
    {
    }

    /// Create a new instance of MinCDCHash4 with the default hash parameters.
    pub fn new() -> (cdc: Self)
        ensures
            cdc == MinCdcHash4::of(DEFAULT_MULTIPLIER, DEFAULT_ADDEND),
            cdc.params() == (DEFAULT_MULTIPLIER, DEFAULT_ADDEND),
            cdc.params() == (0x915f77f5u32, 0x34636463u32),
    {
        Self::with_params(DEFAULT_MULTIPLIER, DEFAULT_ADDEND)
    }

    /// Create a new instance of MinCDCHash4, specifying the hash parameters.
    ///
    /// The multiplier has to be odd. An even multiplier is always strictly
    /// worse.
    pub fn with_params(multiplier: u32, addend: u32) -> (cdc: Self)
        requires
            multiplier % 2 == 1,
        ensures
            cdc == MinCdcHash4::of(multiplier, addend),
            cdc.params() == (multiplier, addend),
    {
        MinCdcHash4 { multiplier, addend }
    }
}

impl Cdc for MinCdcHash4 {
    open spec fn window(&self) -> nat {
        4
    }

    open spec fn split(&self, bytes: Seq<u8>) -> nat {
        min_split(bytes, true, self.params().0, self.params().1)
    }

    proof fn contract(&self, bytes: Seq<u8>) {
        if bytes.len() >= 4 {
            scalar::lemma_first_min_exists(bytes, true, self.params().0, self.params().1);
        }
    }

    fn window_size(&self) -> (w: usize) {
        4
    }

    fn best_splitpoint(&self, bytes: &[u8]) -> (i: usize) {
        if bytes.len() < 4 {
            return bytes.len();
        }
        let k: usize = simd::argmin_u32_overlapping_hashed::<true>(
            bytes,
            self.multiplier,
            self.addend,
        );
        proof {
            scalar::lemma_first_min_unique(
                bytes@,
                true,
                self.multiplier,
                self.addend,
                k as int,
            );
        }
        4 + k
    }
}

/// The length of the next chunk at the front of the available bytes `avail`, or
/// `None` if it cannot be decided without more data (only possible when not at
/// end of input, i.e. `!eof`) or there is none. This is the single source of
/// truth for chunk boundary placement, shared by [`SliceChunker`],
/// [`ReadChunker`], and the caterpillar layer so they cannot silently diverge.
pub fn next_chunk_len<C: Cdc>(
    avail: &[u8],
    min_size: usize,
    max_size: usize,
    eof: bool,
    cdc: &C,
) -> (len: Option<usize>)
    requires
        min_size <= max_size,
        max_size > 0,
    ensures
        as_nat(len) == (Rule { min: min_size as nat, max: max_size as nat, cdc: *cdc }).chunk_len(
            avail@,
            eof,
        ),
        len is None <==> avail@.len() == 0 || (!eof && avail@.len() <= max_size),
        len matches Some(l) ==> {
            let n = avail@.len() as int;
            let w = cdc.window() as int;
            let start = if min_size > w {
                min_size - w
            } else {
                0
            };
            let end = if max_size < n {
                max_size as int
            } else {
                n
            };
            &&& (Rule { min: min_size as nat, max: max_size as nat, cdc: *cdc }).chunk_len(
                avail@,
                eof,
            ) == Some(l as nat)
            &&& l == (if n <= min_size {
                n
            } else {
                start + cdc.split(avail@.subrange(start, end))
            })
        },
{
    let ghost rule = Rule { min: min_size as nat, max: max_size as nat, cdc: *cdc };
    proof {
        rule.lemma_chunk_len_bounds(avail@, eof);
    }
    let n: usize = avail.len();
    if n == 0 {
        return None;
    }
    // Can't reliably place a boundary without the full decision window, unless
    // this is all the data there is.
    if !eof && n <= max_size {
        return None;
    }
    if n <= min_size {
        return Some(n);  // final short chunk (only reachable at eof)
    }
    let window: usize = cdc.window_size();
    let start: usize = min_size.saturating_sub(window);
    let end: usize = if max_size < n {
        max_size
    } else {
        n
    };
    let search: &[u8] = &avail[start..end];
    let split: usize = cdc.best_splitpoint(search);
    Some(start + split)
}

/// A chunk returned by [`SliceChunker`] or [`ReadChunker`].
///
/// This implements `Deref` so you can directly treat it as a byte slice.
#[derive(Copy, Clone, Debug)]
pub struct Chunk<'a> {
    bytes: &'a [u8],
    offset: u64,
}

impl<'a> View for Chunk<'a> {
    type V = ChunkView;

    closed spec fn view(&self) -> ChunkView {
        ChunkView { offset: self.offset as nat, bytes: self.bytes@ }
    }
}

impl<'a> Chunk<'a> {
    /// Creates a new [`Chunk`] with the given `bytes` and `offset`.
    pub fn new(bytes: &'a [u8], offset: u64) -> (chunk: Self)
        ensures
            chunk@ == (ChunkView { offset: offset as nat, bytes: bytes@ }),
    {
        Chunk { bytes, offset }
    }

    /// The start offset of this chunk within the full data. Stream offsets use
    /// `u64` even on 32-bit targets.
    pub fn offset(&self) -> (offset: u64)
        ensures
            offset == self@.offset,
    {
        self.offset
    }
}

impl<'a> std::ops::Deref for Chunk<'a> {
    type Target = [u8];

    fn deref(&self) -> (bytes: &[u8])
        ensures
            bytes@ == self@.bytes,
    {
        self.bytes
    }
}

/// A chunker for a byte slice.
#[derive(Clone)]
pub struct SliceChunker<'a, C> {
    min_size: usize,
    max_size: usize,
    cdc: C,
    bytes: &'a [u8],
    offset: usize,
}

impl<'a, C> SliceChunker<'a, C> {
    /// The rule by which the slice is cut.
    pub closed spec fn rule(&self) -> Rule<C> {
        Rule { min: self.min_size as nat, max: self.max_size as nat, cdc: self.cdc }
    }

    /// The whole slice.
    pub closed spec fn data(&self) -> Seq<u8> {
        self.bytes@
    }

    /// Where the next chunk starts.
    pub closed spec fn position(&self) -> nat {
        self.offset as nat
    }

    /// The size limits make sense and the position lies in the slice.
    pub open spec fn wf(&self) -> bool {
        &&& self.rule().valid()
        &&& self.position() <= self.data().len()
    }

    /// Creates a new [`SliceChunker`] with the given minimum and maximum chunk
    /// size and CDC instance.
    ///
    /// The maximum size is always respected, however the final chunk may not
    /// respect the minimum size.
    pub fn new(bytes: &'a [u8], min_size: usize, max_size: usize, cdc: C) -> (chunker: Self)
        requires
            min_size <= max_size,
            max_size > 0,
            max_size <= MAX_CHUNK_SIZE,
        ensures
            chunker.wf(),
            chunker.rule() == (Rule { min: min_size as nat, max: max_size as nat, cdc }),
            chunker.data() == bytes@,
            chunker.position() == 0,
    {
        SliceChunker { min_size, max_size, cdc, bytes, offset: 0 }
    }
}

impl<'a, C: Cdc> SliceChunker<'a, C> {
    /// The chunks that are still to come.
    pub open spec fn remaining(&self) -> Seq<ChunkView> {
        self.rule().chunks(
            self.data().skip(self.position() as int),
            self.position(),
            true,
        )
    }

    /// The next chunk, or `None` at the end of the slice, and from then on.
    pub fn next(&mut self) -> (chunk: Option<Chunk<'a>>)
        requires
            old(self).wf(),
        ensures
            final(self).wf(),
            final(self).rule() == old(self).rule(),
            final(self).data() == old(self).data(),
            chunk is Some <==> old(self).position() < old(self).data().len(),
            chunk matches Some(c) ==> {
                &&& Some(c@.bytes.len()) == old(self).rule().chunk_len(
                    old(self).data().skip(old(self).position() as int),
                    true,
                )
                &&& c@.offset == old(self).position()
                &&& c@.bytes == old(self).data().subrange(
                    old(self).position() as int,
                    final(self).position() as int,
                )
                &&& final(self).position() == old(self).position() + c@.bytes.len()
                &&& old(self).remaining() == seq![c@] + final(self).remaining()
            },
            chunk is None ==> {
                &&& final(self).position() == old(self).position()
                &&& old(self).remaining() == Seq::<ChunkView>::empty()
            },
    {
        let n: usize = self.bytes.len();
        proof {
            lemma_chunks_step(
                self.rule(),
                self.data().skip(self.position() as int),
                self.position(),
                true,
            );
        }
        if self.offset == n {
            return None;
        }
        let avail: &[u8] = &self.bytes[self.offset..n];
        proof {
            self.rule().lemma_chunk_len_bounds(avail@, true);
            assert(avail@ == self.data().skip(self.position() as int));
        }
        // The whole input is in memory, so we always know where the end is.
        match next_chunk_len(avail, self.min_size, self.max_size, true, &self.cdc) {
            Some(len) => {
                let end: usize = self.offset + len;
                let chunk: Chunk<'a> = Chunk::new(
                    &self.bytes[self.offset..end],
                    self.offset as u64,
                );
                proof {
                    assert(chunk@.bytes == avail@.take(len as int));
                    assert(avail@.skip(len as int) == self.data().skip(end as int));
                }
                self.offset = end;
                Some(chunk)
            },
            None => None,
        }
    }

    /// Goes on at `position`.
    pub(crate) fn seek(&mut self, position: usize)
        requires
            old(self).wf(),
            position <= old(self).data().len(),
        ensures
            final(self).wf(),
            final(self).rule() == old(self).rule(),
            final(self).data() == old(self).data(),
            final(self).position() == position,
    {
        self.offset = position;
    }

    /// The length of the whole slice.
    pub(crate) fn data_len(&self) -> (len: usize)
        ensures
            len == self.data().len(),
    {
        self.bytes.len()
    }

    /// The maximum chunk size.
    pub(crate) fn max_size(&self) -> (max_size: usize)
        ensures
            max_size == self.rule().max,
    {
        self.max_size
    }

    /// All chunks that are still to come.
    pub fn collect(self) -> (chunks: Vec<Chunk<'a>>)
        requires
            self.wf(),
        ensures
            chunks@.len() == self.remaining().len(),
            forall|i: int| 0 <= i < chunks@.len() ==> #[trigger] chunks@[i]@ == self.remaining()[i],
            self.remaining() == self.rule().chunks(
                self.data().skip(self.position() as int),
                self.position(),
                true,
            ),
    {
        let mut chunker = self;
        let mut chunks: Vec<Chunk<'a>> = Vec::new();
        let ghost all = self.remaining();
        loop
            invariant
                all == self.remaining(),
                chunker.wf(),
                all.len() == chunks@.len() + chunker.remaining().len(),
                all.skip(chunks@.len() as int) == chunker.remaining(),
                forall|i: int| 0 <= i < chunks@.len() ==> #[trigger] chunks@[i]@ == all[i],
            decreases chunker.data().len() - chunker.position(),
        {
            let ghost before = chunker.remaining();
            match chunker.next() {
                Some(chunk) => {
                    proof {
                        assert(before[0] == chunk@);
                        assert(all[chunks@.len() as int] == all.skip(chunks@.len() as int)[0]);
                        assert(before.skip(1) == chunker.remaining());
                        assert(all.skip(chunks@.len() as int).skip(1) == all.skip(
                            chunks@.len() as int + 1,
                        ));
                    }
                    chunks.push(chunk);
                },
                None => {
                    return chunks;
                },
            }
        }
    }
}

/// Why a chunker could not be made, or cannot go on.
#[derive(Copy, Clone, Debug, PartialEq, Eq, Structural)]
pub enum Error {
    /// The size limits do not satisfy
    /// `0 <= min_size <= max_size <= MAX_CHUNK_SIZE` with `max_size > 0`.
    InvalidSizes,
    /// The size of the internal buffer overflowed.
    SizeOverflow,
    /// The internal buffer could not be allocated.
    OutOfMemory,
    /// The stream offset exceeded `u64::MAX`.
    OffsetOverflow,
}

/// The category of an [`Error`].
#[derive(Copy, Clone, Debug, PartialEq, Eq, Structural)]
pub enum ErrorKind {
    InvalidInput,
    OutOfMemory,
    InvalidData,
}

impl Error {
    /// The category of this error.
    pub fn kind(&self) -> (kind: ErrorKind)
        ensures
            kind == (match *self {
                Error::InvalidSizes | Error::SizeOverflow => ErrorKind::InvalidInput,
                Error::OutOfMemory => ErrorKind::OutOfMemory,
                Error::OffsetOverflow => ErrorKind::InvalidData,
            }),
    {
        match *self {
            Error::InvalidSizes | Error::SizeOverflow => ErrorKind::InvalidInput,
            Error::OutOfMemory => ErrorKind::OutOfMemory,
            Error::OffsetOverflow => ErrorKind::InvalidData,
        }
    }
}

/// Whether the size limits of a chunker are acceptable.
pub open spec fn valid_sizes(min_size: usize, max_size: usize) -> bool {
    min_size <= max_size && 0 < max_size <= MAX_CHUNK_SIZE
}

/// How many bytes the buffer of a streaming chunker holds: a decision window,
/// some slack, and enough beyond these that reads amortize buffer movement.
pub open spec fn buffer_size(min_size: usize, max_size: usize) -> int {
    MIN_BUFFER_SIZE + (max_size + 1) + 4 * min_size
}

/// The size of the buffer of a streaming chunker, if the size limits are
/// acceptable and it does not overflow.
pub fn checked_buffer_size(min_size: usize, max_size: usize) -> (size: Result<usize, Error>)
    ensures
        size == (if !valid_sizes(min_size, max_size) {
            Err::<usize, Error>(Error::InvalidSizes)
        } else if buffer_size(min_size, max_size) > usize::MAX {
            Err::<usize, Error>(Error::SizeOverflow)
        } else {
            Ok::<usize, Error>(buffer_size(min_size, max_size) as usize)
        }),
        (min_size > max_size || max_size == 0 || max_size > 0xffff_fffe) <==> size == Err::<
            usize,
            Error,
        >(Error::InvalidSizes),
        size matches Ok(n) ==> n == 0x40_0000 + (max_size + 1) + 4 * min_size,
        (min_size <= max_size && 0 < max_size <= 0xffff_fffe && 0x40_0000 + (max_size + 1) + 4
            * min_size > usize::MAX) <==> size == Err::<usize, Error>(Error::SizeOverflow),
        size matches Err(e) ==> e == Error::InvalidSizes || e == Error::SizeOverflow,
{
    if min_size > max_size || max_size == 0 || max_size > MAX_CHUNK_SIZE {
        return Err(Error::InvalidSizes);
    }
    let decision: usize = match max_size.checked_add(1) {
        Some(n) => n,
        None => {
            return Err(Error::SizeOverflow);
        },
    };
    let slack: usize = match min_size.checked_mul(4) {
        Some(n) => n,
        None => {
            return Err(Error::SizeOverflow);
        },
    };
    match MIN_BUFFER_SIZE.checked_add(decision) {
        Some(n) => match n.checked_add(slack) {
            Some(size) => Ok(size),
            None => Err(Error::SizeOverflow),
        },
        None => Err(Error::SizeOverflow),
    }
}

/// What came of an attempt to read from the reader of a streaming chunker.
#[derive(Copy, Clone, Debug)]
pub enum ReadEvent<'b> {
    /// The bytes that were read. No bytes at all mean the end of input.
    Data(&'b [u8]),
    /// The attempt was interrupted.
    Interrupted,
    /// The attempt failed.
    Failed,
}

/// What to do after a [`ReadEvent`].
#[derive(Copy, Clone, Debug, PartialEq, Eq, Structural)]
pub enum ReadAction {
    /// Go on: read more if more is wanted, else ask for the next item.
    Proceed,
    /// Read again.
    Retry,
    /// Hand the failure on to the caller. What was read so far is kept, so the
    /// chunker can resume.
    Report,
}

/// What [`ReadChunker::next`] comes to.
#[derive(Copy, Clone, Debug)]
pub enum ReadStep<'a> {
    /// No chunk can be decided before more is read.
    NeedInput,
    /// The next chunk.
    Chunk(Chunk<'a>),
    /// The reader is exhausted.
    End,
}

/// The value of what [`ReadChunker::next`] comes to.
pub open spec fn read_outcome(step: Result<ReadStep<'_>, Error>) -> ReadOutcome {
    match step {
        Ok(ReadStep::NeedInput) => ReadOutcome::NeedInput,
        Ok(ReadStep::Chunk(chunk)) => ReadOutcome::Chunk(chunk@),
        Ok(ReadStep::End) => ReadOutcome::End,
        Err(e) => ReadOutcome::Failed(e),
    }
}

/// A chunker for a reader.
///
/// Note that unlike [`SliceChunker`] this stores bytes in an internal buffer
/// which is re-used. It allocates at least 4 MiB so that ordinary reads
/// amortize buffer movement.
///
/// The chunker holds the reader but leaves reading to its owner: as long as
/// [`ensure`](ReadChunker::ensure) asks for input, read up to the given number
/// of bytes and report what came of it to
/// [`on_read`](ReadChunker::on_read); then call [`next`](ReadChunker::next).
#[derive(Clone)]
pub struct ReadChunker<R, C> {
    min_size: usize,
    max_size: usize,
    cdc: C,
    reader: R,
    buf: Buffer,
    stream_offset: u64,
    ended: bool,
    done: bool,
}

impl<R, C> View for ReadChunker<R, C> {
    type V = StreamState;

    closed spec fn view(&self) -> StreamState {
        StreamState {
            pending: self.buf@,
            offset: self.stream_offset as nat,
            ended: self.ended,
            done: self.done,
        }
    }
}

impl<R, C: Cdc> ReadChunker<R, C> {
    /// The rule by which the stream is cut.
    pub closed spec fn rule(&self) -> Rule<C> {
        Rule { min: self.min_size as nat, max: self.max_size as nat, cdc: self.cdc }
    }

    /// The underlying reader.
    pub closed spec fn reader(&self) -> R {
        self.reader
    }

    /// The size of the buffer.
    pub closed spec fn capacity(&self) -> nat {
        self.buf.capacity()
    }

    /// How many bytes the buffer can take up.
    pub closed spec fn room(&self) -> nat {
        self.buf.room()
    }

    /// The size limits make sense, the buffer holds a decision window, and once
    /// the reader is exhausted nothing is pending.
    pub closed spec fn wf(&self) -> bool {
        &&& self.rule().valid()
        &&& self.buf.wf()
        &&& self.max_size < self.buf.capacity() <= usize::MAX
        &&& self.done ==> self.buf@.len() == 0
    }

    /// The buffer holds more than a decision window, and what is pending and
    /// what it can take up fit in it together.
    pub proof fn lemma_capacity(&self)
        requires
            self.wf(),
        ensures
            self.rule().max < self.capacity(),
            self.room() + self@.pending.len() <= self.capacity(),
    {
        self.buf.lemma_capacity();
    }

    /// An exhausted chunker has nothing pending.
    pub proof fn lemma_exhausted(&self)
        requires
            self.wf(),
        ensures
            self@.done ==> self@.pending.len() == 0,
    {
    }

    /// Creates a new [`ReadChunker`] with the given minimum and maximum chunk
    /// size and CDC instance.
    ///
    /// The maximum size is always respected, however the final chunk may not
    /// respect the minimum size. Use [`ReadChunker::try_new`] to handle
    /// unacceptable sizes and a failing allocation as errors.
    pub fn new(reader: R, min_size: usize, max_size: usize, cdc: C) -> (chunker: Self)
        requires
            valid_sizes(min_size, max_size),
            buffer_size(min_size, max_size) <= isize::MAX,
        ensures
            chunker.wf(),
            chunker.rule() == (Rule { min: min_size as nat, max: max_size as nat, cdc }),
            chunker.reader() == reader,
            chunker@ == StreamState::initial(),
            chunker@.pending.len() == 0 && chunker@.offset == 0 && !chunker@.ended && !chunker@.done,
            chunker.room() == buffer_size(min_size, max_size),
            chunker.capacity() == buffer_size(min_size, max_size),
    {
        let buf: Buffer = Buffer::new(MIN_BUFFER_SIZE + (max_size + 1) + min_size * 4);
        ReadChunker {
            min_size,
            max_size,
            cdc,
            reader,
            buf,
            stream_offset: 0,
            ended: false,
            done: false,
        }
    }

    /// Tries to create a reader chunker without arithmetic or allocation panics.
    /// Whether the buffer can be allocated is up to the allocator.
    pub fn try_new(reader: R, min_size: usize, max_size: usize, cdc: C) -> (chunker: Result<
        Self,
        Error,
    >)
        ensures
            !valid_sizes(min_size, max_size) <==> chunker == Err::<Self, Error>(
                Error::InvalidSizes,
            ),
            (valid_sizes(min_size, max_size) && buffer_size(min_size, max_size) > usize::MAX)
                <==> chunker == Err::<Self, Error>(Error::SizeOverflow),
            (valid_sizes(min_size, max_size) && isize::MAX < buffer_size(min_size, max_size)
                <= usize::MAX) ==> chunker == Err::<Self, Error>(Error::OutOfMemory),
            (min_size > max_size || max_size == 0 || max_size > 0xffff_fffe) <==> chunker == Err::<
                Self,
                Error,
            >(Error::InvalidSizes),
            (min_size <= max_size && 0 < max_size <= 0xffff_fffe && 0x40_0000 + (max_size + 1) + 4
                * min_size > usize::MAX) <==> chunker == Err::<Self, Error>(Error::SizeOverflow),
            (min_size <= max_size && 0 < max_size <= 0xffff_fffe && 0x40_0000 + (max_size + 1) + 4
                * min_size <= isize::MAX) ==> exists|
                bytes: &mut Vec<u8>,
                reserved: Result<(), TryReserveError>,
            | #[trigger]
                call_ensures(
                    Vec::<u8>::try_reserve,
                    (bytes, (0x40_0000 + (max_size + 1) + 4 * min_size) as usize),
                    reserved,
                ) && bytes@.len() == 0 && (chunker is Ok <==> reserved is Ok) && (chunker == Err::<
                    Self,
                    Error,
                >(Error::OutOfMemory) <==> reserved is Err),
            chunker matches Err(e) ==> e != Error::OffsetOverflow,
            chunker matches Ok(c) ==> {
                &&& c.wf()
                &&& c.rule() == (Rule { min: min_size as nat, max: max_size as nat, cdc })
                &&& c.reader() == reader
                &&& c@ == StreamState::initial()
                &&& c@.pending.len() == 0 && c@.offset == 0 && !c@.ended && !c@.done
                &&& c.room() == buffer_size(min_size, max_size)
                &&& c.capacity() == buffer_size(min_size, max_size)
            },
    {
        let size: usize = match checked_buffer_size(min_size, max_size) {
            Ok(size) => size,
            Err(e) => {
                return Err(e);
            },
        };
        match Buffer::try_new(size) {
            Some(buf) => Ok(
                ReadChunker {
                    min_size,
                    max_size,
                    cdc,
                    reader,
                    buf,
                    stream_offset: 0,
                    ended: false,
                    done: false,
                },
            ),
            None => Err(Error::OutOfMemory),
        }
    }

    /// Returns a shared reference to the underlying reader.
    pub fn get_ref(&self) -> (reader: &R)
        ensures
            *reader == self.reader(),
    {
        &self.reader
    }

    /// Returns a mutable reference to the underlying reader.
    ///
    /// Reading from it without reporting what was read can invalidate chunker
    /// state.
    pub fn get_mut(&mut self) -> (reader: &mut R)
        ensures
            *reader == old(self).reader(),
            final(self).reader() == *final(reader),
            old(self).wf() ==> final(self).wf(),
            final(self)@ == old(self)@,
            final(self).rule() == old(self).rule(),
            final(self).room() == old(self).room(),
            final(self).capacity() == old(self).capacity(),
    {
        &mut self.reader
    }

    /// Returns the underlying reader, discarding any bytes already read ahead.
    pub fn into_inner(self) -> (reader: R)
        ensures
            reader == self.reader(),
    {
        self.reader
    }

    /// Whether the next chunk needs more input, and how many bytes there is
    /// room for then; makes that room by moving what is pending to the front
    /// of the buffer if it has to.
    pub fn ensure(&mut self) -> (room: Option<usize>)
        requires
            old(self).wf(),
        ensures
            final(self).wf(),
            final(self)@ == old(self)@,
            final(self).rule() == old(self).rule(),
            final(self).reader() == old(self).reader(),
            final(self).capacity() == old(self).capacity(),
            final(self).room() == (if old(self)@.wants_input(old(self).rule()) && old(
                self,
            ).room() + old(self)@.pending.len() <= old(self).rule().max {
                old(self).capacity() - old(self)@.pending.len()
            } else {
                old(self).room() as int
            }),
            final(self).room() >= old(self).room(),
            room is Some <==> old(self)@.wants_input(old(self).rule()),
            room is Some <==> !old(self)@.done && !old(self)@.ended && old(
                self,
            )@.pending.len() <= old(self).rule().max,
            room matches Some(n) ==> {
                &&& n > 0
                &&& n == final(self).room()
                &&& n + final(self)@.pending.len() > final(self).rule().max
            },
    {
        if self.done || self.ended || self.buf.len() > self.max_size {
            return None;
        }
        Some(self.buf.make_room(self.max_size + 1))
    }

    /// Takes up what came of an attempt to read.
    ///
    /// A read of no bytes is treated as end of input. An interrupted read is to
    /// be tried again; any other failure is to be reported, and progress
    /// already made is preserved so that the chunker can resume.
    pub fn on_read(&mut self, event: ReadEvent<'_>) -> (action: ReadAction)
        requires
            old(self).wf(),
            old(self)@.wants_input(old(self).rule()),
            event matches ReadEvent::Data(bytes) ==> bytes@.len() <= old(self).room(),
        ensures
            final(self).wf(),
            final(self).rule() == old(self).rule(),
            final(self).reader() == old(self).reader(),
            match event {
                ReadEvent::Data(bytes) => final(self)@ == old(self)@.fed(bytes@) && action
                    == ReadAction::Proceed,
                ReadEvent::Interrupted => final(self)@ == old(self)@ && action
                    == ReadAction::Retry,
                ReadEvent::Failed => final(self)@ == old(self)@ && action == ReadAction::Report,
            },
            final(self)@.offset == old(self)@.offset,
            final(self)@.done == old(self)@.done,
            event matches ReadEvent::Data(bytes) ==> {
                &&& final(self)@.pending == old(self)@.pending + bytes@
                &&& final(self)@.ended == (old(self)@.ended || bytes@.len() == 0)
            },
            event !is Data ==> final(self)@ == old(self)@,
            final(self).capacity() == old(self).capacity(),
            final(self).room() == (match event {
                ReadEvent::Data(bytes) => (old(self).room() - bytes@.len()) as nat,
                _ => old(self).room(),
            }),
    {
        match event {
            ReadEvent::Data(bytes) => {
                if bytes.len() == 0 {
                    self.ended = true;
                } else {
                    self.buf.append(bytes);
                }
                ReadAction::Proceed
            },
            ReadEvent::Interrupted => ReadAction::Retry,
            ReadEvent::Failed => ReadAction::Report,
        }
    }

    /// Gets the next [`Chunk`] from what was read, or tells that the reader is
    /// exhausted or that more has to be read first.
    pub fn next(&mut self) -> (step: Result<ReadStep<'_>, Error>)
        requires
            old(self).wf(),
        ensures
            final(self).wf(),
            final(self).rule() == old(self).rule(),
            final(self).reader() == old(self).reader(),
            final(self).room() == old(self).room(),
            final(self).capacity() == old(self).capacity(),
            (final(self)@, read_outcome(step)) == old(self)@.read_next(old(self).rule()),
            ({
                let before = old(self)@;
                let after = final(self)@;
                let rule = old(self).rule();
                let full = before.pending.len() > rule.max;
                if before.done {
                    (step matches Ok(ReadStep::End)) && after == before
                } else if !before.ended && !full {
                    (step matches Ok(ReadStep::NeedInput)) && after == before
                } else if before.pending.len() == 0 {
                    (step matches Ok(ReadStep::End)) && after == (StreamState {
                        done: true,
                        ..before
                    })
                } else {
                    rule.chunk_len(before.pending, !full) matches Some(len) && {
                        if before.offset + len > u64::MAX {
                            (step matches Err(e) && e == Error::OffsetOverflow) && after == before
                        } else {
                            &&& step matches Ok(ReadStep::Chunk(c)) && c@.offset == before.offset
                                && c@.bytes == before.pending.take(len as int)
                            &&& after.pending == before.pending.skip(len as int)
                            &&& after.offset == before.offset + len
                            &&& after.ended == before.ended
                            &&& !after.done
                        }
                    }
                }
            }),
    {
        if self.done {
            return Ok(ReadStep::End);
        }
        let avail: usize = self.buf.len();
        if !self.ended && avail <= self.max_size {
            return Ok(ReadStep::NeedInput);
        }
        // With less than a decision window buffered, the end of the reader has
        // been hit.
        let eof: bool = avail <= self.max_size;
        proof {
            self.rule().lemma_chunk_len_bounds(self.buf@, eof);
        }
        match next_chunk_len(
            self.buf.pending(),
            self.min_size,
            self.max_size,
            eof,
            &self.cdc,
        ) {
            None => {
                self.done = true;
                Ok(ReadStep::End)
            },
            Some(len) => {
                let offset: u64 = self.stream_offset;
                match offset.checked_add(len as u64) {
                    Some(next_offset) => {
                        self.stream_offset = next_offset;
                        Ok(ReadStep::Chunk(Chunk::new(self.buf.consume(len), offset)))
                    },
                    None => Err(Error::OffsetOverflow),
                }
            },
        }
    }
}

} // verus!
