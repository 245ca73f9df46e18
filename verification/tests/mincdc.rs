use std::io::{self, Cursor, Read};

use mothcdc::mincdc::{
    checked_buffer_size, next_chunk_len, Cdc, Error, ErrorKind, MinCdc4, MinCdcHash4, ReadAction,
    ReadChunker, ReadEvent, ReadStep, SliceChunker, DEFAULT_ADDEND, DEFAULT_MULTIPLIER,
    MAX_CHUNK_SIZE, MIN_BUFFER_SIZE,
};
use mothcdc::simd::Width;
use mothcdc::{scalar, simd, Chunk};
use rand::distr::StandardUniform;
use rand::rngs::SmallRng;
use rand::{Rng, SeedableRng};

fn random_bytes(seed: u64, n: usize) -> Vec<u8> {
    SmallRng::seed_from_u64(seed)
        .sample_iter(StandardUniform)
        .take(n)
        .collect()
}

/// Reads until the chunker can go on.
fn fill<R: Read, C: Cdc>(chunker: &mut ReadChunker<R, C>) -> io::Result<()> {
    let mut scratch = vec![0u8; 65536];
    while let Some(room) = chunker.ensure() {
        let n = room.min(scratch.len());
        match chunker.get_mut().read(&mut scratch[..n]) {
            Ok(k) => {
                assert_eq!(chunker.on_read(ReadEvent::Data(&scratch[..k])), ReadAction::Proceed);
            }
            Err(e) if e.kind() == io::ErrorKind::Interrupted => {
                assert_eq!(chunker.on_read(ReadEvent::Interrupted), ReadAction::Retry);
            }
            Err(e) => {
                assert_eq!(chunker.on_read(ReadEvent::Failed), ReadAction::Report);
                return Err(e);
            }
        }
    }
    Ok(())
}

fn read_next<R: Read, C: Cdc>(chunker: &mut ReadChunker<R, C>) -> io::Result<Option<Chunk<'_>>> {
    fill(chunker)?;
    match chunker.next().unwrap() {
        ReadStep::Chunk(chunk) => Ok(Some(chunk)),
        ReadStep::End => Ok(None),
        ReadStep::NeedInput => panic!("filled chunker needs input"),
    }
}

#[test]
fn test_argmin_overlapped() {
    for size in 0..4096 {
        let bytes = random_bytes(size, size as usize);
        assert_eq!(
            simd::argmin_u32_overlapping_hashed::<false>(&bytes, 1, 0),
            scalar::argmin_u32_overlapping_hashed::<false>(&bytes, 1, 0)
        );
        assert_eq!(
            simd::argmin_u32_overlapping_hashed::<true>(
                &bytes,
                DEFAULT_MULTIPLIER,
                DEFAULT_ADDEND
            ),
            scalar::argmin_u32_overlapping_hashed::<true>(
                &bytes,
                DEFAULT_MULTIPLIER,
                DEFAULT_ADDEND
            )
        );
    }
}

// The packed-scan primitives must agree with the scalar reference for every size
// and every mismatch position, including inside the tail.
#[test]
fn test_packed_scan_matches_scalar() {
    for size in 0..600usize {
        let a = random_bytes(size as u64, size);
        for p in 0..=size {
            let mut b = a.clone();
            if p < size {
                b[p] ^= 0x5A;
            }
            let want = p.min(size);
            assert_eq!(scalar::common_prefix_len(&a, &b), want, "scalar {size}/{p}");
            assert_eq!(simd::common_prefix_len(&a, &b), want, "simd {size}/{p}");

            let mut run = vec![0x77u8; size];
            if p < size {
                run[p] = 0;
            }
            assert_eq!(
                scalar::byte_run_len(&run, 0x77),
                want,
                "scalar run {size}/{p}"
            );
            assert_eq!(simd::byte_run_len(&run, 0x77), want, "simd run {size}/{p}");
        }
    }
}

#[test]
fn test_simd_widths_agree_with_scalar() {
    for size in 0..2048usize {
        let bytes = random_bytes(size as u64, size);
        let (mul, add) = (DEFAULT_MULTIPLIER, DEFAULT_ADDEND);
        let want = scalar::argmin_u32_overlapping_hashed::<false>(&bytes, 1, 0);
        let want_hash = scalar::argmin_u32_overlapping_hashed::<true>(&bytes, mul, add);
        for width in [Width::Scalar, Width::Block16, Width::Block32, Width::Block64] {
            let got = simd::argmin_with_width::<false>(width, &bytes, 1, 0);
            assert_eq!(got, want, "{width:?} nohash size={size}");
            let got = simd::argmin_with_width::<true>(width, &bytes, mul, add);
            assert_eq!(got, want_hash, "{width:?} hash size={size}");
        }
    }
}

#[test]
fn test_read_slice_equiv() {
    let bounds = [1, 4, 27, 200];
    for min_size in &bounds {
        for max_size in &bounds {
            if min_size > max_size {
                continue;
            }
            for size in [0usize, 1, 3, 4, 17, 200, 511, 4096] {
                let bytes = random_bytes(size as u64, size);

                let reader = Cursor::new(&bytes);
                let mut read_chunker = ReadChunker::new(reader, *min_size, *max_size, MinCdc4);
                let slice_chunker = SliceChunker::new(&bytes, *min_size, *max_size, MinCdc4);
                for slice_chunk in slice_chunker.collect() {
                    let read_chunk = read_next(&mut read_chunker).unwrap().unwrap();
                    assert_eq!(slice_chunk.offset(), read_chunk.offset());
                    assert_eq!(&slice_chunk[..], &read_chunk[..]);
                }
                assert!(read_next(&mut read_chunker).unwrap().is_none());

                let reader = Cursor::new(&bytes);
                let mut read_chunker =
                    ReadChunker::new(reader, *min_size, *max_size, MinCdcHash4::new());
                let slice_chunker =
                    SliceChunker::new(&bytes, *min_size, *max_size, MinCdcHash4::new());
                for slice_chunk in slice_chunker.collect() {
                    let read_chunk = read_next(&mut read_chunker).unwrap().unwrap();
                    assert_eq!(slice_chunk.offset(), read_chunk.offset());
                    assert_eq!(&slice_chunk[..], &read_chunk[..]);
                }
                assert!(read_next(&mut read_chunker).unwrap().is_none());
            }
        }
    }
}

struct InterruptOnce<R> {
    inner: R,
    interrupted: bool,
}

impl<R: Read> Read for InterruptOnce<R> {
    fn read(&mut self, buf: &mut [u8]) -> io::Result<usize> {
        if !self.interrupted {
            self.interrupted = true;
            return Err(io::ErrorKind::Interrupted.into());
        }
        self.inner.read(buf)
    }
}

#[test]
fn read_chunker_retries_interrupted() {
    let data = vec![7u8; 1024];
    let reader = InterruptOnce {
        inner: Cursor::new(&data),
        interrupted: false,
    };
    let mut chunks = ReadChunker::new(reader, 16, 64, MinCdcHash4::new());
    let mut rebuilt = Vec::new();
    while let Some(chunk) = read_next(&mut chunks).unwrap() {
        rebuilt.extend_from_slice(&chunk);
    }
    assert_eq!(rebuilt, data);
}

struct OneByteReader<R>(R);

impl<R: Read> Read for OneByteReader<R> {
    fn read(&mut self, buf: &mut [u8]) -> io::Result<usize> {
        let n = buf.len().min(1);
        self.0.read(&mut buf[..n])
    }
}

#[test]
fn read_chunker_handles_one_byte_reads() {
    let data: Vec<u8> = (0..8192).map(|i| (i * 31) as u8).collect();
    let want: Vec<(u64, Vec<u8>)> = SliceChunker::new(&data, 64, 256, MinCdcHash4::new())
        .collect()
        .iter()
        .map(|c| (c.offset(), c.to_vec()))
        .collect();
    let mut chunker = ReadChunker::new(
        OneByteReader(Cursor::new(&data)),
        64,
        256,
        MinCdcHash4::new(),
    );
    let mut got = Vec::new();
    while let Some(chunk) = read_next(&mut chunker).unwrap() {
        got.push((chunk.offset(), chunk.to_vec()));
    }
    assert_eq!(got, want);
}

struct ErrorAfterFirstRead {
    data: Vec<u8>,
    first: bool,
}

impl Read for ErrorAfterFirstRead {
    fn read(&mut self, buf: &mut [u8]) -> io::Result<usize> {
        if self.first {
            return Err(io::Error::other("reader failed"));
        }
        self.first = true;
        let n = self.data.len().min(buf.len());
        buf[..n].copy_from_slice(&self.data[..n]);
        Ok(n)
    }
}

#[test]
fn read_chunker_preserves_progress_before_error() {
    let reader = ErrorAfterFirstRead {
        data: vec![0; 17],
        first: false,
    };
    let mut chunks = ReadChunker::new(reader, 8, 16, MinCdcHash4::new());
    assert!(read_next(&mut chunks).unwrap().is_some());
    assert_eq!(
        read_next(&mut chunks).unwrap_err().kind(),
        io::ErrorKind::Other
    );
    // What was read before the failure is still there.
    assert_eq!(chunks.ensure().is_some(), true);
    assert_eq!(chunks.on_read(ReadEvent::Data(&[])), ReadAction::Proceed);
    match chunks.next().unwrap() {
        ReadStep::Chunk(chunk) => {
            assert_eq!(chunk.offset(), 8);
            assert_eq!(&chunk[..], &[0u8; 8]);
        }
        _ => panic!("progress was lost"),
    }
}

#[test]
fn fallible_constructor_rejects_overflowing_configuration() {
    let result = ReadChunker::try_new(
        Cursor::new(Vec::<u8>::new()),
        0,
        usize::MAX,
        MinCdcHash4::new(),
    );
    match result {
        Err(e) => assert_eq!(e.kind(), ErrorKind::InvalidInput),
        Ok(_) => panic!("overflowing configuration was accepted"),
    }
}

#[test]
fn error_kinds() {
    assert_eq!(Error::InvalidSizes.kind(), ErrorKind::InvalidInput);
    assert_eq!(Error::SizeOverflow.kind(), ErrorKind::InvalidInput);
    assert_eq!(Error::OutOfMemory.kind(), ErrorKind::OutOfMemory);
    assert_eq!(Error::OffsetOverflow.kind(), ErrorKind::InvalidData);
}

#[test]
fn buffer_size_is_checked() {
    assert_eq!(MIN_BUFFER_SIZE, 4 * 1024 * 1024);
    assert_eq!(MAX_CHUNK_SIZE, u32::MAX as usize - 1);
    assert_eq!(checked_buffer_size(64, 256), Ok(4 * 1024 * 1024 + 257 + 256));
    assert_eq!(checked_buffer_size(0, 1), Ok(4 * 1024 * 1024 + 2));
    assert_eq!(checked_buffer_size(2, 1), Err(Error::InvalidSizes));
    assert_eq!(checked_buffer_size(0, 0), Err(Error::InvalidSizes));
    assert_eq!(
        checked_buffer_size(0, MAX_CHUNK_SIZE + 1),
        Err(Error::InvalidSizes)
    );
    assert!(checked_buffer_size(0, MAX_CHUNK_SIZE).is_ok());
}

#[test]
fn documented_example() {
    let data = b"Hello, world! This is an example of MinCDC chunking.";
    let mut chunker = SliceChunker::new(data, 8, 16, MinCdcHash4::new());
    assert_eq!(chunker.next().as_deref(), Some(&b"Hello, world"[..]));
    assert_eq!(chunker.next().as_deref(), Some(&b"! This is "[..]));
    assert_eq!(chunker.next().as_deref(), Some(&b"an example "[..]));
    assert_eq!(chunker.next().as_deref(), Some(&b"of MinCDC chu"[..]));
    // Last chunk may be smaller than min_size.
    assert_eq!(chunker.next().as_deref(), Some(&b"nking."[..]));
    assert!(chunker.next().is_none());
    assert!(chunker.next().is_none());
}

#[test]
fn splitpoints_are_exact() {
    // Windows, little-endian: 0x04030201, 0x01040302, 0x02010403, 0x03020104.
    let bytes = [1u8, 2, 3, 4, 1, 2, 3];
    assert_eq!(MinCdc4::new().window_size(), 4);
    assert_eq!(MinCdc4::default().best_splitpoint(&bytes), 5);
    assert_eq!(MinCdc4::new().best_splitpoint(&bytes[..3]), 3);
    // Times 0xffff_ffff is negation, so the largest window wins.
    let negated = MinCdcHash4::with_params(0xffff_ffff, 0);
    assert_eq!(negated.best_splitpoint(&bytes), 4);
    // An addend that makes the key of 0x02010403 wrap to 0.
    let shifted = MinCdcHash4::with_params(1, 0u32.wrapping_sub(0x0201_0403));
    assert_eq!(shifted.best_splitpoint(&bytes), 6);
    assert_eq!(shifted.window_size(), 4);
    // Ties go to the earliest window.
    assert_eq!(MinCdcHash4::default().best_splitpoint(&[9u8; 40]), 4);
    assert_eq!(MinCdcHash4::new().best_splitpoint(&[]), 0);
}

#[test]
fn four_windows_only() {
    let bytes = [9u8, 9, 9, 9, 9, 9, 1, 0, 0, 0, 0, 0];
    assert_eq!(scalar::argmin_u32_overlapping_hashed_four::<false>(&bytes, 1, 0), 3);
    assert_eq!(scalar::argmin_u32_overlapping_hashed::<false>(&bytes, 1, 0), 7);
}

#[test]
fn undecided_without_a_full_window() {
    let cdc = MinCdc4::new();
    let zeros = [0u8; 17];
    assert_eq!(next_chunk_len(&zeros[..16], 8, 16, false, &cdc), None);
    assert_eq!(next_chunk_len(&zeros[..17], 8, 16, false, &cdc), Some(8));
    assert_eq!(next_chunk_len(&zeros[..16], 8, 16, true, &cdc), Some(8));
    assert_eq!(next_chunk_len(&zeros[..8], 8, 16, true, &cdc), Some(8));
    assert_eq!(next_chunk_len(&zeros[..5], 8, 16, true, &cdc), Some(5));
    assert_eq!(next_chunk_len(&[], 8, 16, true, &cdc), None);
    // A maximum below the window size.
    assert_eq!(next_chunk_len(&zeros, 1, 2, true, &cdc), Some(2));
}

#[test]
fn reader_is_kept() {
    let mut chunker = ReadChunker::new(Cursor::new(vec![1u8, 2, 3]), 1, 4, MinCdc4);
    assert_eq!(chunker.get_ref().position(), 0);
    chunker.get_mut().set_position(1);
    let chunk = read_next(&mut chunker).unwrap().unwrap().to_vec();
    assert_eq!(chunk, vec![2u8, 3]);
    assert_eq!(chunker.into_inner().position(), 3);
}

#[test]
fn steps_of_a_read_chunker() {
    let mut chunker = ReadChunker::new((), 2, 4, MinCdc4);
    assert!(matches!(chunker.next(), Ok(ReadStep::NeedInput)));
    let room = chunker.ensure().unwrap();
    assert_eq!(room, MIN_BUFFER_SIZE + 5 + 8);
    assert_eq!(chunker.on_read(ReadEvent::Data(&[1, 2])), ReadAction::Proceed);
    assert!(matches!(chunker.next(), Ok(ReadStep::NeedInput)));
    assert_eq!(chunker.ensure(), Some(room - 2));
    assert_eq!(chunker.on_read(ReadEvent::Data(&[])), ReadAction::Proceed);
    assert_eq!(chunker.ensure(), None);
    match chunker.next() {
        Ok(ReadStep::Chunk(chunk)) => assert_eq!(&chunk[..], &[1u8, 2]),
        _ => panic!("no chunk"),
    }
    // The end of input is remembered.
    assert_eq!(chunker.ensure(), None);
    assert!(matches!(chunker.next(), Ok(ReadStep::End)));
    assert!(matches!(chunker.next(), Ok(ReadStep::End)));
    assert_eq!(chunker.ensure(), None);
}

/// Yields no bytes once in the middle of its data.
struct EndsEarly {
    parts: Vec<Vec<u8>>,
}

impl Read for EndsEarly {
    fn read(&mut self, buf: &mut [u8]) -> io::Result<usize> {
        if self.parts.is_empty() {
            return Ok(0);
        }
        let part = self.parts.remove(0);
        buf[..part.len()].copy_from_slice(&part);
        Ok(part.len())
    }
}

#[test]
fn first_empty_read_ends_input() {
    let parts = vec![vec![1u8, 2, 3], Vec::new(), vec![4u8, 5], Vec::new()];
    let mut chunker = ReadChunker::new(EndsEarly { parts }, 8, 16, MinCdcHash4::new());
    {
        let chunk = read_next(&mut chunker).unwrap().unwrap();
        assert_eq!(chunk.offset(), 0);
        assert_eq!(&chunk[..], &[1u8, 2, 3]);
    }
    for _ in 0..3 {
        assert!(read_next(&mut chunker).unwrap().is_none());
    }
    // What stands behind the empty read was never asked for.
    assert_eq!(chunker.get_ref().parts.len(), 2);
}

#[test]
fn several_chunks_after_the_end() {
    let data: Vec<u8> = (0..40u8).collect();
    let parts = vec![data.clone(), Vec::new(), vec![0u8; 20]];
    let mut chunker = ReadChunker::new(EndsEarly { parts }, 8, 16, MinCdcHash4::new());
    let mut rebuilt = Vec::new();
    while let Some(chunk) = read_next(&mut chunker).unwrap() {
        rebuilt.extend_from_slice(&chunk);
    }
    assert_eq!(rebuilt, data);
}

#[test]
fn full_window_needs_no_read() {
    let mut chunker = ReadChunker::new((), 8, 16, MinCdcHash4::new());
    assert!(chunker.ensure().unwrap() > 0);
    assert_eq!(chunker.on_read(ReadEvent::Data(&[0u8; 16])), ReadAction::Proceed);
    assert!(chunker.ensure().is_some());
    assert_eq!(chunker.on_read(ReadEvent::Data(&[0u8; 1])), ReadAction::Proceed);
    assert_eq!(chunker.ensure(), None);
    assert!(matches!(chunker.next(), Ok(ReadStep::Chunk(_))));
    assert!(chunker.ensure().is_some());
}

#[test]
fn block_searches_come_within_four() {
    for size in 0..200usize {
        let bytes = random_bytes(size as u64 + 31, size);
        let (mul, add) = (DEFAULT_MULTIPLIER, DEFAULT_ADDEND);
        let want = scalar::argmin_u32_overlapping_hashed::<true>(&bytes, mul, add);
        for r in [
            simd::block16_within_four::<true>(&bytes, mul, add),
            simd::block32_within_four::<true>(&bytes, mul, add),
            simd::block64_within_four::<true>(&bytes, mul, add),
        ] {
            if size < 19 {
                assert_eq!(r, want);
            } else {
                assert!(r + 7 <= size && r <= want && want <= r + 3);
                let bump =
                    scalar::argmin_u32_overlapping_hashed_four::<true>(&bytes[r..], mul, add);
                assert_eq!(r + bump, want);
            }
        }
    }
}

#[test]
fn buffer_keeps_its_size() {
    let size = checked_buffer_size(8, 16).unwrap();
    let mut chunker = ReadChunker::new((), 8, 16, MinCdc4);
    // Fill the buffer, use it up but for less than a window, and ask for room.
    assert_eq!(chunker.ensure(), Some(size));
    assert_eq!(
        chunker.on_read(ReadEvent::Data(&vec![0u8; size])),
        ReadAction::Proceed
    );
    let mut pending = size;
    while pending > 16 {
        assert_eq!(chunker.ensure(), None);
        match chunker.next() {
            Ok(ReadStep::Chunk(chunk)) => pending -= chunk.len(),
            _ => panic!("no chunk"),
        }
    }
    assert_eq!(chunker.ensure(), Some(size - pending));
}
