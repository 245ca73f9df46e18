//! The chunkers against structural invariants and an independent brute-force
//! oracle, using only the public interface.

use std::collections::HashSet;
use std::io::{self, Read};

use mothcdc::mincdc::{
    Cdc, MinCdc4, MinCdcHash4, ReadAction, ReadChunker, ReadEvent, ReadStep, SliceChunker,
};

const WINDOW: usize = 4;

// Fixed hash parameters for the oracle to mirror (multiplier must be odd).
const HASH_M: u32 = 0x915f_77f5;
const HASH_A: u32 = 0x3463_6463;

#[derive(Clone, Copy, Debug)]
enum Mode {
    Plain,
    Hashed,
}

fn hash_params(mode: Mode) -> Option<(u32, u32)> {
    match mode {
        Mode::Plain => None,
        Mode::Hashed => Some((HASH_M, HASH_A)),
    }
}

fn evaluate(window: &[u8], hash: Option<(u32, u32)>) -> u32 {
    let v = u32::from_le_bytes(window.try_into().unwrap());
    match hash {
        Some((m, a)) => v.wrapping_mul(m).wrapping_add(a),
        None => v,
    }
}

/// The documented algorithm, written as plainly as possible. Returns the chunk
/// boundaries as `(offset, len)` pairs.
fn oracle_chunks(
    bytes: &[u8],
    min: usize,
    max: usize,
    hash: Option<(u32, u32)>,
) -> Vec<(usize, usize)> {
    assert!(min <= max && max > 0);
    let mut chunks = Vec::new();
    let mut s = 0usize;
    while s < bytes.len() {
        let left = bytes.len() - s;

        // The final chunk may be shorter than min_size.
        if left <= min {
            chunks.push((s, left));
            break;
        }

        let start = s + min.saturating_sub(WINDOW);
        let stop = (s + max).min(bytes.len());
        let search = &bytes[start..stop];

        let ideal = if search.len() < WINDOW {
            search.len()
        } else {
            // Earliest window minimizing the evaluation (ties -> earliest).
            let mut best_i = 0usize;
            let mut best_v = u32::MAX;
            for i in 0..=search.len() - WINDOW {
                let v = evaluate(&search[i..i + WINDOW], hash);
                if v < best_v {
                    best_v = v;
                    best_i = i;
                }
            }
            WINDOW + best_i
        };

        let split = start + ideal;
        assert!(split > s && split <= bytes.len());
        chunks.push((s, split - s));
        s = split;
    }
    chunks
}

fn slice_chunks(data: &[u8], min: usize, max: usize, mode: Mode) -> Vec<(usize, usize)> {
    fn collect<C: Cdc>(data: &[u8], min: usize, max: usize, cdc: C) -> Vec<(usize, usize)> {
        SliceChunker::new(data, min, max, cdc)
            .collect()
            .iter()
            .map(|c| (c.offset() as usize, c.len()))
            .collect()
    }
    match mode {
        Mode::Plain => collect(data, min, max, MinCdc4::new()),
        Mode::Hashed => collect(data, min, max, MinCdcHash4::with_params(HASH_M, HASH_A)),
    }
}

/// A `Read` impl that yields at most `step` bytes per call, to stress the
/// buffering/refill logic (which `Cursor` never exercises).
struct ChokedReader<'a> {
    data: &'a [u8],
    pos: usize,
    step: usize,
}

impl<'a> Read for ChokedReader<'a> {
    fn read(&mut self, buf: &mut [u8]) -> io::Result<usize> {
        let n = self.step.min(buf.len()).min(self.data.len() - self.pos);
        buf[..n].copy_from_slice(&self.data[self.pos..self.pos + n]);
        self.pos += n;
        Ok(n)
    }
}

/// Reads until the chunker can go on.
fn fill<R: Read, C: Cdc>(chunker: &mut ReadChunker<R, C>, scratch: &mut [u8]) -> io::Result<()> {
    while let Some(room) = chunker.ensure() {
        let n = room.min(scratch.len());
        match chunker.get_mut().read(&mut scratch[..n]) {
            Ok(k) => {
                assert_eq!(chunker.on_read(ReadEvent::Data(&scratch[..k])), ReadAction::Proceed);
            }
            Err(e) if e.kind() == io::ErrorKind::Interrupted => {
                assert_eq!(chunker.on_read(ReadEvent::Interrupted), ReadAction::Retry);
            }
            Err(e) => {
                assert_eq!(chunker.on_read(ReadEvent::Failed), ReadAction::Report);
                return Err(e);
            }
        }
    }
    Ok(())
}

fn read_chunks(
    data: &[u8],
    min: usize,
    max: usize,
    mode: Mode,
    step: usize,
) -> Vec<(usize, usize)> {
    fn collect<C: Cdc>(
        data: &[u8],
        min: usize,
        max: usize,
        cdc: C,
        step: usize,
    ) -> Vec<(usize, usize)> {
        let reader = ChokedReader { data, pos: 0, step };
        let mut chunker = ReadChunker::new(reader, min, max, cdc);
        let mut scratch = vec![0u8; 4096];
        let mut out = Vec::new();
        loop {
            fill(&mut chunker, &mut scratch).unwrap();
            match chunker.next().unwrap() {
                ReadStep::Chunk(chunk) => out.push((chunk.offset() as usize, chunk.len())),
                ReadStep::End => return out,
                ReadStep::NeedInput => panic!("filled chunker needs input"),
            }
        }
    }
    match mode {
        Mode::Plain => collect(data, min, max, MinCdc4::new(), step),
        Mode::Hashed => collect(
            data,
            min,
            max,
            MinCdcHash4::with_params(HASH_M, HASH_A),
            step,
        ),
    }
}

fn assert_structural(chunks: &[(usize, usize)], input_len: usize, min: usize, max: usize) {
    if input_len == 0 {
        assert!(chunks.is_empty(), "empty input must yield no chunks");
        return;
    }

    let mut expected_offset = 0usize;
    for (i, &(off, len)) in chunks.iter().enumerate() {
        // Contiguous, gap-free, in order.
        assert_eq!(off, expected_offset, "chunk {i} offset not contiguous");
        // No empty chunks.
        assert!(len > 0, "chunk {i} is empty");
        // Maximum size is *always* respected.
        assert!(len <= max, "chunk {i} len {len} exceeds max {max}");
        // Every chunk but the last respects the minimum.
        if i + 1 < chunks.len() {
            assert!(len >= min, "non-final chunk {i} len {len} below min {min}");
        }
        expected_offset += len;
    }
    // Full coverage: chunks tile the entire input.
    assert_eq!(expected_offset, input_len, "chunks do not cover input");
}

/// Run every applicable invariant and the oracle differential for one config.
fn check_all(data: &[u8], min: usize, max: usize, mode: Mode) {
    let got = slice_chunks(data, min, max, mode);

    assert_structural(&got, data.len(), min, max);

    // Determinism: chunking is a pure function of (data, min, max, params).
    let again = slice_chunks(data, min, max, mode);
    assert_eq!(got, again, "chunking is not deterministic");

    // Differential vs the independent oracle.
    let want = oracle_chunks(data, min, max, hash_params(mode));
    assert_eq!(
        got,
        want,
        "slice chunker disagrees with oracle (mode={mode:?}, min={min}, max={max}, len={})",
        data.len()
    );

    // ReadChunker must match SliceChunker, even with a choked reader.
    for &step in &[1usize, 3, 7, 64, 4096] {
        let read = read_chunks(data, min, max, mode, step);
        assert_eq!(
            read, got,
            "read chunker (step={step}) disagrees with slice chunker (mode={mode:?})"
        );
    }
}

fn corpus() -> Vec<Vec<u8>> {
    let mut v: Vec<Vec<u8>> = Vec::new();
    // Degenerate sizes.
    for n in [
        0usize, 1, 2, 3, 4, 5, 7, 8, 15, 16, 17, 31, 32, 33, 63, 64, 65, 100, 1000,
    ] {
        v.push(vec![0u8; n]); // all zeros (global min for Plain mode)
        v.push(vec![0xFFu8; n]); // all 0xFF (global max)
        v.push((0..n).map(|i| i as u8).collect()); // counter
    }
    // Periodic patterns with periods near WINDOW / typical sizes.
    for period in [1usize, 2, 3, 4, 5, 6, 7, 8, 16, 31, 32] {
        let pat: Vec<u8> = (0..2048).map(|i| (i % period) as u8).collect();
        v.push(pat);
    }
    // A long zero run embedded in random data (ties everywhere in Plain mode).
    {
        let mut seed = 0xC0FFEEu32;
        let mut rng = || {
            seed = seed.wrapping_mul(1664525).wrapping_add(1013904223);
            (seed >> 24) as u8
        };
        let mut buf: Vec<u8> = (0..4096).map(|_| rng()).collect();
        for b in buf.iter_mut().take(2048).skip(1024) {
            *b = 0;
        }
        v.push(buf);
    }
    v
}

#[test]
fn corpus_all_invariants() {
    let sizes = [
        (4usize, 4usize),
        (4, 8),
        (8, 16),
        (16, 64),
        (32, 32),
        (50, 200),
    ];
    for data in corpus() {
        for &(min, max) in &sizes {
            check_all(&data, min, max, Mode::Plain);
            check_all(&data, min, max, Mode::Hashed);
        }
    }
}

fn xorshift_bytes(seed: u64, n: usize) -> Vec<u8> {
    let mut s = seed | 1;
    (0..n)
        .map(|_| {
            s ^= s << 13;
            s ^= s >> 7;
            s ^= s << 17;
            (s >> 33) as u8
        })
        .collect()
}

#[test]
fn large_random_differential() {
    // Large min/max so each search window is big enough to drive the widest
    // blocks.
    let configs = [
        (4usize, 4usize),
        (64, 256),
        (256, 1024),
        (1024, 4096),
        (4096, 4097),
    ];
    for seed in 0..8u64 {
        let data = xorshift_bytes(seed.wrapping_add(1), 256 * 1024);
        for &(min, max) in &configs {
            check_all(&data, min, max, Mode::Plain);
            check_all(&data, min, max, Mode::Hashed);
        }
    }
}

#[test]
fn random_sizes_and_limits() {
    let mut s = 0x9e37_79b9_7f4a_7c15u64;
    let mut rand = |n: usize| {
        s ^= s << 13;
        s ^= s >> 7;
        s ^= s << 17;
        (s >> 33) as usize % n
    };
    for case in 0..40u64 {
        let data = xorshift_bytes(case + 900, rand(8192));
        let min = rand(400);
        let max = (min + rand(400)).max(1);
        check_all(&data, min, max, Mode::Plain);
        check_all(&data, min, max, Mode::Hashed);
    }
}

/// Insert `blob` into `data` at position `p`.
fn insert_at(data: &[u8], p: usize, blob: &[u8]) -> Vec<u8> {
    let mut out = Vec::with_capacity(data.len() + blob.len());
    out.extend_from_slice(&data[..p]);
    out.extend_from_slice(blob);
    out.extend_from_slice(&data[p..]);
    out
}

/// Any chunk whose entire decision window lies before the edit
/// (offset + max <= p) is preserved byte-for-byte.
#[test]
fn locality_prefix_is_preserved() {
    for mode in [Mode::Plain, Mode::Hashed] {
        for seed in 0..16u64 {
            let data = xorshift_bytes(seed + 100, 16384);
            let (min, max) = (64usize, 256usize);
            let p = ((seed as usize) * 997) % data.len();
            let blob = xorshift_bytes(seed + 555, 1 + (seed as usize % 200));
            let edited = insert_at(&data, p, &blob);

            let base = slice_chunks(&data, min, max, mode);
            let after = slice_chunks(&edited, min, max, mode);
            let after_starts: HashSet<usize> = after.iter().map(|&(o, _)| o).collect();

            for &(off, len) in &base {
                if off + max <= p {
                    assert!(
                        after_starts.contains(&off),
                        "boundary at {off} lost after edit at {p} (mode={mode:?})"
                    );
                    // And the chunk content is identical (same len at same offset).
                    let same_len = after.iter().any(|&(o, l)| o == off && l == len);
                    assert!(same_len, "chunk at {off} changed despite being before edit");
                }
            }
        }
    }
}

/// After an edit, how much of the tail resynchronizes? Only an aggregate floor
/// is asserted.
#[test]
fn locality_resync_metric() {
    let mode = Mode::Hashed; // the recommended, well-behaved default
    let (min, max) = (32usize, 128usize);

    let mut total_tail = 0usize;
    let mut matched_tail = 0usize;
    let trials = 200u64;

    for seed in 0..trials {
        let data = xorshift_bytes(seed + 7, 32768);
        let p = ((seed as usize) * 1234577) % data.len();
        let k = 1 + (seed as usize % 97);
        let blob = xorshift_bytes(seed + 31, k);
        let edited = insert_at(&data, p, &blob);

        let base = slice_chunks(&data, min, max, mode);
        let after = slice_chunks(&edited, min, max, mode);
        let after_starts: HashSet<usize> = after.iter().map(|&(o, _)| o).collect();

        // Consider base boundaries well past the edit; their counterpart in the
        // edited stream should be at offset + k once resynchronized.
        for &(off, _) in &base {
            if off >= p + max {
                total_tail += 1;
                if after_starts.contains(&(off + k)) {
                    matched_tail += 1;
                }
            }
        }
    }

    let ratio = matched_tail as f64 / total_tail.max(1) as f64;
    println!("resync: {matched_tail}/{total_tail} tail boundaries realigned ({ratio:.3})");
    assert!(
        ratio > 0.7,
        "tail resynchronization collapsed: only {ratio:.3} of boundaries realigned"
    );
}
