//! End-to-end dedup round-trip from the user's perspective: chunk, store each
//! segment's `dedup_key()` under its hash, then restore purely from the store
//! and a manifest by tiling the stored bytes to `len`.

use std::collections::HashMap;
use std::io::{self, Cursor, Read};

use mothcdc::caterpillar::SegmentStep;
use mothcdc::mincdc::{
    Cdc, MinCdcHash4, ReadAction, ReadChunker, ReadEvent, ReadStep, SliceChunker,
};
use mothcdc::{CaterpillarChunker, CaterpillarReadChunker, Segment};

fn fnv1a(b: &[u8]) -> u64 {
    let mut h: u64 = 0xcbf29ce484222325;
    for &x in b {
        h ^= x as u64;
        h = h.wrapping_mul(0x100000001b3);
    }
    h
}

fn xorshift(seed: u64, n: usize) -> Vec<u8> {
    let mut s = seed | 1;
    (0..n)
        .map(|_| {
            s ^= s << 13;
            s ^= s >> 7;
            s ^= s << 17;
            (s >> 33) as u8
        })
        .collect()
}

fn build(data: &[u8], min: usize, max: usize) -> Vec<Segment<'_>> {
    CaterpillarChunker::new(data, min, max, MinCdcHash4::new()).collect()
}

fn assert_roundtrip(label: &str, data: &[u8], min: usize, max: usize) {
    let tag = format!("{label} (min={min} max={max})");

    // --- ingest ---
    let mut store: HashMap<u64, Vec<u8>> = HashMap::new();
    let mut manifest: Vec<(u64, usize)> = Vec::new(); // (key_hash, logical_len)
    let mut next_off = 0usize;
    for seg in build(data, min, max) {
        assert_eq!(seg.offset() as usize, next_off, "{tag}: non-contiguous offset");
        assert!(!seg.is_empty(), "{tag}: empty segment");
        let key = seg.dedup_key();
        let h = fnv1a(key);
        store.entry(h).or_insert_with(|| key.to_vec());
        manifest.push((h, seg.len() as usize));
        next_off += seg.len() as usize;
    }
    assert_eq!(next_off, data.len(), "{tag}: coverage gap");

    // The caterpillar must represent exactly the same underlying chunks as plain
    // chunking: it only groups them, never adds or drops any.
    let plain = SliceChunker::new(data, min, max, MinCdcHash4::new()).collect().len();
    let expanded: usize = build(data, min, max)
        .iter()
        .map(|s| s.chunk_count() as usize)
        .sum();
    assert_eq!(
        expanded, plain,
        "{tag}: chunk_count {expanded} != plain {plain}"
    );

    // --- restore from store + manifest only (the documented path) ---
    let mut restored = Vec::with_capacity(data.len());
    for (h, len) in &manifest {
        let bytes = store
            .get(h)
            .expect("manifest references a chunk not in the store");
        let mut w = 0;
        while w < *len {
            let take = bytes.len().min(*len - w);
            restored.extend_from_slice(&bytes[..take]);
            w += take;
        }
    }
    assert_eq!(restored, data, "{tag}: store round-trip corrupted the data");

    // --- reconstruct_into helper must agree too ---
    let mut via_helper = Vec::with_capacity(data.len());
    for seg in build(data, min, max) {
        seg.reconstruct_into(&mut via_helper);
    }
    assert_eq!(via_helper, data, "{tag}: reconstruct_into mismatch");
}

fn corpora() -> Vec<(&'static str, Vec<u8>)> {
    let mut periodic = Vec::new();
    let p = xorshift(9, 777);
    while periodic.len() < 1024 * 1024 {
        periodic.extend_from_slice(&p);
    }
    let mut holed = xorshift(2, 1024 * 1024);
    for b in holed[256 * 1024..768 * 1024].iter_mut() {
        *b = 0;
    }
    // A period break near the end of the stream: at the run's tail the decision
    // windows straddle the break, which is exactly where the packed-scanning
    // fast path must hand back to the search.
    let mut broken = periodic.clone();
    let blen = broken.len();
    broken[blen - 10_000] ^= 0xFF;
    vec![
        ("random", xorshift(1, 1024 * 1024)),
        ("zeros", vec![0u8; 1024 * 1024]),
        ("const-0xAB", vec![0xABu8; 1024 * 1024]),
        ("periodic-777", periodic),
        ("periodic-777-break", broken),
        ("random+zero-hole", holed),
        ("tiny", xorshift(5, 100)),
        ("empty", Vec::new()),
    ]
}

#[test]
fn roundtrip_wide_and_narrow() {
    for (name, data) in corpora() {
        // Wide window (normal CDC) and a narrow window.
        assert_roundtrip(name, &data, 2048, 14336);
        assert_roundtrip(name, &data, 2048, 2200);
    }
}

/// A reader that returns at most `step` bytes per call, to exercise the streaming
/// chunker's buffer refill/shift logic (and its reader-dependent run splitting).
struct ChokedReader<'a> {
    data: &'a [u8],
    pos: usize,
    step: usize,
}

impl Read for ChokedReader<'_> {
    fn read(&mut self, buf: &mut [u8]) -> io::Result<usize> {
        let n = self.step.min(buf.len()).min(self.data.len() - self.pos);
        buf[..n].copy_from_slice(&self.data[self.pos..self.pos + n]);
        self.pos += n;
        Ok(n)
    }
}

fn fill_plain<R: Read, C: Cdc>(chunker: &mut ReadChunker<R, C>, scratch: &mut [u8]) {
    while let Some(room) = chunker.ensure() {
        let n = room.min(scratch.len());
        let k = chunker.get_mut().read(&mut scratch[..n]).unwrap();
        assert_eq!(chunker.on_read(ReadEvent::Data(&scratch[..k])), ReadAction::Proceed);
    }
}

fn fill<R: Read, C: Cdc>(chunker: &mut CaterpillarReadChunker<R, C>, scratch: &mut [u8]) {
    while let Some(room) = chunker.ensure() {
        let n = room.min(scratch.len());
        let k = chunker.get_mut().read(&mut scratch[..n]).unwrap();
        assert_eq!(chunker.on_read(ReadEvent::Data(&scratch[..k])), ReadAction::Proceed);
    }
}

/// Drives the streaming caterpillar over `reader`, asserting contiguity, lossless
/// reconstruction, exact coverage, and that it represents the same underlying
/// chunk count as plain chunking.
fn assert_stream_roundtrip<R: Read>(tag: &str, reader: R, data: &[u8], min: usize, max: usize) {
    let cdc = MinCdcHash4::new();
    let plain = SliceChunker::new(data, min, max, cdc).collect().len();
    let mut rc = CaterpillarReadChunker::new(reader, min, max, cdc);
    let mut scratch = vec![0u8; 1024 * 1024];
    let (mut next_off, mut chunks) = (0usize, 0usize);
    let mut rebuilt = Vec::with_capacity(data.len());
    loop {
        fill(&mut rc, &mut scratch);
        match rc.next().unwrap() {
            SegmentStep::Segment(s) => {
                assert_eq!(s.offset() as usize, next_off, "{tag}: non-contiguous");
                assert!(!s.is_empty(), "{tag}: empty segment");
                chunks += s.chunk_count() as usize;
                next_off += s.len() as usize;
                s.reconstruct_into(&mut rebuilt);
            }
            SegmentStep::End => break,
            SegmentStep::NeedInput => panic!("{tag}: filled chunker needs input"),
        }
    }
    assert_eq!(rebuilt, data, "{tag}: stream round-trip corrupted data");
    assert_eq!(next_off, data.len(), "{tag}: coverage gap");
    assert_eq!(
        chunks, plain,
        "{tag}: chunk_count {chunks} != plain {plain}"
    );
}

#[test]
fn streaming_chunk_boundaries_match_plain_mincdc() {
    // The streaming caterpillar uses the SAME content-defined chunk boundaries
    // as plain ReadChunker, so cross-machine dedup is equivalent, not merely
    // lossless.
    let mut scratch = vec![0u8; 1024 * 1024];
    for (name, data) in corpora() {
        for (min, max) in [(2048usize, 14336usize), (2048, 2200), (64, 256)] {
            let cdc = MinCdcHash4::new();

            let mut plain = Vec::new();
            let mut rc = ReadChunker::new(Cursor::new(&data), min, max, cdc);
            loop {
                fill_plain(&mut rc, &mut scratch);
                match rc.next().unwrap() {
                    ReadStep::Chunk(c) => plain.push((c.offset() as usize, c.len())),
                    ReadStep::End => break,
                    ReadStep::NeedInput => panic!("filled chunker needs input"),
                }
            }

            // Expand the streaming caterpillar's segments back to per-chunk
            // boundaries; they must match plain chunking exactly.
            let mut expanded = Vec::new();
            let mut sc = CaterpillarReadChunker::new(Cursor::new(&data), min, max, cdc);
            loop {
                fill(&mut sc, &mut scratch);
                match sc.next().unwrap() {
                    SegmentStep::Segment(Segment::Solo(c)) => {
                        expanded.push((c.offset() as usize, c.len()))
                    }
                    SegmentStep::Segment(Segment::Caterpillar {
                        offset,
                        unit,
                        count,
                    }) => {
                        for i in 0..count as usize {
                            expanded.push((offset as usize + i * unit.len(), unit.len()));
                        }
                    }
                    SegmentStep::End => break,
                    SegmentStep::NeedInput => panic!("filled chunker needs input"),
                }
            }

            assert_eq!(
                plain, expanded,
                "{name} (min={min} max={max}): boundaries differ"
            );
        }
    }
}

#[test]
fn streaming_caterpillar_roundtrips() {
    for (name, data) in corpora() {
        for (min, max) in [(2048usize, 14336usize), (2048, 2200), (64, 256)] {
            // One big read (Cursor) and a hostile 1-byte reader: the run splits
            // land differently, but both must be lossless and fully cover.
            assert_stream_roundtrip(
                &format!("{name}/cursor"),
                Cursor::new(&data),
                &data,
                min,
                max,
            );
            let choked = ChokedReader {
                data: &data,
                pos: 0,
                step: 1,
            };
            assert_stream_roundtrip(&format!("{name}/choked"), choked, &data, min, max);
        }
    }
}

#[test]
fn random_roundtrips() {
    for case in 0..60u64 {
        let knobs = xorshift(case + 77, 64);
        let min = 16 + knobs[40] as usize + knobs[41] as usize;
        let extra = knobs[42] as usize * 2;
        let step = 1 + knobs[43] as usize * 16;
        let data = xorshift(case + 1, knobs[44] as usize * 32);
        assert_roundtrip("random", &data, min, min + extra);
        let choked = ChokedReader {
            data: &data,
            pos: 0,
            step,
        };
        assert_stream_roundtrip("random-stream", choked, &data, min, min + extra);
    }
}
