use std::io::{Cursor, Read};

use mothcdc::caterpillar::{packed_repeats, SegmentStep};
use mothcdc::mincdc::{
    next_chunk_len, Error, MinCdc4, MinCdcHash4, ReadAction, ReadEvent, SliceChunker,
};
use mothcdc::{CaterpillarChunker, CaterpillarReadChunker, Chunk, Segment};

const MIN: usize = 2 * 1024;
const MAX: usize = 14 * 1024;

fn xorshift(seed: u64, n: usize) -> Vec<u8> {
    let mut s = seed | 1;
    (0..n)
        .map(|_| {
            s ^= s << 13;
            s ^= s >> 7;
            s ^= s << 17;
            (s >> 33) as u8
        })
        .collect()
}

/// Drives the caterpillar, asserts exact reconstruction and the same underlying
/// chunk count as plain chunking, and returns (plain_chunks, records).
fn measure(label: &str, data: &[u8], min: usize, max: usize) -> (usize, usize) {
    let cdc = MinCdcHash4::new();
    let plain = SliceChunker::new(data, min, max, cdc).collect().len();

    let mut records = 0usize;
    let mut expanded = 0usize;
    let mut next_off = 0usize;
    let mut rebuilt: Vec<u8> = Vec::with_capacity(data.len());
    for s in CaterpillarChunker::new(data, min, max, cdc).collect() {
        assert_eq!(s.offset() as usize, next_off, "{label}: offset not contiguous");
        records += 1;
        expanded += s.chunk_count() as usize;
        s.reconstruct_into(&mut rebuilt);
        next_off += s.len() as usize;
    }
    assert_eq!(rebuilt, data, "{label}: must reconstruct input exactly");
    assert_eq!(expanded, plain, "{label}: must represent same chunk count");
    (plain, records)
}

#[test]
fn collapses_low_entropy_and_is_noop_on_random() {
    // Zero-fill collapses to ~one record.
    let (plain, records) = measure("zero-fill 1MiB", &vec![0u8; 1024 * 1024], MIN, MAX);
    assert!(records * 10 < plain, "zero-fill should collapse");

    // Random has no adjacent-identical runs: a lossless no-op.
    let data = xorshift(1234, 1024 * 1024);
    let (plain, records) = measure("random 1MiB", &data, MIN, MAX);
    assert!(
        records as f64 >= plain as f64 * 0.98,
        "must not coalesce random"
    );
}

/// Pull every chunk from the plain chunker and coalesce byte-identical neighbors.
fn reference_segments(data: &[u8], min: usize, max: usize) -> Vec<(usize, Vec<u8>, usize)> {
    let mut out: Vec<(usize, Vec<u8>, usize)> = Vec::new();
    for c in SliceChunker::new(data, min, max, MinCdcHash4::new()).collect() {
        match out.last_mut() {
            Some((_, unit, count)) if unit[..] == c[..] => *count += 1,
            _ => out.push((c.offset() as usize, c.to_vec(), 1)),
        }
    }
    out
}

fn assert_matches_reference(label: &str, data: &[u8], min: usize, max: usize) {
    let got: Vec<(usize, Vec<u8>, usize)> =
        CaterpillarChunker::new(data, min, max, MinCdcHash4::new())
            .collect()
            .into_iter()
            .map(|s| match s {
                Segment::Solo(c) => (c.offset() as usize, c.to_vec(), 1),
                Segment::Caterpillar {
                    offset,
                    unit,
                    count,
                } => (offset as usize, unit.to_vec(), count as usize),
            })
            .collect();
    let want = reference_segments(data, min, max);
    assert_eq!(got, want, "{label} (min={min} max={max})");
}

/// Every claimed repeat must be exactly the chunk that the boundary search would
/// produce: same length, same bytes, under both the slice (eof) and streaming
/// (non-eof) decision branches. The break position sweeps every byte of small
/// periodic buffers.
#[test]
fn packed_repeats_claims_only_provable_chunks() {
    let cdc = MinCdcHash4::new();
    for period in [1usize, 2, 3, 5, 8, 13] {
        let unit = xorshift(period as u64 + 40, period);
        let mut base = Vec::new();
        while base.len() < 2000 {
            base.extend_from_slice(&unit);
        }
        base.truncate(2000);

        // break_pos == base.len() means "no break" (pure periodic).
        for break_pos in 0..=base.len() {
            let mut data = base.clone();
            if break_pos < data.len() {
                data[break_pos] ^= 0xA5;
            }
            for (min, max) in [(16usize, 40usize), (16, 16), (20, 24)] {
                let u0 = next_chunk_len(&data, min, max, true, &cdc)
                    .expect("non-empty input at eof always chunks");
                let claimed = packed_repeats(&data, u0, max);
                for k in 1..=claimed {
                    let tail = &data[k * u0..];
                    assert_eq!(
                        next_chunk_len(tail, min, max, true, &cdc),
                        Some(u0),
                        "claimed chunk diverges from slow path (eof): period={period} break={break_pos} min={min} max={max} k={k}/{claimed} u0={u0}"
                    );
                    assert_eq!(
                        next_chunk_len(tail, min, max, false, &cdc),
                        Some(u0),
                        "claimed chunk diverges from slow path (streaming): period={period} break={break_pos} min={min} max={max} k={k}/{claimed} u0={u0}"
                    );
                    assert_eq!(
                        &tail[..u0],
                        &data[..u0],
                        "claimed chunk bytes differ from unit: period={period} break={break_pos} min={min} max={max} k={k}/{claimed} u0={u0}"
                    );
                }
            }
        }
    }
}

#[test]
fn packed_fast_path_matches_reference() {
    const N: usize = 256 * 1024;
    let mut corpora: Vec<(String, Vec<u8>)> = vec![
        ("zeros".into(), vec![0u8; N]),
        ("const-0xAB".into(), vec![0xABu8; N]),
        ("random".into(), xorshift(7, N)),
        ("tiny-zeros".into(), vec![0u8; 100]),
        // Barely more than one decision window: almost every chunk is
        // end-affected.
        ("small-zeros".into(), vec![0u8; 20_000]),
    ];
    for period in [1usize, 3, 4, 5, 100, 777, 2048, 2500, 5000] {
        let unit = xorshift(period as u64, period);
        let mut data = Vec::with_capacity(N + period);
        while data.len() < N {
            data.extend_from_slice(&unit);
        }
        data.truncate(N);
        corpora.push((format!("periodic-{period}"), data));
    }
    // Break the period at adversarial positions: inside the final decision
    // window (straddling the fast path's cutoff), right at it, and mid-run.
    {
        let unit = xorshift(99, 777);
        let mut data = Vec::new();
        while data.len() < N {
            data.extend_from_slice(&unit);
        }
        data.truncate(N);
        for pos in [
            N - 1,
            N - 100,
            N - MAX,
            N - MAX - 1,
            N - MAX + 1,
            N / 2,
            MAX,
            MAX + 1,
            MIN,
        ] {
            let mut d = data.clone();
            d[pos] ^= 0xFF;
            corpora.push((format!("periodic-777-break@{pos}"), d));
        }
    }
    // A run embedded in random data: the fast path starts and ends mid-stream.
    {
        let mut d = xorshift(3, N);
        for b in &mut d[64 * 1024..192 * 1024] {
            *b = 0;
        }
        corpora.push(("random+zero-hole".into(), d));
    }

    for (label, data) in &corpora {
        for (min, max) in [(MIN, MAX), (2048, 2200), (64, 256), (16, 16), (4, 20)] {
            assert_matches_reference(label, data, min, max);
        }
    }
}

#[test]
fn random_periodic_data_matches_reference() {
    for case in 0..200u64 {
        let knobs = xorshift(case + 5000, 16);
        let period = 1 + knobs[0] as usize + knobs[1] as usize;
        let reps = 2 + knobs[2] as usize % 62;
        let min = 4 + knobs[3] as usize;
        let max = min + knobs[4] as usize;
        let unit = xorshift(case | 1, period);
        let mut data = xorshift(case ^ 0xDEAD, knobs[5] as usize * 2);
        for _ in 0..reps {
            data.extend_from_slice(&unit);
        }
        if knobs[6] % 2 == 0 {
            let pos = (knobs[7] as usize * 256 + knobs[8] as usize) % data.len();
            data[pos] ^= 0xFF;
        }
        assert_matches_reference("periodic", &data, min, max);
    }
}

#[test]
fn self_aligns_and_collapses_periodic_data() {
    // Boundaries self-align to periods when a period multiple fits in
    // [min, max], so consecutive chunks are byte-identical.
    let period = xorshift(42, 777);
    let mut data = Vec::new();
    while data.len() < 4 * 1024 * 1024 {
        data.extend_from_slice(&period);
    }
    let (plain, records) = measure("period777 wide", &data, MIN, MAX);
    assert!(
        records * 20 < plain,
        "tier-1 collapses self-aligned periodic data"
    );
}

#[test]
fn zero_run_is_one_record() {
    let data = vec![0u8; 64 * 4096];
    let segs = CaterpillarChunker::new(&data, 4096, 12288, MinCdcHash4::new()).collect();
    assert_eq!(segs.len(), 1);
    assert!(segs[0].is_caterpillar());
    assert_eq!(segs[0].len(), data.len() as u64);
    assert_eq!(segs[0].chunk_count(), 64);
    assert_eq!(segs[0].dedup_key(), &[0u8; 4096][..]);

    let mut chunker = CaterpillarChunker::new(&data, 4096, 12288, MinCdcHash4::new());
    assert!(chunker.next().is_some());
    assert!(chunker.next().is_none());
    assert!(chunker.next().is_none());

    let data = vec![0u8; 64 * 2048];
    let segs = CaterpillarChunker::new(&data, 2048, 14336, MinCdcHash4::new()).collect();
    assert_eq!(segs.len(), 1);
    assert!(matches!(segs[0], Segment::Caterpillar { .. }));
    assert!(segs[0].dedup_key().iter().all(|&b| b == 0));
}

#[test]
fn streaming_example() {
    let data = vec![0u8; 128 * 4096];
    let mut chunker =
        CaterpillarReadChunker::new(Cursor::new(&data), 4096, 12288, MinCdcHash4::new());
    let mut scratch = vec![0u8; 65536];
    let mut restored = Vec::new();
    loop {
        while let Some(room) = chunker.ensure() {
            let n = room.min(scratch.len());
            let k = chunker.get_mut().read(&mut scratch[..n]).unwrap();
            assert_eq!(chunker.on_read(ReadEvent::Data(&scratch[..k])), ReadAction::Proceed);
        }
        match chunker.next().unwrap() {
            SegmentStep::Segment(segment) => segment.reconstruct_into(&mut restored),
            SegmentStep::End => break,
            SegmentStep::NeedInput => panic!("filled chunker needs input"),
        }
    }
    assert_eq!(restored, data);
    assert_eq!(chunker.get_ref().position(), data.len() as u64);
    assert_eq!(chunker.into_inner().position(), data.len() as u64);
}

#[test]
fn segments_by_hand() {
    let solo = Segment::Solo(Chunk::new(&[1, 2, 3], 7));
    assert_eq!(
        (solo.offset(), solo.chunk_count(), solo.len()),
        (7, 1, 3)
    );
    assert!(!solo.is_empty());
    assert!(!solo.is_caterpillar());
    assert_eq!(solo.dedup_key(), &[1, 2, 3]);
    let run = Segment::Caterpillar {
        offset: 10,
        unit: &[4, 5],
        count: 3,
    };
    assert_eq!((run.offset(), run.chunk_count(), run.len()), (10, 3, 6));
    assert!(run.is_caterpillar());
    let mut out = vec![9u8];
    solo.reconstruct_into(&mut out);
    run.reconstruct_into(&mut out);
    assert_eq!(out, vec![9u8, 1, 2, 3, 4, 5, 4, 5, 4, 5]);
    assert!(Segment::Solo(Chunk::new(&[], 0)).is_empty());
}

#[test]
fn exact_repeat_counts() {
    // 100 bytes of one value, unit of 10, windows of 20: the last decision
    // window may end at byte 99, so (99 - 20) / 10 repeats are sure.
    assert_eq!(packed_repeats(&[5u8; 100], 10, 20), 7);
    let mut data = [5u8; 100];
    data[60] = 6;
    assert_eq!(packed_repeats(&data, 10, 20), 4);
    assert_eq!(packed_repeats(&data, 0, 20), 0);
    assert_eq!(packed_repeats(&data, 100, 20), 0);
    let pattern: Vec<u8> = (0..100).map(|i| (i % 10) as u8).collect();
    assert_eq!(packed_repeats(&pattern, 10, 20), 7);
    assert_eq!(packed_repeats(&pattern, 7, 20), 0);
}

#[test]
fn steps_of_a_streaming_caterpillar() {
    let mut chunker = CaterpillarReadChunker::new((), 4, 6, MinCdc4);
    assert!(matches!(chunker.next(), Ok(SegmentStep::NeedInput)));
    assert!(chunker.ensure().unwrap() > 6);
    assert_eq!(chunker.on_read(ReadEvent::Interrupted), ReadAction::Retry);
    assert_eq!(chunker.on_read(ReadEvent::Failed), ReadAction::Report);
    assert_eq!(chunker.on_read(ReadEvent::Data(&[0u8; 14])), ReadAction::Proceed);
    assert_eq!(chunker.ensure(), None);
    // 14 bytes decide the chunks at 0 and 4; the one at 8 has no full window.
    match chunker.next() {
        Ok(SegmentStep::Segment(s)) => {
            assert_eq!((s.offset(), s.len(), s.chunk_count()), (0, 8, 2))
        }
        _ => panic!("no segment"),
    }
    assert!(chunker.ensure().is_some());
    assert_eq!(chunker.on_read(ReadEvent::Data(&[])), ReadAction::Proceed);
    match chunker.next() {
        Ok(SegmentStep::Segment(s)) => {
            assert_eq!((s.offset(), s.len(), s.chunk_count()), (8, 4, 1))
        }
        _ => panic!("no segment"),
    }
    // The end of input is remembered.
    assert_eq!(chunker.ensure(), None);
    match chunker.next() {
        Ok(SegmentStep::Segment(s)) => {
            assert_eq!((s.offset(), s.len(), s.chunk_count()), (12, 2, 1))
        }
        _ => panic!("no segment"),
    }
    assert!(matches!(chunker.next(), Ok(SegmentStep::End)));
    assert!(matches!(chunker.next(), Ok(SegmentStep::End)));
}

#[test]
fn fallible_caterpillar_constructor() {
    match CaterpillarReadChunker::try_new((), 5, 4, MinCdc4) {
        Err(e) => assert_eq!(e, Error::InvalidSizes),
        Ok(_) => panic!("accepted"),
    }
    match CaterpillarReadChunker::try_new((), 0, usize::MAX, MinCdc4) {
        Err(e) => assert_eq!(e, Error::InvalidSizes),
        Ok(_) => panic!("accepted"),
    }
    assert!(CaterpillarReadChunker::try_new((), 4, 5, MinCdc4).is_ok());
}
