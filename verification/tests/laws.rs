//! The laws of the library on concrete values.

use mothcdc::caterpillar::packed_repeats;
use mothcdc::mincdc::{next_chunk_len, MinCdc4, MinCdcHash4, SliceChunker};
use mothcdc::{CaterpillarChunker, Segment};

fn lcg(seed: u32, n: usize) -> Vec<u8> {
    let mut s = seed;
    (0..n)
        .map(|_| {
            s = s.wrapping_mul(1664525).wrapping_add(1013904223);
            (s >> 24) as u8
        })
        .collect()
}

#[test]
fn boundary_is_the_first_minimum() {
    //             0  1  2  3  4  5  6  7  8  9 10 11
    let data = [9u8, 9, 9, 9, 0, 0, 0, 0, 9, 0, 0, 0];
    let cdc = MinCdc4::new();
    // The window at 4 is zero; chunks end behind it if 8 is allowed.
    assert_eq!(next_chunk_len(&data, 4, 12, true, &cdc), Some(8));
    assert_eq!(next_chunk_len(&data, 8, 12, true, &cdc), Some(8));
    // Behind 8: 0x09000000 at 5, 0x00090000 at 6, 0x00000900 at 7, 9 at 8.
    assert_eq!(next_chunk_len(&data, 9, 12, true, &cdc), Some(12));
    assert_eq!(next_chunk_len(&data, 9, 11, true, &cdc), Some(11));
    assert_eq!(next_chunk_len(&data, 9, 10, true, &cdc), Some(10));
    assert_eq!(next_chunk_len(&data, 9, 9, true, &cdc), Some(9));
}

#[test]
fn window_decides_and_boundary_is_final() {
    let cdc = MinCdcHash4::new();
    for seed in 0..50u32 {
        let data = lcg(seed, 400);
        let decided = next_chunk_len(&data[..65], 16, 64, false, &cdc);
        assert!(decided.is_some());
        for n in 65..400 {
            assert_eq!(next_chunk_len(&data[..n], 16, 64, false, &cdc), decided);
            assert_eq!(next_chunk_len(&data[..n], 16, 64, true, &cdc), decided);
        }
        let mut other = data.clone();
        for b in &mut other[64..] {
            *b = !*b;
        }
        assert_eq!(next_chunk_len(&other, 16, 64, true, &cdc), decided);
    }
}

#[test]
fn claimed_repeats_survive_more_data() {
    let cdc = MinCdcHash4::new();
    let mut data = Vec::new();
    for _ in 0..40 {
        data.extend_from_slice(&[3u8, 1, 4, 1, 5, 9, 2]);
    }
    // The first chunk ends at a phase of the period; from there on chunks repeat.
    let first = next_chunk_len(&data, 16, 40, false, &cdc).unwrap();
    data.drain(..first);
    let u = next_chunk_len(&data, 16, 40, false, &cdc).unwrap();
    assert_eq!(u % 7, 0);
    let claimed = packed_repeats(&data, u, 40);
    assert!(claimed >= 2);
    let buffered = data.len();
    data.extend_from_slice(&lcg(5, 100));
    for k in 1..=claimed {
        assert!((k + 1) * u <= buffered);
        let at = &data[k * u..];
        assert_eq!(next_chunk_len(at, 16, 40, true, &cdc), Some(u));
        assert_eq!(&at[..u], &data[..u]);
    }
}

#[test]
fn coalescing_without_runs_changes_nothing() {
    let data = lcg(77, 20_000);
    let cdc = MinCdcHash4::new();
    let chunks = SliceChunker::new(&data, 64, 256, cdc).collect();
    let segments = CaterpillarChunker::new(&data, 64, 256, cdc).collect();
    assert_eq!(chunks.len(), segments.len());
    for (chunk, segment) in chunks.iter().zip(&segments) {
        assert!(matches!(segment, Segment::Solo(_)));
        assert_eq!(segment.offset(), chunk.offset());
        assert_eq!(segment.dedup_key(), &chunk[..]);
    }
}

#[test]
fn runs_are_maximal_and_tile() {
    let mut data = lcg(1, 500);
    data.extend_from_slice(&[0u8; 3000]);
    data.extend_from_slice(&lcg(2, 500));
    let segments = CaterpillarChunker::new(&data, 32, 64, MinCdcHash4::new()).collect();
    assert!(segments.iter().any(|s| s.is_caterpillar()));
    for pair in segments.windows(2) {
        assert_ne!(pair[0].dedup_key(), pair[1].dedup_key());
        assert_eq!(pair[0].offset() + pair[0].len(), pair[1].offset());
    }
    for s in &segments {
        let mut bytes = Vec::new();
        s.reconstruct_into(&mut bytes);
        assert_eq!(bytes.len() as u64, s.len());
        for (i, b) in bytes.iter().enumerate() {
            assert_eq!(*b, s.dedup_key()[i % s.dedup_key().len()]);
            assert_eq!(*b, data[s.offset() as usize + i]);
        }
    }
}

#[test]
fn chunking_resumes_at_any_boundary() {
    let data = lcg(8, 5000);
    let cdc = MinCdcHash4::new();
    let chunks = SliceChunker::new(&data, 64, 256, cdc).collect();
    for (i, chunk) in chunks.iter().enumerate() {
        let from = chunk.offset() as usize;
        let rest = SliceChunker::new(&data[from..], 64, 256, cdc).collect();
        assert_eq!(rest.len(), chunks.len() - i);
        for (a, b) in rest.iter().zip(&chunks[i..]) {
            assert_eq!(a.offset() + from as u64, b.offset());
            assert_eq!(&a[..], &b[..]);
        }
    }
}
