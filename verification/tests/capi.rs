use mothcdc::capi::mothcdc_next_chunk;
use mothcdc::mincdc::{MinCdcHash4, SliceChunker};

/// Driving the one-call interface over a sliding buffer, consuming `repeats`
/// boundaries without calling back in, must reproduce SliceChunker's boundaries
/// exactly.
#[test]
fn capi_stream_protocol_matches_slice_chunker() {
    let (min, max) = (64usize, 256usize);
    let buf_cap = 1024usize; // > max + 1

    let mut data = Vec::new();
    // random | zero run | periodic run | random tail
    let mut s = 7u64;
    let mut rand = |n: usize| {
        (0..n)
            .map(|_| {
                s ^= s << 13;
                s ^= s >> 7;
                s ^= s << 17;
                (s >> 33) as u8
            })
            .collect::<Vec<u8>>()
    };
    data.extend_from_slice(&rand(3000));
    data.extend_from_slice(&vec![0u8; 5000]);
    let unit = rand(37);
    for _ in 0..200 {
        data.extend_from_slice(&unit);
    }
    data.extend_from_slice(&rand(2000));

    let want: Vec<usize> = SliceChunker::new(&data, min, max, MinCdcHash4::new())
        .collect()
        .iter()
        .map(|c| c.len())
        .collect();

    // Sliding window over the data, repeats honored.
    let mut got = Vec::new();
    let mut pos = 0usize;
    let mut pending_repeats = 0usize;
    let mut pending_len = 0usize;
    while pos < data.len() {
        let end = (pos + buf_cap).min(data.len());
        let window = &data[pos..end];
        let len = if pending_repeats > 0 {
            pending_repeats -= 1;
            pending_len
        } else {
            let eof = window.len() < max + 1;
            let (l, reps) = mothcdc_next_chunk(window, min, max, eof, true);
            assert!(l > 0, "boundary must be decidable under the eof rule");
            pending_repeats = reps;
            pending_len = l;
            l
        };
        got.push(len);
        pos += len;
    }
    assert_eq!(
        got, want,
        "C API stream protocol diverged from SliceChunker"
    );
}

#[test]
fn undecidable_and_invalid_calls_give_zero() {
    let zeros = [0u8; 100];
    assert_eq!(mothcdc_next_chunk(&[], 8, 16, true, true), (0, 0));
    assert_eq!(mothcdc_next_chunk(&zeros, 17, 16, true, true), (0, 0));
    assert_eq!(mothcdc_next_chunk(&zeros, 0, 0, true, true), (0, 0));
    assert_eq!(mothcdc_next_chunk(&zeros[..16], 8, 16, false, true), (0, 0));
    assert_eq!(mothcdc_next_chunk(&zeros[..17], 8, 16, false, true), (8, 0));
    // (99 - 16) / 8 repeats are sure.
    assert_eq!(mothcdc_next_chunk(&zeros, 8, 16, false, true), (8, 10));
    assert_eq!(mothcdc_next_chunk(&zeros, 8, 16, false, false), (8, 0));
}
