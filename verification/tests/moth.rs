use std::io::{Cursor, Read};

use mothcdc::caterpillar::SegmentStep;
use mothcdc::mincdc::{Cdc, Error, MinCdc4, MinCdcHash4, ReadAction, ReadEvent};
use mothcdc::{MothChunker, MothReadChunker, Segment};

type Record = (u64, Vec<u8>, u64);

fn record(segment: &Segment<'_>) -> Record {
    assert_eq!(segment.is_caterpillar(), segment.chunk_count() >= 2);
    (
        segment.offset(),
        segment.dedup_key().to_vec(),
        segment.chunk_count(),
    )
}

fn xorshift(seed: u64, n: usize) -> Vec<u8> {
    let mut s = seed | 1;
    (0..n)
        .map(|_| {
            s ^= s << 13;
            s ^= s >> 7;
            s ^= s << 17;
            (s >> 33) as u8
        })
        .collect()
}

/// Yields at most `step` bytes per read.
struct ChokedReader<'a> {
    data: &'a [u8],
    step: usize,
}

impl Read for ChokedReader<'_> {
    fn read(&mut self, buf: &mut [u8]) -> std::io::Result<usize> {
        let n = self.step.min(buf.len()).min(self.data.len());
        buf[..n].copy_from_slice(&self.data[..n]);
        self.data = &self.data[n..];
        Ok(n)
    }
}

fn drain<R: Read, C: Cdc>(mut chunker: MothReadChunker<R, C>) -> Vec<Record> {
    let mut scratch = vec![0u8; 65536];
    let mut out = Vec::new();
    loop {
        while let Some(room) = chunker.ensure() {
            let n = room.min(scratch.len());
            let k = chunker.get_mut().read(&mut scratch[..n]).unwrap();
            assert_eq!(
                chunker.on_read(ReadEvent::Data(&scratch[..k])),
                ReadAction::Proceed
            );
        }
        match chunker.next().unwrap() {
            SegmentStep::NeedInput => {}
            SegmentStep::Segment(segment) => {
                out.push(record(&segment));
                let last = chunker.last().unwrap();
                assert_eq!(record(&last), *out.last().unwrap());
            }
            SegmentStep::End => return out,
        }
    }
}

#[test]
fn in_memory_example() {
    let data = vec![0u8; 64 * 4096]; // a long zero run
    let segs = MothChunker::new(&data, 4096, 12288).collect();
    // The whole zero run collapses into one record instead of ~64 chunks.
    assert_eq!(segs.len(), 1);
    assert!(segs[0].is_caterpillar());
    assert_eq!(segs[0].len(), data.len() as u64);

    let mut chunker = MothChunker::with_cdc(&data, 4096, 12288, MinCdc4::new());
    assert_eq!(chunker.next().unwrap().chunk_count(), 64);
    assert!(chunker.next().is_none());
}

#[test]
fn runs_outlive_the_buffer() {
    // Larger than the internal buffer, so the run crosses several refills.
    let data = vec![0u8; 12 * 1024 * 1024];
    let records = drain(MothReadChunker::new(Cursor::new(&data), 4096, 12288));
    assert_eq!(records, vec![(0, vec![0u8; 4096], 3072)]);
}

#[test]
fn every_reader_gives_the_same_grouping() {
    let mut data = xorshift(11, 3000);
    data.extend_from_slice(&[0u8; 5000]);
    let unit = xorshift(12, 37);
    for _ in 0..200 {
        data.extend_from_slice(&unit);
    }
    data.extend_from_slice(&xorshift(13, 2000));
    for (min, max) in [(64usize, 256usize), (16, 16), (4, 20), (50, 51)] {
        let want: Vec<Record> = MothChunker::new(&data, min, max)
            .collect()
            .iter()
            .map(record)
            .collect();
        for pair in want.windows(2) {
            assert_ne!(pair[0].1, pair[1].1, "a run was split");
        }
        for step in [1usize, 3, 7, 64, 300, 4096, 1 << 20] {
            let reader = ChokedReader { data: &data, step };
            assert_eq!(drain(MothReadChunker::new(reader, min, max)), want);
        }
        let want: Vec<Record> = MothChunker::with_cdc(&data, min, max, MinCdc4)
            .collect()
            .iter()
            .map(record)
            .collect();
        let reader = ChokedReader {
            data: &data,
            step: 5,
        };
        let chunker = MothReadChunker::with_cdc(reader, min, max, MinCdc4);
        assert_eq!(drain(chunker), want);
    }
}

#[test]
fn streaming_restores_the_data() {
    let mut data = xorshift(21, 100_000);
    for b in &mut data[30_000..60_000] {
        *b = 7;
    }
    let mut restored = Vec::new();
    for (offset, unit, count) in drain(MothReadChunker::new(Cursor::new(&data), 256, 1024)) {
        assert_eq!(offset as usize, restored.len());
        for _ in 0..count {
            restored.extend_from_slice(&unit);
        }
    }
    assert_eq!(restored, data);
}

#[test]
fn a_run_is_held_until_it_is_over() {
    let mut chunker = MothReadChunker::with_cdc((), 4, 6, MinCdc4);
    assert!(chunker.last().is_none());
    assert!(chunker.ensure().unwrap() > 6);
    assert_eq!(chunker.on_read(ReadEvent::Interrupted), ReadAction::Retry);
    assert_eq!(chunker.on_read(ReadEvent::Failed), ReadAction::Report);
    assert_eq!(
        chunker.on_read(ReadEvent::Data(&[0u8; 14])),
        ReadAction::Proceed
    );
    assert_eq!(chunker.ensure(), None);
    // Two chunks are decided, but a third may follow.
    assert!(matches!(chunker.next(), Ok(SegmentStep::NeedInput)));
    assert!(chunker.ensure().is_some());
    assert_eq!(
        chunker.on_read(ReadEvent::Data(&[0u8, 0, 9, 9, 9])),
        ReadAction::Proceed
    );
    assert!(chunker.last().is_none());
    assert_eq!(chunker.ensure(), None);
    assert!(matches!(chunker.next(), Ok(SegmentStep::NeedInput)));
    assert!(chunker.ensure().is_some());
    assert_eq!(chunker.on_read(ReadEvent::Data(&[])), ReadAction::Proceed);
    match chunker.next() {
        Ok(SegmentStep::Segment(s)) => assert_eq!(record(&s), (0, vec![0u8; 4], 4)),
        _ => panic!("no segment"),
    }
    match chunker.next() {
        Ok(SegmentStep::Segment(s)) => assert_eq!(record(&s), (16, vec![9u8; 3], 1)),
        _ => panic!("no segment"),
    }
    assert!(matches!(chunker.next(), Ok(SegmentStep::End)));
    assert!(matches!(chunker.next(), Ok(SegmentStep::End)));
    assert_eq!(chunker.last().unwrap().offset(), 16);
}

#[test]
fn nothing_comes_of_nothing() {
    assert!(MothChunker::new(&[], 4, 8).next().is_none());
    assert_eq!(drain(MothReadChunker::new(Cursor::new([]), 4, 8)), vec![]);
}

#[test]
fn fallible_default_constructors() {
    match MothReadChunker::try_new((), 5, 4) {
        Err(e) => assert_eq!(e, Error::InvalidSizes),
        Ok(_) => panic!("accepted"),
    }
    match MothReadChunker::try_with_cdc((), 0, 0, MinCdcHash4::new()) {
        Err(e) => assert_eq!(e, Error::InvalidSizes),
        Ok(_) => panic!("accepted"),
    }
    let mut chunker = MothReadChunker::try_new(Cursor::new(vec![1u8, 2]), 4, 5).unwrap_or_else(
        |_| panic!("refused"),
    );
    assert_eq!(chunker.get_ref().position(), 0);
    chunker.get_mut().set_position(1);
    assert_eq!(chunker.into_inner().position(), 1);
}

#[test]
fn bytes_behind_the_end_are_not_asked_for() {
    let mut chunker = MothReadChunker::with_cdc((), 4, 6, MinCdc4);
    assert!(chunker.ensure().is_some());
    assert_eq!(chunker.on_read(ReadEvent::Data(&[1, 2])), ReadAction::Proceed);
    assert!(chunker.ensure().is_some());
    assert_eq!(chunker.on_read(ReadEvent::Data(&[])), ReadAction::Proceed);
    assert_eq!(chunker.ensure(), None);
    match chunker.next() {
        Ok(SegmentStep::Segment(s)) => assert_eq!(record(&s), (0, vec![1u8, 2], 1)),
        _ => panic!("no segment"),
    }
    assert_eq!(chunker.ensure(), None);
    assert!(matches!(chunker.next(), Ok(SegmentStep::End)));
}
