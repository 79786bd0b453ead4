use capnprust::read_exact;
use capnprust::read_message;
use capnprust::write_message;
use capnprust::BoundedSink;
use capnprust::ChunkedSource;
use capnprust::FrameError;
use capnprust::ReaderOptions;
use capnprust::SegmentBuilder;
use capnprust::VecSink;

fn opts(limit: u64) -> ReaderOptions {
    ReaderOptions { traversal_limit_in_words: limit }
}

fn patterned(len: usize, seed: u8) -> Vec<u8> {
    let mut v = Vec::new();
    for i in 0..len {
        v.push(seed.wrapping_add(i as u8));
    }
    v
}

fn encode_to_bytes(segments: Vec<SegmentBuilder>) -> Vec<u8> {
    let mut sink = VecSink::new();
    write_message(&mut sink, &segments).unwrap();
    sink.into_bytes()
}

#[test]
fn single_segment_layout() {
    let body = patterned(16, 1);
    let seg = SegmentBuilder::from_bytes(body.clone(), 2);
    let out = encode_to_bytes(vec![seg]);
    let mut expected = vec![0u8, 0, 0, 0, 2, 0, 0, 0];
    expected.extend_from_slice(&body);
    assert_eq!(out, expected);

    let mut src = ChunkedSource::new(out, 64);
    let ss = read_message(&mut src, opts(1024)).unwrap();
    assert_eq!(ss.segment_count(), 1);
    assert_eq!(ss.segment_word_count(0), 2);
    assert_eq!(ss.segment(0), &body[..]);
}

#[test]
fn two_segment_layout_has_pad() {
    let body0 = vec![0xAAu8; 8];
    let body1 = vec![0xBBu8; 16];
    let segs = vec![
        SegmentBuilder::from_bytes(body0.clone(), 1),
        SegmentBuilder::from_bytes(body1.clone(), 2),
    ];
    let out = encode_to_bytes(segs);
    let mut expected = vec![1u8, 0, 0, 0, 1, 0, 0, 0, 2, 0, 0, 0, 0, 0, 0, 0];
    expected.extend_from_slice(&body0);
    expected.extend_from_slice(&body1);
    assert_eq!(out, expected);
}

#[test]
fn decode_discards_pad_word() {
    let body0 = vec![0x11u8; 8];
    let body1 = vec![0x22u8; 16];
    // count entry = 1 (two segments), sizes 1 and 2, garbage in the pad entry
    let mut bytes = vec![1u8, 0, 0, 0, 1, 0, 0, 0, 2, 0, 0, 0, 0xEF, 0xBE, 0xAD, 0xDE];
    bytes.extend_from_slice(&body0);
    bytes.extend_from_slice(&body1);
    let mut src = ChunkedSource::new(bytes, 64);
    let ss = read_message(&mut src, opts(1024)).unwrap();
    assert_eq!(ss.segment_count(), 2);
    assert_eq!(ss.segment_word_count(0), 1);
    assert_eq!(ss.segment_word_count(1), 2);
    assert_eq!(ss.segment(0), &body0[..]);
    assert_eq!(ss.segment(1), &body1[..]);
}

#[test]
fn round_trip_three_segments() {
    let bodies = [patterned(16, 10), patterned(0, 0), patterned(8, 200)];
    let mut segs = Vec::new();
    for b in bodies.iter() {
        segs.push(SegmentBuilder::from_bytes(b.clone(), b.len() / 8));
    }
    let out = encode_to_bytes(segs);
    let mut src = ChunkedSource::new(out, 5);
    let ss = read_message(&mut src, opts(1024)).unwrap();
    assert_eq!(ss.segment_count(), 3);
    for (i, b) in bodies.iter().enumerate() {
        assert_eq!(ss.segment(i), &b[..]);
    }
}

#[test]
fn partial_reads_one_byte_at_a_time() {
    let bodies = [patterned(8, 3), patterned(24, 77)];
    let mut segs = Vec::new();
    for b in bodies.iter() {
        segs.push(SegmentBuilder::from_bytes(b.clone(), b.len() / 8));
    }
    let out = encode_to_bytes(segs);
    let mut src = ChunkedSource::new(out, 1);
    let ss = read_message(&mut src, opts(1024)).unwrap();
    assert_eq!(ss.segment_count(), 2);
    assert_eq!(ss.segment(0), &bodies[0][..]);
    assert_eq!(ss.segment(1), &bodies[1][..]);
}

#[test]
fn rejects_segment_count_ceiling() {
    // raw count entry 511 declares 512 segments; nothing further is read
    let bytes = vec![255u8, 1, 0, 0, 0, 0, 0, 0];
    let mut src = ChunkedSource::new(bytes, 64);
    let err = read_message(&mut src, opts(1024)).err().unwrap();
    assert_eq!(err, FrameError::TooManySegments);
}

#[test]
fn accepts_511_segments() {
    let mut segs = Vec::new();
    for _ in 0..511 {
        segs.push(SegmentBuilder::from_bytes(Vec::new(), 0));
    }
    let out = encode_to_bytes(segs);
    // count entry 510, then 511 size entries: 512 entries, already even
    assert_eq!(out.len(), 4 * 512);
    let mut src = ChunkedSource::new(out, 64);
    let ss = read_message(&mut src, opts(1024)).unwrap();
    assert_eq!(ss.segment_count(), 511);
}

#[test]
fn rejects_oversized_total() {
    // one segment declaring 100 words against a limit of 99; no body present
    let bytes = vec![0u8, 0, 0, 0, 100, 0, 0, 0];
    let mut src = ChunkedSource::new(bytes, 64);
    let err = read_message(&mut src, opts(99)).err().unwrap();
    assert_eq!(err, FrameError::TraversalLimitExceeded);
}

#[test]
fn rejects_oversized_total_across_segments() {
    // three segments declaring 2 + 2 + 1 words against a limit of 4
    let bytes = vec![2u8, 0, 0, 0, 2, 0, 0, 0, 2, 0, 0, 0, 1, 0, 0, 0];
    let mut src = ChunkedSource::new(bytes, 64);
    let err = read_message(&mut src, opts(4)).err().unwrap();
    assert_eq!(err, FrameError::TraversalLimitExceeded);
}

#[test]
fn accepts_total_at_exact_limit() {
    let mut bytes = vec![0u8, 0, 0, 0, 4, 0, 0, 0];
    bytes.extend_from_slice(&patterned(32, 9));
    let mut src = ChunkedSource::new(bytes, 64);
    let ss = read_message(&mut src, opts(4)).unwrap();
    assert_eq!(ss.segment_count(), 1);
    assert_eq!(ss.segment_word_count(0), 4);
}

#[test]
fn zero_length_segment_decodes_empty() {
    let bytes = vec![0u8, 0, 0, 0, 0, 0, 0, 0];
    let mut src = ChunkedSource::new(bytes, 64);
    let ss = read_message(&mut src, opts(1024)).unwrap();
    assert_eq!(ss.segment_count(), 1);
    assert_eq!(ss.segment_word_count(0), 0);
    assert_eq!(ss.segment(0), &[] as &[u8]);
}

#[test]
fn zero_cursor_writes_no_body() {
    // spare capacity behind a cursor at zero: no body byte is written
    let seg = SegmentBuilder::from_bytes(vec![0xCCu8; 16], 0);
    let out = encode_to_bytes(vec![seg]);
    assert_eq!(out, vec![0u8, 0, 0, 0, 0, 0, 0, 0]);
}

#[test]
fn stale_capacity_not_written() {
    let mut buf = vec![0x11u8; 8];
    buf.extend_from_slice(&[0x22u8; 8]);
    let seg = SegmentBuilder::from_bytes(buf, 1);
    let out = encode_to_bytes(vec![seg]);
    let mut expected = vec![0u8, 0, 0, 0, 1, 0, 0, 0];
    expected.extend_from_slice(&[0x11u8; 8]);
    assert_eq!(out, expected);
}

#[test]
fn truncated_header_word() {
    let mut src = ChunkedSource::new(vec![0u8, 0, 0, 0, 1], 64);
    let err = read_message(&mut src, opts(1024)).err().unwrap();
    assert_eq!(err, FrameError::ReadTruncated);
}

#[test]
fn truncated_size_table() {
    // three segments need two more size entries; only five bytes arrive
    let bytes = vec![2u8, 0, 0, 0, 1, 0, 0, 0, 1, 0, 0, 0, 1];
    let mut src = ChunkedSource::new(bytes, 64);
    let err = read_message(&mut src, opts(1024)).err().unwrap();
    assert_eq!(err, FrameError::ReadTruncated);
}

#[test]
fn truncated_body() {
    let bytes = vec![0u8, 0, 0, 0, 1, 0, 0, 0, 0xAB, 0xCD, 0xEF];
    let mut src = ChunkedSource::new(bytes, 64);
    let err = read_message(&mut src, opts(1024)).err().unwrap();
    assert_eq!(err, FrameError::ReadTruncated);
}

#[test]
fn trailing_bytes_stay_in_source() {
    let seg = SegmentBuilder::from_bytes(patterned(8, 40), 1);
    let mut bytes = encode_to_bytes(vec![seg]);
    bytes.extend_from_slice(&[9, 9, 9]);
    let mut src = ChunkedSource::new(bytes, 64);
    let ss = read_message(&mut src, opts(1024)).unwrap();
    assert_eq!(ss.segment_count(), 1);
    let rest = read_exact(&mut src, 3).unwrap();
    assert_eq!(rest, vec![9, 9, 9]);
}

#[test]
fn write_failed_on_table() {
    let seg = SegmentBuilder::from_bytes(patterned(8, 0), 1);
    let mut sink = BoundedSink::new(4);
    let err = write_message(&mut sink, &vec![seg]).err().unwrap();
    assert_eq!(err, FrameError::WriteFailed);
    assert_eq!(sink.into_bytes(), Vec::<u8>::new());
}

#[test]
fn write_failed_on_body_keeps_table() {
    let seg = SegmentBuilder::from_bytes(patterned(8, 0), 1);
    let mut sink = BoundedSink::new(8);
    let err = write_message(&mut sink, &vec![seg]).err().unwrap();
    assert_eq!(err, FrameError::WriteFailed);
    assert_eq!(sink.into_bytes(), vec![0u8, 0, 0, 0, 1, 0, 0, 0]);
}

#[test]
fn read_exact_collects_short_chunks() {
    let data = patterned(7, 100);
    let mut src = ChunkedSource::new(data.clone(), 2);
    let got = read_exact(&mut src, 7).unwrap();
    assert_eq!(got, data);
}

#[test]
fn read_exact_fails_on_exhausted_source() {
    let mut src = ChunkedSource::new(patterned(7, 0), 2);
    let err = read_exact(&mut src, 8).err().unwrap();
    assert_eq!(err, FrameError::ReadTruncated);
}
