use chainsaw::log::{
    encode_u32, decode_u32, file_header, frame_record, read_records, segment_path, u64_to_decimal,
    Appender, RECORD_COUNT_LIMIT,
};

const HEADER: [u8; 16] = [
    0x90, 0x00, 0xd1, 0x09, // magic
    0, 0, 0, 0, // major version
    0, 0, 0, 0, // minor version
    1, 0, 0, 0, // patch version
];

#[test]
fn encode_u32_is_little_endian() {
    assert_eq!(encode_u32(0), [0, 0, 0, 0]);
    assert_eq!(encode_u32(1), [1, 0, 0, 0]);
    assert_eq!(encode_u32(0x12345678), [0x78, 0x56, 0x34, 0x12]);
    assert_eq!(encode_u32(u32::MAX), [0xff, 0xff, 0xff, 0xff]);
}

#[test]
fn decode_u32_inverts_encode_u32() {
    for x in [0u32, 1, 0x12345678, 8192, u32::MAX] {
        assert_eq!(decode_u32(&encode_u32(x)), x);
    }
}

#[test]
fn header_bytes_are_fixed() {
    assert_eq!(file_header(), HEADER.to_vec());
}

#[test]
fn frame_layout_is_length_payload_trailer() {
    let frame = frame_record(b"hello");
    let mut expected = vec![5, 0, 0, 0];
    expected.extend_from_slice(b"hello");
    expected.extend_from_slice(&[0, 0, 0, 0]);
    assert_eq!(frame, expected);
}

#[test]
fn empty_record_frames_to_eight_bytes() {
    assert_eq!(frame_record(b""), vec![0u8; 8]);
}

fn segment_of(records: &[&[u8]]) -> Vec<u8> {
    let mut seg = file_header();
    for r in records {
        seg.extend_from_slice(&frame_record(r));
    }
    seg
}

#[test]
fn segment_reads_back_in_order() {
    let records: [&[u8]; 4] = [b"first", b"", b"third record", &[0xff, 0x00, 0x7f]];
    let seg = segment_of(&records);
    let got = read_records(&seg).unwrap();
    assert_eq!(got.len(), records.len());
    for (g, r) in got.iter().zip(records.iter()) {
        assert_eq!(g.as_slice(), *r);
    }
}

#[test]
fn trailer_bytes_are_not_interpreted() {
    // a reader must skip the reserved trailer without reading meaning into it
    let mut seg = file_header();
    let mut frame = frame_record(b"x");
    let n = frame.len();
    frame[n - 1] = 0xab;
    seg.extend_from_slice(&frame);
    let got = read_records(&seg).unwrap();
    assert_eq!(got, vec![b"x".to_vec()]);
}

#[test]
fn corrupt_segments_are_rejected() {
    // too short for a header
    assert!(read_records(b"\x90\x00\xd1\x09").is_none());
    // wrong magic
    let mut seg = segment_of(&[b"a"]);
    seg[0] = 0x91;
    assert!(read_records(&seg).is_none());
    // a dangling partial frame
    let mut seg = segment_of(&[b"a"]);
    seg.push(7);
    assert!(read_records(&seg).is_none());
    // a length prefix that runs past the end
    let mut seg = file_header();
    seg.extend_from_slice(&[100, 0, 0, 0, 1, 2, 3, 4]);
    assert!(read_records(&seg).is_none());
}

#[test]
fn decimal_names() {
    assert_eq!(u64_to_decimal(0), b"0".to_vec());
    assert_eq!(u64_to_decimal(7), b"7".to_vec());
    assert_eq!(u64_to_decimal(1234567890), b"1234567890".to_vec());
    assert_eq!(u64_to_decimal(u64::MAX), b"18446744073709551615".to_vec());
}

#[test]
fn segment_paths() {
    assert_eq!(segment_path(b"/tmp/x", b"a", 99), b"/tmp/x/a/99".to_vec());
    assert_eq!(segment_path(b"store", b"orders", 0), b"store/orders/0".to_vec());
}

#[test]
fn same_second_same_name() {
    // within one clock second a rotation recomputes the same path, so the
    // daemon's exclusive create fails instead of overwriting
    let a = Appender::open_for_append(b"/s".to_vec(), b"c".to_vec());
    let (first_path, first_header) = a.open_segment(1234);
    let (again_path, again_header) = a.open_segment(1234);
    assert_eq!(first_path, again_path);
    assert_eq!(first_header, again_header);
    let (later_path, _) = a.open_segment(1235);
    assert_ne!(first_path, later_path);
}

#[test]
fn rotation_happens_after_the_crossing_record() {
    let mut a = Appender::open_for_append(b"/s".to_vec(), b"c".to_vec());
    // the first T appends stay in the first segment and do not rotate
    for i in 0..RECORD_COUNT_LIMIT {
        let (frame, rotate) = a.append(b"r");
        assert_eq!(frame, frame_record(b"r"));
        assert!(!rotate, "append {} must not rotate", i + 1);
    }
    // the append of record T + 1 still hands out its frame for the old
    // segment, and only then asks for rotation
    let (frame, rotate) = a.append(b"crossing");
    assert_eq!(frame, frame_record(b"crossing"));
    assert!(rotate);
    assert_eq!(a.record_count, 0);
    // the next record goes to the fresh segment
    let (_, rotate) = a.append(b"next");
    assert!(!rotate);
    assert_eq!(a.record_count, 1);
}
