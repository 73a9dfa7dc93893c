use fluent_source::codec::{DecodeError, FluentDecoder, FluentFrame, FluentTimestamp};
use fluent_source::runtime::IsErrorFatal;
use fluent_source::msgpack::MsgValue;

fn msg_single() -> Vec<u8> {
    // ["tag.a", 1609459200, {"m": "hi"}]
    let mut b = vec![0x93];
    b.push(0xa5);
    b.extend_from_slice(b"tag.a");
    b.push(0xce);
    b.extend_from_slice(&1609459200u32.to_be_bytes());
    b.push(0x81);
    b.push(0xa1);
    b.push(b'm');
    b.push(0xa2);
    b.extend_from_slice(b"hi");
    b
}

fn expect_str(v: &MsgValue, s: &[u8]) {
    match v {
        MsgValue::Str(b) => assert_eq!(b.as_slice(), s),
        other => panic!("expected a string value, got {:?}", other),
    }
}

#[test]
fn single_message_yields_one_event() {
    let mut dec = FluentDecoder::new();
    let mut buf = msg_single();
    let frame = dec.decode(&mut buf).unwrap().unwrap();
    assert_eq!(frame.tag, b"tag.a".to_vec());
    assert_eq!(frame.timestamp, FluentTimestamp::Unix(1609459200));
    assert_eq!(frame.record.len(), 1);
    assert_eq!(frame.record[0].0, b"m".to_vec());
    expect_str(&frame.record[0].1, b"hi");
    assert!(buf.is_empty());
    assert!(dec.decode(&mut buf).unwrap().is_none());
}

#[test]
fn forward_with_three_entries() {
    // ["tag.b", [[1,{"n":1}],[2,{"n":2}],[3,{"n":3}]]]
    let mut b = vec![0x92];
    b.push(0xa5);
    b.extend_from_slice(b"tag.b");
    b.push(0x93);
    for i in 1u8..=3 {
        b.push(0x92);
        b.push(i); // positive fixint timestamp
        b.push(0x81);
        b.push(0xa1);
        b.push(b'n');
        b.push(i);
    }
    let mut dec = FluentDecoder::new();
    let mut buf = b;
    for i in 1u8..=3 {
        let frame = dec.decode(&mut buf).unwrap().unwrap();
        assert_eq!(frame.tag, b"tag.b".to_vec());
        assert_eq!(frame.timestamp, FluentTimestamp::Unix(i as i64));
        assert_eq!(frame.record[0].0, b"n".to_vec());
        match &frame.record[0].1 {
            MsgValue::Int(n) => assert_eq!(*n, i as i64),
            other => panic!("expected an integer, got {:?}", other),
        }
    }
    assert!(dec.decode(&mut buf).unwrap().is_none());
}

fn packed_entries() -> Vec<u8> {
    // (10, {"k":"a"}) then (11, {"k":"b"})
    let mut p = Vec::new();
    for (ts, val) in [(10u8, b'a'), (11u8, b'b')] {
        p.push(0x92);
        p.push(ts);
        p.push(0x81);
        p.push(0xa1);
        p.push(b'k');
        p.push(0xa1);
        p.push(val);
    }
    p
}

fn packed_forward(tag: &[u8], payload: &[u8], compressed: Option<&[u8]>) -> Vec<u8> {
    let mut b = vec![if compressed.is_some() { 0x93 } else { 0x92 }];
    b.push(0xa0 + tag.len() as u8);
    b.extend_from_slice(tag);
    b.push(0xc4);
    b.push(payload.len() as u8);
    b.extend_from_slice(payload);
    if let Some(c) = compressed {
        b.push(0x81);
        b.push(0xaa);
        b.extend_from_slice(b"compressed");
        b.push(0xa0 + c.len() as u8);
        b.extend_from_slice(c);
    }
    b
}

fn drain_frames(bytes: Vec<u8>) -> Vec<FluentFrame> {
    let mut dec = FluentDecoder::new();
    let mut buf = bytes;
    let mut out = Vec::new();
    loop {
        match dec.decode(&mut buf) {
            Ok(Some(f)) => out.push(f),
            Ok(None) => break,
            Err(e) => panic!("unexpected decode error: {:?}", e),
        }
    }
    out
}

#[test]
fn packed_forward_text() {
    let frames = drain_frames(packed_forward(b"tag", &packed_entries(), Some(b"text")));
    assert_eq!(frames.len(), 2);
    assert_eq!(frames[0].timestamp, FluentTimestamp::Unix(10));
    assert_eq!(frames[1].timestamp, FluentTimestamp::Unix(11));
    expect_str(&frames[0].record[0].1, b"a");
    expect_str(&frames[1].record[0].1, b"b");
}

#[test]
fn packed_forward_without_options() {
    let frames = drain_frames(packed_forward(b"tag", &packed_entries(), None));
    assert_eq!(frames.len(), 2);
    assert_eq!(frames[0].timestamp, FluentTimestamp::Unix(10));
    assert_eq!(frames[1].timestamp, FluentTimestamp::Unix(11));
}

#[test]
fn packed_forward_gzip() {
    let mut enc = flate2::write::GzEncoder::new(Vec::new(), flate2::Compression::default());
    std::io::Write::write_all(&mut enc, &packed_entries()).unwrap();
    let gz = enc.finish().unwrap();
    let frames = drain_frames(packed_forward(b"tag", &gz, Some(b"gzip")));
    assert_eq!(frames.len(), 2);
    assert_eq!(frames[0].timestamp, FluentTimestamp::Unix(10));
    assert_eq!(frames[1].timestamp, FluentTimestamp::Unix(11));
    expect_str(&frames[0].record[0].1, b"a");
    expect_str(&frames[1].record[0].1, b"b");
}

#[test]
fn packed_forward_corrupt_gzip_is_fatal() {
    let mut dec = FluentDecoder::new();
    let mut buf = packed_forward(b"tag", b"not gzip at all", Some(b"gzip"));
    let err = dec.decode(&mut buf).unwrap_err();
    assert!(matches!(err, DecodeError::Io));
    assert!(err.is_error_fatal());
}

#[test]
fn unknown_compression_is_not_fatal() {
    let mut dec = FluentDecoder::new();
    let mut buf = packed_forward(b"tag", &packed_entries(), Some(b"snappy"));
    let err = dec.decode(&mut buf).unwrap_err();
    match &err {
        DecodeError::UnknownCompression(s) => assert_eq!(s.as_slice(), b"snappy"),
        other => panic!("expected unknown compression, got {:?}", other),
    }
    assert!(!err.is_error_fatal());
    assert!(buf.is_empty());
}

#[test]
fn event_time_extension() {
    // ["t", ext8(type 0, 00 00 00 0A 00 00 00 64), {"m":"x"}]
    let mut b = vec![0x93];
    b.push(0xa1);
    b.push(b't');
    b.push(0xd7); // fixext 8
    b.push(0x00);
    b.extend_from_slice(&[0x00, 0x00, 0x00, 0x0a, 0x00, 0x00, 0x00, 0x64]);
    b.push(0x81);
    b.push(0xa1);
    b.push(b'm');
    b.push(0xa1);
    b.push(b'x');
    let mut dec = FluentDecoder::new();
    let mut buf = b;
    let frame = dec.decode(&mut buf).unwrap().unwrap();
    assert_eq!(frame.timestamp, FluentTimestamp::EventTime(10, 100));
    assert_eq!(frame.timestamp.seconds(), 10);
    assert_eq!(frame.timestamp.nanoseconds(), 100);
}

#[test]
fn heartbeat_then_message() {
    let mut b = vec![0xc0];
    b.extend_from_slice(&msg_single());
    let mut dec = FluentDecoder::new();
    let mut buf = b;
    // the heartbeat produces no event and no error
    assert!(dec.decode(&mut buf).unwrap().is_none());
    let frame = dec.decode(&mut buf).unwrap().unwrap();
    assert_eq!(frame.tag, b"tag.a".to_vec());
}

#[test]
fn non_nil_heartbeat_is_unexpected() {
    let mut dec = FluentDecoder::new();
    let mut buf = vec![0xc3]; // a lone boolean fits no message shape
    let err = dec.decode(&mut buf).unwrap_err();
    assert!(matches!(err, DecodeError::UnexpectedValue(_)));
    assert!(!err.is_error_fatal());
}

#[test]
fn malformed_middle_message_is_skipped() {
    let mut b = msg_single();
    b.extend_from_slice(&packed_forward(b"mid", &packed_entries(), Some(b"snappy")));
    b.extend_from_slice(&msg_single());
    let mut dec = FluentDecoder::new();
    let mut buf = b;
    let first = dec.decode(&mut buf).unwrap().unwrap();
    assert_eq!(first.tag, b"tag.a".to_vec());
    let err = dec.decode(&mut buf).unwrap_err();
    assert!(matches!(err, DecodeError::UnknownCompression(_)));
    let third = dec.decode(&mut buf).unwrap().unwrap();
    assert_eq!(third.tag, b"tag.a".to_vec());
    assert!(dec.decode(&mut buf).unwrap().is_none());
}

#[test]
fn partial_reads_yield_one_event_at_the_end() {
    let whole = msg_single();
    let mut dec = FluentDecoder::new();
    let mut buf: Vec<u8> = Vec::new();
    let mut frames = 0;
    for (i, byte) in whole.iter().enumerate() {
        buf.push(*byte);
        match dec.decode(&mut buf).unwrap() {
            Some(frame) => {
                assert_eq!(i, whole.len() - 1, "a frame may come only from the last byte");
                assert_eq!(frame.tag, b"tag.a".to_vec());
                frames += 1;
            }
            None => assert!(i < whole.len() - 1),
        }
    }
    assert_eq!(frames, 1);
}

#[test]
fn malformed_marker_is_a_decode_error() {
    let mut dec = FluentDecoder::new();
    let mut buf = vec![0xc1, 0x00];
    let err = dec.decode(&mut buf).unwrap_err();
    assert!(matches!(err, DecodeError::Decode));
    assert!(!err.is_error_fatal());
    // the offending byte was consumed so the stream can make progress
    assert_eq!(buf, vec![0x00]);
}

#[test]
fn error_messages_name_the_cause() {
    let err = DecodeError::UnknownCompression(b"zstd".to_vec());
    assert_eq!(err.message(), b"unknown compression: zstd".to_vec());
    assert_eq!(DecodeError::Decode.message(), b"msgpack decode error".to_vec());
}

#[test]
fn unexpected_value_message_shows_the_value() {
    let mut dec = FluentDecoder::new();
    let mut buf = vec![0x92, 0x01, 0x02]; // [1, 2] fits no message shape
    let err = dec.decode(&mut buf).unwrap_err();
    assert_eq!(err.message(), b"unexpected msgpack value, ignoring: [1, 2]".to_vec());
}

#[test]
fn options_missing_compressed_are_unexpected() {
    // ["tag", bin payload, {}] — the options map lacks `compressed`
    let mut b = vec![0x93, 0xa3];
    b.extend_from_slice(b"tag");
    b.push(0xc4);
    b.push(0x00);
    b.push(0x80);
    let mut dec = FluentDecoder::new();
    let mut buf = b;
    let err = dec.decode(&mut buf).unwrap_err();
    assert!(matches!(err, DecodeError::UnexpectedValue(_)));
}
