use fluent_source::codec::{FluentFrame, FluentTimestamp};
use fluent_source::msgpack::MsgValue;
use fluent_source::value::{build_event, to_event_value, u64_dec, widen_f32_exec,
    EventValue, LogSchema};

fn schema() -> LogSchema {
    LogSchema {
        host_key: b"host".to_vec(),
        timestamp_key: b"timestamp".to_vec(),
        tag_key: b"tag".to_vec(),
    }
}

#[test]
fn decimal_digits_are_exact() {
    assert_eq!(u64_dec(0), b"0".to_vec());
    assert_eq!(u64_dec(12345), b"12345".to_vec());
    assert_eq!(u64_dec(u64::MAX), b"18446744073709551615".to_vec());
}

#[test]
fn large_unsigned_becomes_decimal_bytes() {
    let v = to_event_value(MsgValue::UInt(u64::MAX));
    match v {
        EventValue::Bytes(b) => assert_eq!(b, b"18446744073709551615".to_vec()),
        other => panic!("expected bytes, got {:?}", other),
    }
}

#[test]
fn integers_in_range_stay_integers() {
    match to_event_value(MsgValue::Int(-7)) {
        EventValue::Integer(n) => assert_eq!(n, -7),
        other => panic!("expected an integer, got {:?}", other),
    }
    match to_event_value(MsgValue::UInt(7)) {
        EventValue::Integer(n) => assert_eq!(n, 7),
        other => panic!("expected an integer, got {:?}", other),
    }
}

#[test]
fn f32_widening_matches_the_hardware() {
    for f in [0.0f32, -0.0, 1.5, -1.5, 0.1, 3.1415927, f32::MAX, f32::MIN_POSITIVE,
        f32::INFINITY, f32::NEG_INFINITY, f32::from_bits(1), f32::from_bits(0x0000_7fff),
        f32::from_bits(0x007f_ffff)] {
        let expected = (f as f64).to_bits();
        assert_eq!(widen_f32_exec(f.to_bits()), expected, "widening {:?}", f);
    }
}

#[test]
fn f32_value_maps_to_widened_float() {
    match to_event_value(MsgValue::F32(1.5f32.to_bits())) {
        EventValue::Float(bits) => assert_eq!(bits, 1.5f64.to_bits()),
        other => panic!("expected a float, got {:?}", other),
    }
}

#[test]
fn string_and_binary_map_to_bytes() {
    match to_event_value(MsgValue::Str(b"abc".to_vec())) {
        EventValue::Bytes(b) => assert_eq!(b, b"abc".to_vec()),
        other => panic!("expected bytes, got {:?}", other),
    }
    match to_event_value(MsgValue::Bin(vec![1, 2])) {
        EventValue::Bytes(b) => assert_eq!(b, vec![1, 2]),
        other => panic!("expected bytes, got {:?}", other),
    }
}

#[test]
fn extension_maps_to_two_field_map() {
    match to_event_value(MsgValue::Ext(-1, vec![9])) {
        EventValue::Dict(ps) => {
            assert_eq!(ps.len(), 2);
            assert_eq!(ps[0].0, b"msgpack_extension_code".to_vec());
            assert!(matches!(ps[0].1, EventValue::Integer(-1)));
            assert_eq!(ps[1].0, b"bytes".to_vec());
            match &ps[1].1 {
                EventValue::Bytes(b) => assert_eq!(b, &vec![9]),
                other => panic!("expected bytes, got {:?}", other),
            }
        }
        other => panic!("expected a map, got {:?}", other),
    }
}

#[test]
fn non_string_map_keys_are_stringified() {
    let m = MsgValue::Dict(vec![
        (MsgValue::Int(1), MsgValue::Bool(true)),
        (MsgValue::Nil, MsgValue::Int(2)),
    ]);
    match to_event_value(m) {
        EventValue::Dict(ps) => {
            assert_eq!(ps.len(), 2);
            assert_eq!(ps[0].0, b"1".to_vec());
            assert_eq!(ps[1].0, b"nil".to_vec());
        }
        other => panic!("expected a map, got {:?}", other),
    }
}

#[test]
fn duplicate_map_keys_keep_place_and_take_last_value() {
    let m = MsgValue::Dict(vec![
        (MsgValue::Str(b"a".to_vec()), MsgValue::Int(1)),
        (MsgValue::Str(b"b".to_vec()), MsgValue::Int(2)),
        (MsgValue::Str(b"a".to_vec()), MsgValue::Int(3)),
    ]);
    match to_event_value(m) {
        EventValue::Dict(ps) => {
            assert_eq!(ps.len(), 2);
            assert_eq!(ps[0].0, b"a".to_vec());
            assert!(matches!(ps[0].1, EventValue::Integer(3)));
            assert_eq!(ps[1].0, b"b".to_vec());
        }
        other => panic!("expected a map, got {:?}", other),
    }
}

#[test]
fn built_event_holds_host_timestamp_tag_and_flat_record() {
    let frame = FluentFrame {
        tag: b"t.x".to_vec(),
        timestamp: FluentTimestamp::EventTime(10, 100),
        record: vec![
            (b"msg".to_vec(), MsgValue::Str(b"hello".to_vec())),
            (b"deep.key".to_vec(), MsgValue::Int(5)),
        ],
    };
    let ev = build_event(frame, &b"1.2.3.4".to_vec(), &schema());
    assert_eq!(ev.len(), 5);
    assert_eq!(ev[0].0, b"host".to_vec());
    match &ev[0].1 {
        EventValue::Bytes(b) => assert_eq!(b, &b"1.2.3.4".to_vec()),
        other => panic!("expected bytes, got {:?}", other),
    }
    assert_eq!(ev[1].0, b"timestamp".to_vec());
    assert!(matches!(ev[1].1, EventValue::Timestamp(10, 100)));
    assert_eq!(ev[2].0, b"tag".to_vec());
    match &ev[2].1 {
        EventValue::Bytes(b) => assert_eq!(b, &b"t.x".to_vec()),
        other => panic!("expected bytes, got {:?}", other),
    }
    // record keys stay flat: the dotted key is one field, not nesting
    assert_eq!(ev[3].0, b"msg".to_vec());
    assert_eq!(ev[4].0, b"deep.key".to_vec());
}

#[test]
fn record_key_overwrites_schema_field() {
    let frame = FluentFrame {
        tag: b"t".to_vec(),
        timestamp: FluentTimestamp::Unix(1),
        record: vec![(b"host".to_vec(), MsgValue::Str(b"spoof".to_vec()))],
    };
    let ev = build_event(frame, &b"real".to_vec(), &schema());
    assert_eq!(ev.len(), 3);
    assert_eq!(ev[0].0, b"host".to_vec());
    match &ev[0].1 {
        EventValue::Bytes(b) => assert_eq!(b, &b"spoof".to_vec()),
        other => panic!("expected bytes, got {:?}", other),
    }
}

#[test]
fn unix_and_event_time_agree_on_whole_seconds() {
    let a = FluentTimestamp::Unix(42);
    let b = FluentTimestamp::EventTime(42, 0);
    assert_eq!(a.seconds(), b.seconds());
    assert_eq!(a.nanoseconds(), b.nanoseconds());
}

#[test]
fn float_map_keys_use_the_bit_pattern_form() {
    let m = MsgValue::Dict(vec![(MsgValue::F64(1.5f64.to_bits()), MsgValue::Nil)]);
    match to_event_value(m) {
        EventValue::Dict(ps) => {
            assert_eq!(ps[0].0, b"f64(0x3ff8000000000000)".to_vec());
            assert!(matches!(ps[0].1, EventValue::Null));
        }
        other => panic!("expected a map, got {:?}", other),
    }
}

#[test]
fn nested_values_map_recursively() {
    let m = MsgValue::Arr(vec![
        MsgValue::Bool(true),
        MsgValue::Arr(vec![MsgValue::Int(2)]),
    ]);
    match to_event_value(m) {
        EventValue::Array(vs) => {
            assert_eq!(vs.len(), 2);
            assert!(matches!(vs[0], EventValue::Boolean(true)));
            match &vs[1] {
                EventValue::Array(inner) => {
                    assert!(matches!(inner[0], EventValue::Integer(2)))
                }
                other => panic!("expected an array, got {:?}", other),
            }
        }
        other => panic!("expected an array, got {:?}", other),
    }
}
