use tiny_bit::keyvalue::{CodecError, KeyValue};

fn kv(key: &str, value: &str) -> KeyValue {
    KeyValue::new((key.to_string(), value.to_string()))
}

#[test]
fn test_new_kv() {
    let kv = KeyValue::new(("foo".to_string(), "bar".to_string()));
    assert_eq!(kv.value, "bar".to_string());
    assert_eq!(kv.key, "foo".to_string());
}

#[test]
fn test_byte_serialization() {
    let kv = KeyValue::new(("foo".to_string(), "bar".to_string()));
    let bytes = kv.write_to_bytes();

    assert_eq!(bytes, vec![3, 102, 111, 111, 3, 98, 97, 114])
}

#[test]
fn test_byte_deserialization() {
    let a = KeyValue::read_from_bytes(vec![
        3, 102, 111, 111, 3, 98, 97, 114, 3, 102, 111, 111, 3, 98, 97, 114, 3, 102, 111, 111,
        3, 98, 97, 114,
    ]);
    assert_eq!(a.len(), 3);
    assert_eq!(
        *a.first().unwrap(),
        KeyValue {
            key: "foo".to_string(),
            value: "bar".to_string(),
        }
    );
}

#[test]
fn serialize_is_write_to_bytes() {
    let record = kv("tadashi", "mizu");
    assert_eq!(record.serialize(), record.write_to_bytes());
    assert_eq!(
        record.serialize(),
        vec![7, 116, 97, 100, 97, 115, 104, 105, 4, 109, 105, 122, 117]
    );
}

#[test]
fn round_trip_of_one_record() {
    let record = kv("key", "value");
    let decoded = KeyValue::deserialize(record.write_to_bytes()).unwrap();
    assert_eq!(decoded, vec![("key".to_string(), "value".to_string())]);
}

#[test]
fn round_trip_of_empty_fields() {
    let record = kv("", "");
    assert_eq!(record.write_to_bytes(), vec![0, 0]);
    let decoded = KeyValue::deserialize(vec![0, 0]).unwrap();
    assert_eq!(decoded, vec![(String::new(), String::new())]);
}

#[test]
fn round_trip_of_longest_fields() {
    let key = "k".repeat(255);
    let value = "v".repeat(255);
    let record = KeyValue::new((key.clone(), value.clone()));
    assert!(record.fits());
    let bytes = record.write_to_bytes();
    assert_eq!(bytes.len(), 512);
    assert_eq!(bytes[0], 255);
    assert_eq!(bytes[256], 255);
    assert_eq!(KeyValue::deserialize(bytes).unwrap(), vec![(key, value)]);
}

#[test]
fn round_trip_of_text_beyond_ascii() {
    let record = kv("schl\u{fc}ssel", "\u{6c34}");
    let bytes = record.write_to_bytes();
    assert_eq!(bytes[0], 10);
    assert_eq!(bytes[11], 3);
    assert_eq!(
        KeyValue::deserialize(bytes).unwrap(),
        vec![("schl\u{fc}ssel".to_string(), "\u{6c34}".to_string())]
    );
}

#[test]
fn stream_decodes_in_order() {
    let records = vec![kv("a", "1"), kv("b", "2"), kv("a", "3"), kv("", "x"), kv("zz", "")];
    let mut stream = Vec::new();
    for r in &records {
        stream.extend(r.write_to_bytes());
    }
    let decoded = KeyValue::read_from_bytes(stream.clone());
    assert_eq!(decoded, records);
    let pairs = KeyValue::deserialize(stream).unwrap();
    assert_eq!(pairs.len(), 5);
    assert_eq!(pairs[2], ("a".to_string(), "3".to_string()));
}

#[test]
fn empty_stream_holds_no_record() {
    assert_eq!(KeyValue::deserialize(Vec::new()).unwrap(), Vec::new());
    assert!(KeyValue::read_from_bytes(Vec::new()).is_empty());
}

#[test]
fn field_cut_short_is_truncated() {
    assert_eq!(
        KeyValue::deserialize(vec![3, 102, 111]),
        Err(CodecError::Truncated)
    );
}

#[test]
fn missing_value_is_truncated() {
    assert_eq!(
        KeyValue::deserialize(vec![3, 102, 111, 111]),
        Err(CodecError::Truncated)
    );
}

#[test]
fn bytes_that_are_no_text_are_invalid() {
    assert_eq!(
        KeyValue::deserialize(vec![1, 0xff, 1, 97]),
        Err(CodecError::InvalidText)
    );
    assert_eq!(
        KeyValue::deserialize(vec![1, 97, 2, 0xc3, 0x28]),
        Err(CodecError::InvalidText)
    );
}

#[test]
fn fault_after_whole_records_is_reported() {
    let mut stream = kv("foo", "bar").write_to_bytes();
    stream.extend(vec![2, 97]);
    assert_eq!(
        KeyValue::deserialize(stream),
        Err(CodecError::Truncated)
    );
}

#[test]
fn read_from_bytes_keeps_records_before_fault() {
    let mut stream = kv("foo", "bar").write_to_bytes();
    stream.extend(kv("bar", "baz").write_to_bytes());
    stream.extend(vec![5, 116, 97]);
    let kept = KeyValue::read_from_bytes(stream);
    assert_eq!(kept, vec![kv("foo", "bar"), kv("bar", "baz")]);
}

#[test]
fn read_from_bytes_stops_at_invalid_text() {
    let mut stream = kv("a", "1").write_to_bytes();
    stream.extend(vec![1, 0x80, 1, 50]);
    stream.extend(kv("c", "3").write_to_bytes());
    assert_eq!(KeyValue::read_from_bytes(stream), vec![kv("a", "1")]);
}

#[test]
fn field_of_256_bytes_does_not_fit() {
    let long = KeyValue::new(("k".repeat(256), "v".to_string()));
    assert!(!long.fits());
    let long_value = KeyValue::new(("k".to_string(), "v".repeat(300)));
    assert!(!long_value.fits());
    assert!(kv("k", "v").fits());
}

#[test]
fn decode_stream_reports_valid_length() {
    let mut stream = kv("foo", "bar").write_to_bytes();
    stream.extend(vec![9, 1]);
    let (pairs, end, fault) = tiny_bit::keyvalue::decode_stream(&stream);
    assert_eq!(pairs, vec![("foo".to_string(), "bar".to_string())]);
    assert_eq!(end, 8);
    assert_eq!(fault, Some(CodecError::Truncated));
}
