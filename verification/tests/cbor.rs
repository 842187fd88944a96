use bcf::cbor::{decode_canonical, encode, Value};
use bcf::Error;

// Deeply nested input must be a clean error, never a panic or stack
// overflow. Nested arrays (0x81 = array of one item) drive the recursion.
#[test]
fn deep_nesting_is_rejected_not_panic() {
    let hostile: Vec<u8> = std::iter::repeat_n(0x81, 100_000)
        .chain(std::iter::once(0x00))
        .collect();
    assert_eq!(decode_canonical(&hostile), Err(Error::Decode));
}

// A map with duplicate keys is non-canonical and rejected; re-encode-and-
// compare alone cannot catch this, so the decoder must.
#[test]
fn duplicate_map_keys_rejected() {
    // a2 01 10 01 20 = {1: 16, 1: -1}
    let dup = [0xa2, 0x01, 0x10, 0x01, 0x20];
    assert_eq!(decode_canonical(&dup), Err(Error::Noncanonical));
}

#[test]
fn unsorted_map_keys_rejected() {
    // a2 02 00 01 00 = {2: 0, 1: 0} (keys descending)
    let unsorted = [0xa2, 0x02, 0x00, 0x01, 0x00];
    assert_eq!(decode_canonical(&unsorted), Err(Error::Noncanonical));
}

#[test]
fn nested_tag_rejected() {
    // 81 c2 00 = [tag(2) 0] — a tag below the top level
    let nested_tag = [0x81, 0xc2, 0x00];
    assert_eq!(decode_canonical(&nested_tag), Err(Error::Noncanonical));
}

#[test]
fn canonical_roundtrip_holds() {
    // {1: "BCF/1", 6: []} encodes canonically and round-trips.
    let v = Value::Mapping(vec![
        (Value::Int(1), Value::Text("BCF/1".to_string())),
        (Value::Int(6), Value::Array(vec![])),
    ]);
    let bytes = encode(&v);
    assert_eq!(decode_canonical(&bytes), Ok(v));
}

#[test]
fn encodings_are_the_shortest_forms() {
    assert_eq!(encode(&Value::Int(0)), vec![0x00]);
    assert_eq!(encode(&Value::Int(23)), vec![0x17]);
    assert_eq!(encode(&Value::Int(24)), vec![0x18, 0x18]);
    assert_eq!(encode(&Value::Int(-8)), vec![0x27]);
    assert_eq!(encode(&Value::Int(-47)), vec![0x38, 0x2e]);
    assert_eq!(encode(&Value::Int(1_000_000)), vec![0x1a, 0x00, 0x0f, 0x42, 0x40]);
    assert_eq!(encode(&Value::Bytes(vec![1, 2])), vec![0x42, 0x01, 0x02]);
    assert_eq!(encode(&Value::Text("a".to_string())), vec![0x61, 0x61]);
    assert_eq!(encode(&Value::Null), vec![0xf6]);
    assert_eq!(encode(&Value::Tag(18, Box::new(Value::Array(vec![])))), vec![0xd2, 0x80]);
}

#[test]
fn map_entries_are_encoded_in_key_order() {
    let v = Value::Mapping(vec![
        (Value::Int(-1), Value::Int(0)),
        (Value::Int(2), Value::Int(0)),
        (Value::Int(1), Value::Int(0)),
    ]);
    // Keys sort by their encodings: 01 < 02 < 20.
    assert_eq!(encode(&v), vec![0xa3, 0x01, 0x00, 0x02, 0x00, 0x20, 0x00]);
}

#[test]
fn non_shortest_and_indefinite_forms_are_noncanonical() {
    assert_eq!(decode_canonical(&[0x18, 0x01]), Err(Error::Noncanonical));
    assert_eq!(decode_canonical(&[0x9f, 0xff]), Err(Error::Noncanonical));
    assert_eq!(decode_canonical(&[0xf9, 0x3c, 0x00]), Err(Error::Noncanonical));
}

#[test]
fn malformed_inputs_are_decode_errors() {
    // Trailing bytes after the item.
    assert_eq!(decode_canonical(&[0x00, 0x00]), Err(Error::Decode));
    // Truncated byte string.
    assert_eq!(decode_canonical(&[0x42, 0x01]), Err(Error::Decode));
    // Invalid UTF-8 in a text string.
    assert_eq!(decode_canonical(&[0x61, 0xff]), Err(Error::Decode));
    // Empty input.
    assert_eq!(decode_canonical(&[]), Err(Error::Decode));
    // Simple values other than null.
    assert_eq!(decode_canonical(&[0xf5]), Err(Error::Decode));
}

#[test]
fn top_level_tag_decodes() {
    assert_eq!(decode_canonical(&[0xc2, 0x00]), Ok(Value::Tag(2, Box::new(Value::Int(0)))));
    assert_eq!(decode_canonical(&[0x39, 0x01, 0x00]), Ok(Value::Int(-257)));
}

#[test]
fn permuted_map_pairs_encode_alike() {
    let pairs = vec![
        (Value::Text("b".to_string()), Value::Int(2)),
        (Value::Int(-1), Value::Bytes(vec![1, 2])),
        (Value::Int(10), Value::Mapping(vec![(Value::Int(1), Value::Int(0)), (Value::Int(0), Value::Int(1))])),
        (Value::Text("a".to_string()), Value::Array(vec![])),
    ];
    let mut reversed = pairs.clone();
    reversed.reverse();
    let mut rotated = pairs.clone();
    rotated.rotate_left(1);
    let first = encode(&Value::Mapping(pairs));
    assert_eq!(first, encode(&Value::Mapping(reversed)));
    assert_eq!(first, encode(&Value::Mapping(rotated)));
    assert_eq!(decode_canonical(&first).map(|v| encode(&v)), Ok(first.clone()));
}

#[test]
fn cloned_value_is_equal() {
    let v = Value::Tag(7, Box::new(Value::Mapping(vec![(Value::Int(1), Value::Array(vec![Value::Null, Value::Text("x".to_string())]))])));
    assert_eq!(v.clone(), v);
}
