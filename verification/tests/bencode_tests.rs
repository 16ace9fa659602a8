use bittorrent_rust::bencode::{dict_insert_entry, BencodeValue};
use bittorrent_rust::decode::{ConvertError, DecodeError, Decoder};
use bittorrent_rust::encode::Encoder;

#[test]
fn decode_bencoded_string() {
    let encoded_value = "5:hello";
    let decoded_value = Decoder::decode_bencoded_value(encoded_value).unwrap();
    assert!(matches!(&decoded_value, BencodeValue::ByteString(b) if b.as_slice() == b"hello"));
}

#[test]
fn decode_bencoded_integer() {
    let encoded_value = "i42e";
    let decoded_value = Decoder::decode_bencoded_value(encoded_value).unwrap();
    assert!(matches!(decoded_value, BencodeValue::Integer(42)));
}

#[test]
fn decode_bencoded_list() {
    let encoded_value = "l5:helloi42ee";
    let decoded_value = Decoder::decode_bencoded_value(encoded_value).unwrap();
    match decoded_value {
        BencodeValue::List(items) => {
            assert_eq!(items.len(), 2);
            assert!(matches!(&items[0], BencodeValue::ByteString(b) if b.as_slice() == b"hello"));
            assert!(matches!(items[1], BencodeValue::Integer(42)));
        }
        other => panic!("expected a list, got {:?}", other),
    }
}

#[test]
fn decode_bencoded_distionary() {
    let encoded_value = "d3:foo3:bar5:helloi42ee";
    let decoded_value = Decoder::decode_bencoded_value(encoded_value).unwrap();
    match decoded_value {
        BencodeValue::Dict(entries) => {
            assert_eq!(entries.len(), 2);
            assert_eq!(entries[0].0.as_slice(), b"foo");
            assert!(matches!(&entries[0].1, BencodeValue::ByteString(b) if b.as_slice() == b"bar"));
            assert_eq!(entries[1].0.as_slice(), b"hello");
            assert!(matches!(entries[1].1, BencodeValue::Integer(42)));
        }
        other => panic!("expected a dictionary, got {:?}", other),
    }
}

#[test]
fn encode_literals() {
    assert_eq!(
        Encoder::encode(&BencodeValue::ByteString(b"hello".to_vec())),
        b"5:hello".to_vec()
    );
    assert_eq!(Encoder::encode(&BencodeValue::Integer(52)), b"i52e".to_vec());
    assert_eq!(Encoder::encode(&BencodeValue::Integer(-42)), b"i-42e".to_vec());
    assert_eq!(Encoder::encode(&BencodeValue::Integer(0)), b"i0e".to_vec());
    assert_eq!(Encoder::encode(&BencodeValue::List(Vec::new())), b"le".to_vec());
    assert_eq!(Encoder::encode(&BencodeValue::Dict(Vec::new())), b"de".to_vec());
}

#[test]
fn round_trip_nested_value() {
    // A bounded-depth tree with every variant: decoding its canonical
    // encoding returns exactly the same value.
    let mut entries = Vec::new();
    dict_insert_entry(
        &mut entries,
        b"b".to_vec(),
        BencodeValue::List(vec![
            BencodeValue::Integer(-7),
            BencodeValue::ByteString(vec![0u8, 255u8, 10u8]),
        ]),
    );
    dict_insert_entry(&mut entries, b"a".to_vec(), BencodeValue::Integer(9_223_372_036_854_775_807));
    let v = BencodeValue::Dict(entries);
    let bytes = Encoder::encode(&v);
    let back = Decoder::decode_bencoded_bytes(&bytes).unwrap();
    // the decoded value re-encodes to the same canonical bytes
    assert_eq!(Encoder::encode(&back), bytes);
    match back {
        BencodeValue::Dict(es) => {
            assert_eq!(es.len(), 2);
            assert_eq!(es[0].0.as_slice(), b"a");
            assert!(matches!(es[0].1, BencodeValue::Integer(9_223_372_036_854_775_807)));
            assert_eq!(es[1].0.as_slice(), b"b");
        }
        other => panic!("expected a dictionary, got {:?}", other),
    }
}

#[test]
fn canonical_ordering_of_dict_keys() {
    // Dict{"b":1,"a":2} and Dict{"a":2,"b":1} encode identically, keys in
    // ascending byte order regardless of insertion order.
    let mut d1 = Vec::new();
    dict_insert_entry(&mut d1, b"b".to_vec(), BencodeValue::Integer(1));
    dict_insert_entry(&mut d1, b"a".to_vec(), BencodeValue::Integer(2));
    let mut d2 = Vec::new();
    dict_insert_entry(&mut d2, b"a".to_vec(), BencodeValue::Integer(2));
    dict_insert_entry(&mut d2, b"b".to_vec(), BencodeValue::Integer(1));
    let e1 = Encoder::encode(&BencodeValue::Dict(d1));
    let e2 = Encoder::encode(&BencodeValue::Dict(d2));
    assert_eq!(e1, e2);
    assert_eq!(e1, b"d1:ai2e1:bi1ee".to_vec());
}

#[test]
fn dict_insert_replaces_equal_key() {
    let mut d = Vec::new();
    dict_insert_entry(&mut d, b"k".to_vec(), BencodeValue::Integer(1));
    dict_insert_entry(&mut d, b"k".to_vec(), BencodeValue::Integer(2));
    assert_eq!(d.len(), 1);
    assert!(matches!(d[0].1, BencodeValue::Integer(2)));
}

#[test]
fn decode_rejects_malformed_input() {
    // truncated input
    assert_eq!(
        Decoder::decode_bencoded_bytes(b"i42").unwrap_err(),
        DecodeError::BadInteger { at: 0 }
    );
    assert_eq!(
        Decoder::decode_bencoded_bytes(b"l5:hello").unwrap_err(),
        DecodeError::UnexpectedEnd { at: 8 }
    );
    // a byte that opens no form
    assert_eq!(
        Decoder::decode_bencoded_bytes(b"x").unwrap_err(),
        DecodeError::UnexpectedByte { at: 0 }
    );
    // a length field without its colon
    assert_eq!(
        Decoder::decode_bencoded_bytes(b"5x").unwrap_err(),
        DecodeError::BadLength { at: 1 }
    );
    // declared length exceeding the remaining bytes
    assert_eq!(
        Decoder::decode_bencoded_bytes(b"5:abc").unwrap_err(),
        DecodeError::LengthExceedsInput { at: 0 }
    );
    // malformed integers: leading zero, negative zero, empty, huge
    assert_eq!(
        Decoder::decode_bencoded_bytes(b"i042e").unwrap_err(),
        DecodeError::BadInteger { at: 0 }
    );
    assert_eq!(
        Decoder::decode_bencoded_bytes(b"i-0e").unwrap_err(),
        DecodeError::BadInteger { at: 0 }
    );
    assert_eq!(
        Decoder::decode_bencoded_bytes(b"ie").unwrap_err(),
        DecodeError::BadInteger { at: 0 }
    );
    assert_eq!(
        Decoder::decode_bencoded_bytes(b"i9223372036854775808e").unwrap_err(),
        DecodeError::BadInteger { at: 0 }
    );
    // the boundary value itself is fine
    assert!(matches!(
        Decoder::decode_bencoded_bytes(b"i-9223372036854775808e").unwrap(),
        BencodeValue::Integer(-9_223_372_036_854_775_808)
    ));
    // leftover bytes after a whole value
    assert_eq!(
        Decoder::decode_bencoded_bytes(b"i1ei2e").unwrap_err(),
        DecodeError::TrailingBytes { at: 3 }
    );
}

#[test]
fn convert_renders_json() {
    let v = Decoder::decode_bencoded_bytes(b"d3:foo3:bar5:helloi42ee").unwrap();
    let json = Decoder::convert(&v).unwrap();
    assert_eq!(json, br#"{"foo":"bar","hello":42}"#.to_vec());
    let l = Decoder::decode_bencoded_bytes(b"l5:helloi-3ee").unwrap();
    assert_eq!(Decoder::convert(&l).unwrap(), br#"["hello",-3]"#.to_vec());
    // escapes: quote, backslash, newline, other control bytes
    let s = BencodeValue::ByteString(b"a\"b\\c\nd\x01".to_vec());
    assert_eq!(Decoder::convert(&s).unwrap(), b"\"a\\\"b\\\\c\\nd\\u0001\"".to_vec());
    // a byte string that is not UTF-8 has no JSON text
    let bad = BencodeValue::ByteString(vec![0xffu8, 0xfe]);
    assert_eq!(Decoder::convert(&bad).unwrap_err(), ConvertError::NotUtf8);
}
