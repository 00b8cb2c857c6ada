use rottenbrit::bencode::{decode, encode, extract_raw_subvalue, is_digit, read_bytes, read_dict,
    read_element, read_integer, read_list, value_in_dict, BencodeValue};
use rottenbrit::error::Error;

fn bs(b: &[u8]) -> BencodeValue {
    BencodeValue::ByteString(b.to_vec())
}

#[test]
fn decode_integer() {
    let (v, n) = decode(b"i42e").unwrap();
    assert_eq!(v, BencodeValue::Integer(42));
    assert_eq!(n, 4);
    let (v, _) = decode(b"i-7e").unwrap();
    assert_eq!(v, BencodeValue::Integer(-7));
    let (v, _) = decode(b"i0e").unwrap();
    assert_eq!(v, BencodeValue::Integer(0));
}

#[test]
fn decode_rejects_non_canonical_integers() {
    assert_eq!(decode(b"i-0e"), Err(Error::MalformedBencode));
    assert_eq!(decode(b"i03e"), Err(Error::MalformedBencode));
    assert_eq!(decode(b"ie"), Err(Error::MalformedBencode));
    assert_eq!(decode(b"i12"), Err(Error::MalformedBencode));
    assert_eq!(decode(b"i1x2e"), Err(Error::MalformedBencode));
}

#[test]
fn decode_rejects_out_of_range_integers() {
    let (v, _) = decode(b"i9223372036854775807e").unwrap();
    assert_eq!(v, BencodeValue::Integer(i64::MAX));
    let (v, _) = decode(b"i-9223372036854775808e").unwrap();
    assert_eq!(v, BencodeValue::Integer(i64::MIN));
    assert_eq!(decode(b"i9223372036854775808e"), Err(Error::MalformedBencode));
    assert_eq!(decode(b"i-9223372036854775809e"), Err(Error::MalformedBencode));
}

#[test]
fn decode_byte_string() {
    let (v, n) = decode(b"4:spam").unwrap();
    assert_eq!(v, bs(b"spam"));
    assert_eq!(n, 6);
    let (v, n) = decode(b"0:").unwrap();
    assert_eq!(v, bs(b""));
    assert_eq!(n, 2);
}

#[test]
fn truncated_byte_string_is_malformed() {
    // declared length exceeds the remaining buffer
    assert_eq!(decode(b"5:spam"), Err(Error::MalformedBencode));
    assert_eq!(decode(b"42:x"), Err(Error::MalformedBencode));
    assert_eq!(decode(b"184467440737095516151:x"), Err(Error::MalformedBencode));
    assert_eq!(decode(b"03:abc"), Err(Error::MalformedBencode));
    assert_eq!(decode(b"4spam"), Err(Error::MalformedBencode));
}

#[test]
fn decode_list_and_dict() {
    let (v, n) = decode(b"l4:spami7ee").unwrap();
    assert_eq!(v, BencodeValue::List(vec![bs(b"spam"), BencodeValue::Integer(7)]));
    assert_eq!(n, 11);
    let (v, _) = decode(b"d3:cow3:moo4:spam4:eggse").unwrap();
    assert_eq!(
        v,
        BencodeValue::Dictionary(vec![
            (b"cow".to_vec(), bs(b"moo")),
            (b"spam".to_vec(), bs(b"eggs")),
        ])
    );
}

#[test]
fn decode_rejects_bad_structure() {
    assert_eq!(decode(b""), Err(Error::MalformedBencode));
    assert_eq!(decode(b"x"), Err(Error::MalformedBencode));
    assert_eq!(decode(b"l4:spam"), Err(Error::MalformedBencode));
    assert_eq!(decode(b"d3:cow3:moo"), Err(Error::MalformedBencode));
    assert_eq!(decode(b"di1e3:mooe"), Err(Error::MalformedBencode)); // key not a string
}

#[test]
fn decode_rejects_duplicate_keys() {
    assert_eq!(decode(b"d3:cow3:moo3:cow4:eggse"), Err(Error::MalformedBencode));
}

#[test]
fn round_trip_canonical_value() {
    let v = BencodeValue::Dictionary(vec![
        (b"a".to_vec(), BencodeValue::Integer(-3)),
        (b"b".to_vec(), BencodeValue::List(vec![bs(b"x"), BencodeValue::Integer(0)])),
        (b"c".to_vec(), bs(b"bytes")),
    ]);
    let bytes = encode(&v);
    let (back, n) = decode(&bytes).unwrap();
    assert_eq!(back, v);
    assert_eq!(n, bytes.len());
}

#[test]
fn reencode_sorts_dictionary_keys() {
    // input order is z, a; the decoder accepts it and re-encoding emits
    // ascending key order
    let (v, _) = decode(b"d1:zi1e1:ai2ee").unwrap();
    let out = encode(&v);
    assert_eq!(out, b"d1:ai2e1:zi1ee".to_vec());
}

#[test]
fn encode_canonical_forms() {
    assert_eq!(encode(&BencodeValue::Integer(-42)), b"i-42e".to_vec());
    assert_eq!(encode(&BencodeValue::Integer(0)), b"i0e".to_vec());
    assert_eq!(encode(&bs(b"spam")), b"4:spam".to_vec());
    assert_eq!(encode(&BencodeValue::List(vec![])), b"le".to_vec());
    assert_eq!(encode(&BencodeValue::Dictionary(vec![])), b"de".to_vec());
    assert_eq!(encode(&BencodeValue::Integer(i64::MIN)), b"i-9223372036854775808e".to_vec());
}

#[test]
fn is_digit_bounds() {
    assert!(is_digit(b'0'));
    assert!(is_digit(b'9'));
    assert!(!is_digit(b'/'));
    assert!(!is_digit(b':'));
}

#[test]
fn read_element_spans() {
    let buf = b"i42e4:spamle";
    assert_eq!(read_element(buf, 0), Ok(4));
    assert_eq!(read_element(buf, 4), Ok(10));
    assert_eq!(read_element(buf, 10), Ok(12));
    assert_eq!(read_element(buf, 12), Err(Error::MalformedBencode));
}

#[test]
fn read_token_forms() {
    assert_eq!(read_integer(b"i42e", 0), Ok(4));
    assert_eq!(read_integer(b"4:spam", 0), Err(Error::MalformedBencode));
    assert_eq!(read_bytes(b"4:spam", 0), Ok(6));
    assert_eq!(read_bytes(b"i42e", 0), Err(Error::MalformedBencode));
    assert_eq!(read_list(b"l4:spame", 0), Ok(8));
    assert_eq!(read_list(b"de", 0), Err(Error::MalformedBencode));
    assert_eq!(read_dict(b"d3:cow3:mooe", 0), Ok(12));
    assert_eq!(read_dict(b"le", 0), Err(Error::MalformedBencode));
}

#[test]
fn value_in_dict_returns_raw_span() {
    let buf = b"d3:cow3:moo4:spaml1:a1:bee";
    assert_eq!(value_in_dict(buf, b"cow"), Ok(b"3:moo".to_vec()));
    assert_eq!(value_in_dict(buf, b"spam"), Ok(b"l1:a1:be".to_vec()));
    assert_eq!(value_in_dict(buf, b"eggs"), Err(Error::SchemaViolation));
}

#[test]
fn value_in_dict_validates_like_decode() {
    // not a dictionary
    assert_eq!(value_in_dict(b"l3:cowe", b"cow"), Err(Error::SchemaViolation));
    // malformed anywhere in the buffer, even after a matching key
    assert_eq!(value_in_dict(b"d3:cow3:moo4:spam", b"cow"), Err(Error::MalformedBencode));
    // a duplicate key fails the walk exactly as it fails full decode
    assert_eq!(value_in_dict(b"d3:cow3:moo3:cow3:baae", b"cow"), Err(Error::MalformedBencode));
}

#[test]
fn extract_raw_subvalue_walks_paths() {
    let buf = b"d4:infod6:lengthi4096e4:name4:abcde3:key5:valuee";
    assert_eq!(
        extract_raw_subvalue(buf, &[b"info".to_vec(), b"length".to_vec()]),
        Ok(b"i4096e".to_vec())
    );
    assert_eq!(
        extract_raw_subvalue(buf, &[b"info".to_vec()]),
        Ok(b"d6:lengthi4096e4:name4:abcde".to_vec())
    );
    // the empty path names the whole first value
    assert_eq!(extract_raw_subvalue(b"i7etrailing", &[]), Ok(b"i7e".to_vec()));
    // an absent key at any level
    assert_eq!(
        extract_raw_subvalue(buf, &[b"info".to_vec(), b"nope".to_vec()]),
        Err(Error::SchemaViolation)
    );
    // a non-dictionary in the middle of a path
    assert_eq!(
        extract_raw_subvalue(buf, &[b"key".to_vec(), b"x".to_vec()]),
        Err(Error::SchemaViolation)
    );
    // malformed content fails the walk as it fails full decode
    assert_eq!(
        extract_raw_subvalue(b"d4:info", &[b"info".to_vec()]),
        Err(Error::MalformedBencode)
    );
}
