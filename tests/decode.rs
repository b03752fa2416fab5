use bde::de::{Deserializer, MapDeserializer};
use bde::error::{Expected, Kind};
use bde::grammar::MAX_DEPTH;
use bde::{from_bytes, to_bytes, Error, Value};

#[test]
fn de_zero_lenght_byte_string() {
    let mut de = Deserializer::from_bytes(b"0:");
    assert_eq!("", de.deserialize_str().unwrap());
    de.check_trailing_bytes().unwrap();
}

#[test]
fn deserializer_zero_lenght_byte_string() {
    let mut de = Deserializer::from_bytes(b"0:");
    assert_eq!("", de.deserialize_str().unwrap());
    assert!(de.check_trailing_bytes().is_ok());
}

#[test]
fn zero_length_byte_string_consumes_two_bytes() {
    let mut de = Deserializer::from_bytes(b"0:i1e");
    let b = de.parse_byte_string().unwrap();
    assert!(b.is_empty());
    assert_eq!(de.position(), 2);
    let v = from_bytes(b"0:").unwrap();
    assert_eq!(v.as_byte_string().unwrap().len(), 0);
}

#[test]
fn leading_zero_is_rejected() {
    assert_eq!(from_bytes(b"i01e").unwrap_err(), Error::LeadingZero);
}

#[test]
fn negative_zero_is_rejected() {
    assert_eq!(from_bytes(b"i-0e").unwrap_err(), Error::NegativeZero);
}

#[test]
fn unsorted_keys_are_rejected() {
    assert_eq!(from_bytes(b"d3:fooi1e3:bari2ee").unwrap_err(), Error::UnsortedDictionaryKeys);
}

#[test]
fn duplicate_keys_are_rejected() {
    assert_eq!(from_bytes(b"d1:ai1e1:ai2ee").unwrap_err(), Error::UnsortedDictionaryKeys);
}

#[test]
fn value_missing_after_last_key() {
    // The key "foo" is followed by the dictionary's end, where a value must stand.
    assert_eq!(
        from_bytes(b"d3:bar4:spam3:fooee").unwrap_err(),
        Error::UnexpectedToken { expected: Expected::ValueStart, found: b'e', offset: 17 }
    );
}

#[test]
fn largest_signed_integer() {
    let v = from_bytes(b"i9223372036854775807e").unwrap();
    assert_eq!(v.as_integer().unwrap().as_i64(), Some(i64::MAX));
    let mut de = Deserializer::from_bytes(b"i9223372036854775807e");
    assert_eq!(de.deserialize_i64().unwrap(), i64::MAX);
}

#[test]
fn largest_unsigned_integer() {
    let v = from_bytes(b"i18446744073709551615e").unwrap();
    assert_eq!(v.as_integer().unwrap().as_u64(), Some(u64::MAX));
    assert_eq!(v.as_integer().unwrap().as_i64(), None);
    let mut de = Deserializer::from_bytes(b"i18446744073709551615e");
    assert_eq!(de.deserialize_u64().unwrap(), u64::MAX);
}

#[test]
fn largest_unsigned_overflows_signed_slot() {
    let mut de = Deserializer::from_bytes(b"i18446744073709551615e");
    assert_eq!(de.deserialize_i64().unwrap_err(), Error::IntegerOverflow);
}

#[test]
fn one_past_the_bounds_overflows() {
    let mut de = Deserializer::from_bytes(b"i9223372036854775808e");
    assert_eq!(de.deserialize_i64().unwrap_err(), Error::IntegerOverflow);
    assert_eq!(from_bytes(b"i18446744073709551616e").unwrap_err(), Error::IntegerOverflow);
    let mut de = Deserializer::from_bytes(b"i256e");
    assert_eq!(de.deserialize_u8().unwrap_err(), Error::IntegerOverflow);
    let mut de = Deserializer::from_bytes(b"i255e");
    assert_eq!(de.deserialize_u8().unwrap(), 255);
    let mut de = Deserializer::from_bytes(b"i-129e");
    assert_eq!(de.deserialize_i8().unwrap_err(), Error::IntegerOverflow);
    let mut de = Deserializer::from_bytes(b"i-128e");
    assert_eq!(de.deserialize_i8().unwrap(), -128);
    let mut de = Deserializer::from_bytes(b"i128e");
    assert_eq!(de.deserialize_i8().unwrap_err(), Error::IntegerOverflow);
    let mut de = Deserializer::from_bytes(b"i-2147483648e");
    assert_eq!(de.deserialize_i32().unwrap(), i32::MIN);
    let mut de = Deserializer::from_bytes(b"i-32769e");
    assert_eq!(de.deserialize_i16().unwrap_err(), Error::IntegerOverflow);
}

#[test]
fn overflow_wins_over_missing_end() {
    assert_eq!(from_bytes(b"i99999999999999999999").unwrap_err(), Error::IntegerOverflow);
    assert_eq!(from_bytes(b"i99").unwrap_err(), Error::UnexpectedEndOfInput);
}

#[test]
fn trailing_bytes_are_rejected() {
    assert_eq!(from_bytes(b"i1ee").unwrap_err(), Error::TrailingBytesAfterValue);
    let mut de = Deserializer::from_bytes(b"i1ee");
    let v = de.parse_value(MAX_DEPTH).unwrap();
    assert_eq!(v.as_integer().unwrap().as_i64(), Some(1));
    assert_eq!(de.position(), 3);
    assert_eq!(de.check_trailing_bytes().unwrap_err(), Error::TrailingBytesAfterValue);
}

#[test]
fn nested_dictionary_round_trip() {
    let bytes = b"d6:bananai123e3:car3:rede";
    let v = from_bytes(bytes).unwrap();
    let d = v.as_dictionary().unwrap();
    assert_eq!(d.len(), 2);
    let (k0, v0) = d.entry(0);
    assert_eq!(k0.as_slice(), b"banana");
    assert_eq!(v0.as_integer().unwrap().as_u64(), Some(123));
    let (k1, v1) = d.entry(1);
    assert_eq!(k1.as_slice(), b"car");
    assert_eq!(v1.as_byte_string().unwrap().as_slice(), b"red");
    assert_eq!(d.get(b"car").unwrap().as_byte_string().unwrap().as_slice(), b"red");
    assert!(d.get(b"apple").is_none());
    assert_eq!(to_bytes(&v), bytes.to_vec());
}

#[test]
fn deep_document_round_trip() {
    let bytes = b"d4:infod6:lengthi-42e6:piecesl0:2:abli0eeee4:listld1:xleee3:top3:ende";
    let v = from_bytes(bytes).unwrap();
    assert_eq!(to_bytes(&v), bytes.to_vec());
}

#[test]
fn empty_containers() {
    let l = from_bytes(b"le").unwrap();
    assert!(l.is_list());
    assert_eq!(l.as_list().unwrap().len(), 0);
    let d = from_bytes(b"de").unwrap();
    assert!(d.is_dictionary());
    assert_eq!(d.as_dictionary().unwrap().len(), 0);
    assert_eq!(to_bytes(&l), b"le".to_vec());
    assert_eq!(to_bytes(&d), b"de".to_vec());
}

#[test]
fn recursion_limit() {
    let mut deep = vec![b'l'; MAX_DEPTH];
    deep.extend(vec![b'e'; MAX_DEPTH]);
    assert!(from_bytes(&deep).is_ok());
    let mut deeper = vec![b'l'; MAX_DEPTH + 1];
    deeper.extend(vec![b'e'; MAX_DEPTH + 1]);
    assert_eq!(from_bytes(&deeper).unwrap_err(), Error::RecursionLimitExceeded);
}

#[test]
fn end_of_input_errors() {
    assert_eq!(from_bytes(b"").unwrap_err(), Error::UnexpectedEndOfInput);
    assert_eq!(from_bytes(b"i12").unwrap_err(), Error::UnexpectedEndOfInput);
    assert_eq!(from_bytes(b"5:ab").unwrap_err(), Error::UnexpectedEndOfInput);
    assert_eq!(from_bytes(b"li1e").unwrap_err(), Error::UnexpectedEndOfInput);
    assert_eq!(from_bytes(b"d1:a").unwrap_err(), Error::UnexpectedEndOfInput);
}

#[test]
fn unexpected_token_errors() {
    assert_eq!(
        from_bytes(b"x").unwrap_err(),
        Error::UnexpectedToken { expected: Expected::ValueStart, found: b'x', offset: 0 }
    );
    assert_eq!(
        from_bytes(b"i12x").unwrap_err(),
        Error::UnexpectedToken { expected: Expected::Byte(b'e'), found: b'x', offset: 4 }
    );
    assert_eq!(
        from_bytes(b"i0x").unwrap_err(),
        Error::UnexpectedToken { expected: Expected::Byte(b'e'), found: b'x', offset: 3 }
    );
    assert_eq!(
        from_bytes(b"i-xe").unwrap_err(),
        Error::UnexpectedToken { expected: Expected::Digit, found: b'x', offset: 2 }
    );
    assert_eq!(
        from_bytes(b"3-abc").unwrap_err(),
        Error::UnexpectedToken { expected: Expected::Byte(b':'), found: b'-', offset: 2 }
    );
    assert_eq!(
        from_bytes(b"di1ei2ee").unwrap_err(),
        Error::UnexpectedToken { expected: Expected::Digit, found: b'i', offset: 1 }
    );
}

#[test]
fn typed_reads_report_mismatches() {
    let mut de = Deserializer::from_bytes(b"3:abc");
    assert_eq!(
        de.deserialize_i64().unwrap_err(),
        Error::TypeMismatch { expected_class: Kind::Integer, found_byte: b'3' }
    );
    let mut de = Deserializer::from_bytes(b"le");
    assert_eq!(
        de.begin_dictionary().unwrap_err(),
        Error::TypeMismatch { expected_class: Kind::Dictionary, found_byte: b'l' }
    );
    let mut de = Deserializer::from_bytes(b"de");
    assert_eq!(
        de.begin_list().unwrap_err(),
        Error::UnexpectedToken { expected: Expected::Byte(b'l'), found: b'd', offset: 1 }
    );
    let mut de = Deserializer::from_bytes(b"i-5e");
    assert_eq!(
        de.deserialize_u32().unwrap_err(),
        Error::UnexpectedToken { expected: Expected::Digit, found: b'-', offset: 1 }
    );
}

#[test]
fn text_must_be_utf8() {
    let mut de = Deserializer::from_bytes(b"3:abc");
    assert_eq!(de.deserialize_str().unwrap(), "abc");
    let mut de = Deserializer::from_bytes(b"2:\xff\xfe");
    assert_eq!(de.deserialize_str().unwrap_err(), Error::InvalidTextEncoding);
}

#[test]
fn typed_list_and_dictionary_walk() {
    let mut de = Deserializer::from_bytes(b"d1:ali1ei2ee1:bi-3ee");
    de.begin_dictionary().unwrap();
    let mut keys = MapDeserializer::new();
    let k = keys.next_key(&mut de).unwrap().unwrap();
    assert_eq!(k.as_slice(), b"a");
    de.begin_list().unwrap();
    assert!(de.next_element_begins().unwrap());
    assert_eq!(de.deserialize_i32().unwrap(), 1);
    assert!(de.next_element_begins().unwrap());
    assert_eq!(de.deserialize_u16().unwrap(), 2);
    assert!(!de.next_element_begins().unwrap());
    let k = keys.next_key(&mut de).unwrap().unwrap();
    assert_eq!(k.as_slice(), b"b");
    assert_eq!(de.deserialize_i16().unwrap(), -3);
    assert!(keys.next_key(&mut de).unwrap().is_none());
    assert!(de.check_trailing_bytes().is_ok());
}

#[test]
fn byte_strings_need_not_be_text() {
    let v = from_bytes(b"3:\x00\xff\x10").unwrap();
    assert_eq!(v.as_byte_string().unwrap().as_slice(), &[0u8, 255, 16]);
    assert!(!v.is_integer());
    assert!(!v.is_list());
    assert!(matches!(v, Value::ByteString(_)));
}

#[test]
fn smallest_signed_integer() {
    let mut de = Deserializer::from_bytes(b"i-9223372036854775808e");
    assert_eq!(de.deserialize_i64().unwrap(), i64::MIN);
    let v = from_bytes(b"i-9223372036854775808e").unwrap();
    assert_eq!(v.as_integer().unwrap().as_i64(), Some(i64::MIN));
    assert_eq!(to_bytes(&v), b"i-9223372036854775808e".to_vec());
    assert_eq!(from_bytes(b"i-9223372036854775809e").unwrap_err(), Error::IntegerOverflow);
    let mut de = Deserializer::from_bytes(b"i-9223372036854775809e");
    assert_eq!(de.deserialize_i64().unwrap_err(), Error::IntegerOverflow);
}

#[test]
fn encoded_extremes_decode_back() {
    for v in [
        Value::Integer(bde::Integer::from_i64(i64::MIN)),
        Value::Integer(bde::Integer::from_u64(u64::MAX)),
        Value::Integer(bde::Integer::from_u64(i64::MAX as u64 + 1)),
    ] {
        let bytes = to_bytes(&v);
        assert_eq!(from_bytes(&bytes).unwrap(), v);
    }
}
