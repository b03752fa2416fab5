use bde::ser::{MapKeySerializer, MapSerializer, UnsortedMapSerializer};
use bde::value_ser::{SerializeMap, SerializeVec};
use bde::{
    from_bytes, to_bytes, to_bytes_unsorted, ByteString, Dictionary, Error, Integer, Serializer,
    UnsortedSerializer, Value, ValueSerializer,
};
use std::cmp::Ordering;

fn bytes(s: &str) -> Value {
    Value::ByteString(ByteString::from_vec(s.as_bytes().to_vec()))
}

#[test]
fn deserialize_and_serialize_dictionary() {
    let mut map = Dictionary::new();
    map.insert(ByteString::from_slice(b"a"), Value::Integer(Integer::from_u64(10u64)));
    map.insert(ByteString::from_slice(b"c"), Value::Integer(Integer::from_u64(10u64)));
    map.insert(ByteString::from_slice(b"d"), Value::Integer(Integer::from_u64(10u64)));
    map.insert(ByteString::from_slice(b"b"), Value::Integer(Integer::from_u64(10u64)));
    map.insert(ByteString::from_slice(b"e"), Value::Integer(Integer::from_u64(10u64)));

    let len = map.len();
    assert_eq!(len, 5);
    let keys: Vec<&[u8]> = (0..len).map(|i| map.entry(i).0.as_slice()).collect();
    assert_eq!(keys, vec![&b"a"[..], b"b", b"c", b"d", b"e"]);
    for i in 0..len {
        assert_eq!(map.entry(i).1.as_integer().unwrap().as_u64(), Some(10));
    }
    let value = Value::Dictionary(map);
    let encoded = to_bytes(&value);
    assert_eq!(encoded, b"d1:ai10e1:bi10e1:ci10e1:di10e1:ei10ee".to_vec());
    let decoded = from_bytes(&encoded).unwrap();
    assert_eq!(to_bytes(&decoded), encoded);
}

#[test]
fn insert_replaces_equal_key() {
    let mut map = Dictionary::new();
    assert!(map.insert(ByteString::from_slice(b"k"), Value::Integer(Integer::from_i64(1))).is_none());
    let old = map.insert(ByteString::from_slice(b"k"), Value::Integer(Integer::from_i64(2)));
    assert_eq!(old.unwrap().as_integer().unwrap().as_i64(), Some(1));
    assert_eq!(map.len(), 1);
    assert_eq!(to_bytes(&Value::Dictionary(map)), b"d1:ki2ee".to_vec());
}

#[test]
fn integers_are_written_in_decimal() {
    assert_eq!(to_bytes(&Value::Integer(Integer::from_u64(1234))), b"i1234e".to_vec());
    assert_eq!(to_bytes(&Value::Integer(Integer::from_i64(0))), b"i0e".to_vec());
    assert_eq!(to_bytes(&Value::Integer(Integer::from_i64(-907))), b"i-907e".to_vec());
    assert_eq!(
        to_bytes(&Value::Integer(Integer::from_i64(i64::MIN))),
        b"i-9223372036854775808e".to_vec()
    );
    assert_eq!(
        to_bytes(&Value::Integer(Integer::from_u64(u64::MAX))),
        b"i18446744073709551615e".to_vec()
    );
}

#[test]
fn integer_decimal_text() {
    assert_eq!(Integer::from_i64(-12).to_decimal(), b"-12".to_vec());
    assert_eq!(Integer::from_u64(0).to_decimal(), b"0".to_vec());
    assert_eq!(Integer::from_i64(400).to_decimal(), b"400".to_vec());
}

#[test]
fn values_are_totally_ordered() {
    let b = from_bytes(b"1:z").unwrap();
    let i = from_bytes(b"i-5e").unwrap();
    let l = from_bytes(b"li1ee").unwrap();
    let d = from_bytes(b"de").unwrap();
    assert_eq!(b.compare(&i), Ordering::Less);
    assert_eq!(i.compare(&l), Ordering::Less);
    assert_eq!(l.compare(&d), Ordering::Less);
    assert_eq!(d.compare(&b), Ordering::Greater);
    let l2 = from_bytes(b"li1ei0ee").unwrap();
    assert_eq!(l.compare(&l2), Ordering::Less);
    let l3 = from_bytes(b"li2ee").unwrap();
    assert_eq!(l2.compare(&l3), Ordering::Less);
    let d1 = from_bytes(b"d1:ai1ee").unwrap();
    let d2 = from_bytes(b"d1:ai2ee").unwrap();
    let d3 = from_bytes(b"d1:bi0ee").unwrap();
    assert_eq!(d1.compare(&d2), Ordering::Less);
    assert_eq!(d2.compare(&d3), Ordering::Less);
    assert_eq!(d1.compare(&from_bytes(b"d1:ai1ee").unwrap()), Ordering::Equal);
    let small = Value::Integer(Integer::from_i64(7));
    let same = Value::Integer(Integer::from_u64(7));
    assert_eq!(small.compare(&same), Ordering::Equal);
}

#[test]
fn byte_strings_are_written_with_their_length() {
    assert_eq!(to_bytes(&bytes("spam")), b"4:spam".to_vec());
    assert_eq!(to_bytes(&bytes("")), b"0:".to_vec());
    let long = "x".repeat(12);
    let mut expected = b"12:".to_vec();
    expected.extend(long.as_bytes());
    assert_eq!(to_bytes(&bytes(&long)), expected);
}

#[test]
fn canonical_map_serializer_sorts_keys() {
    let mut ser = Serializer::new().serialize_map();
    ser.serialize_entry(&bytes("b"), Value::Integer(Integer::from_i64(1))).unwrap();
    ser.serialize_entry(&bytes("a"), Value::Integer(Integer::from_i64(2))).unwrap();
    let out = ser.end().into_inner();
    assert_eq!(out, b"d1:ai2e1:bi1ee".to_vec());
}

#[test]
fn map_keys_must_be_byte_strings() {
    let mut ser = MapSerializer::new(Serializer::new());
    assert_eq!(
        ser.serialize_entry(&Value::Integer(Integer::from_i64(1)), bytes("v")).unwrap_err(),
        Error::DictionaryKeyMustBeByteString
    );
    assert_eq!(
        MapKeySerializer::new().serialize_value(&Value::List(Vec::new())).unwrap_err(),
        Error::DictionaryKeyMustBeByteString
    );
    assert_eq!(MapKeySerializer::new().serialize_bytes(b"k").unwrap().as_slice(), b"k");
}

#[test]
fn unsorted_serializer_keeps_caller_order() {
    let mut ser = UnsortedSerializer::new().serialize_map();
    ser.serialize_key(&bytes("b")).unwrap();
    ser.serialize_value(&Value::Integer(Integer::from_i64(1)));
    ser.serialize_key(&bytes("a")).unwrap();
    ser.serialize_value(&Value::Integer(Integer::from_i64(2)));
    let out = ser.end().into_inner();
    assert_eq!(out, b"d1:bi1e1:ai2ee".to_vec());
    let mut ser = UnsortedMapSerializer::new(UnsortedSerializer::new());
    assert_eq!(
        ser.serialize_key(&Value::Integer(Integer::from_i64(1))).unwrap_err(),
        Error::DictionaryKeyMustBeByteString
    );
}

#[test]
fn serializers_write_primitives() {
    let mut ser = UnsortedSerializer::new();
    ser.serialize_seq();
    ser.serialize_i64(-5);
    ser.serialize_u64(7);
    ser.serialize_bytes(b"ab");
    ser.end();
    assert_eq!(ser.into_inner(), b"li-5ei7e2:abe".to_vec());
    let mut ser = Serializer::new();
    ser.serialize_seq();
    ser.serialize_integer(&Integer::from_u64(3));
    ser.serialize_bytes(b"");
    ser.end();
    assert_eq!(ser.into_inner(), b"li3e0:e".to_vec());
}

#[test]
fn both_writers_agree_on_values() {
    let v = from_bytes(b"d1:ali1e1:xe1:bd1:ci-1eee").unwrap();
    assert_eq!(to_bytes(&v), to_bytes_unsorted(&v));
    assert_eq!(to_bytes(&v), b"d1:ali1e1:xe1:bd1:ci-1eee".to_vec());
}

#[test]
fn value_serializer_builds_values() {
    let vs = ValueSerializer::new();
    let mut list = vs.serialize_seq(Some(2));
    list.serialize_element(vs.serialize_i64(-1));
    list.serialize_element(vs.serialize_str("hi"));
    let list = list.end();
    let mut map: SerializeMap = vs.serialize_map();
    map.serialize_entry(&vs.serialize_bytes(b"z"), vs.serialize_u64(9)).unwrap();
    map.serialize_entry(&vs.serialize_str("list"), list).unwrap();
    assert_eq!(
        map.serialize_entry(&vs.serialize_u64(1), vs.serialize_u64(1)).unwrap_err(),
        Error::DictionaryKeyMustBeByteString
    );
    let v = map.end();
    assert_eq!(to_bytes(&v), b"d4:listli-1e2:hie1:zi9ee".to_vec());
    let empty = SerializeVec::new().end();
    assert_eq!(to_bytes(&empty), b"le".to_vec());
}

#[test]
fn integers_compare_by_value() {
    let a = Integer::from_i64(5);
    let b = Integer::from_u64(5);
    assert_eq!(a.compare(&b), Ordering::Equal);
    assert_eq!(Integer::from_i64(-1).compare(&Integer::from_u64(0)), Ordering::Less);
    assert_eq!(Integer::from_u64(u64::MAX).compare(&Integer::from_i64(i64::MAX)), Ordering::Greater);
    assert!(a.is_u64());
    assert_eq!(a.as_u64(), Some(5));
    assert!(!Integer::from_i64(-3).is_u64());
    assert!(Integer::from_u64(3).is_i64());
    assert!(!Integer::from_u64(u64::MAX).is_i64());
}

#[test]
fn byte_strings_compare_bytewise() {
    let a = ByteString::from_slice(b"ab");
    let b = ByteString::from_slice(b"abc");
    let c = ByteString::from_slice(b"b");
    assert_eq!(a.compare(&b), Ordering::Less);
    assert_eq!(b.compare(&c), Ordering::Less);
    assert_eq!(c.compare(&a), Ordering::Greater);
    assert!(a.equals(&ByteString::from_vec(b"ab".to_vec())));
    let mut d = ByteString::with_capacity(4);
    assert!(d.is_empty());
    d.push(b'a');
    d.push(b'b');
    assert_eq!(d.compare(&a), Ordering::Equal);
    assert_eq!(d.inner(), b"ab".to_vec());
    assert!(ByteString::new().is_empty());
}

#[test]
fn decoded_value_equals_built_value() {
    let mut d = Dictionary::new();
    d.insert(ByteString::from_slice(b"car"), bytes("red"));
    d.insert(ByteString::from_slice(b"banana"), Value::Integer(Integer::from_i64(123)));
    let built = Value::Dictionary(d);
    assert_eq!(from_bytes(b"d6:bananai123e3:car3:rede").unwrap(), built);
    assert_ne!(from_bytes(b"d6:bananai124e3:car3:rede").unwrap(), built);
    assert_eq!(Integer::from_i64(5), Integer::from_u64(5));
    assert_ne!(Integer::from_i64(-5), Integer::from_u64(5));
    assert_eq!(ByteString::from_slice(b"x"), ByteString::from_vec(vec![b'x']));
}

#[test]
fn values_sort_deterministically() {
    let mut values = vec![
        from_bytes(b"de").unwrap(),
        from_bytes(b"i3e").unwrap(),
        from_bytes(b"le").unwrap(),
        from_bytes(b"1:a").unwrap(),
        from_bytes(b"i-3e").unwrap(),
    ];
    values.sort_by(|a, b| a.partial_cmp(b).unwrap());
    let encoded: Vec<Vec<u8>> = values.iter().map(to_bytes).collect();
    assert_eq!(
        encoded,
        vec![b"1:a".to_vec(), b"i-3e".to_vec(), b"i3e".to_vec(), b"le".to_vec(), b"de".to_vec()]
    );
    assert!(Integer::from_i64(-1) < Integer::from_u64(1));
    assert!(ByteString::from_slice(b"ab") < ByteString::from_slice(b"b"));
}
