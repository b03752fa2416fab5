//! Building a value from the primitives of a native value, piece by piece.
use crate::byte_string::ByteString;
use crate::error::Error;
use crate::integer::Integer;
use crate::ser::MapKeySerializer;
use crate::value::{insert_entry, sorted_keys, list_model, Bencode, Dictionary, Value};
use vstd::prelude::*;
use vstd::string::StringSliceAdditionalSpecFns;

verus! {

/// Turns primitives into values.
pub struct ValueSerializer;

impl ValueSerializer {
    pub fn new() -> Self {
        ValueSerializer
    }

    pub fn serialize_i64(&self, n: i64) -> (r: Value)
        ensures
            r@ == Bencode::Int(n as int),
    {
        Value::Integer(Integer::from_i64(n))
    }

    pub fn serialize_u64(&self, n: u64) -> (r: Value)
        ensures
            r@ == Bencode::Int(n as int),
    {
        Value::Integer(Integer::from_u64(n))
    }

    pub fn serialize_bytes(&self, b: &[u8]) -> (r: Value)
        ensures
            r@ == Bencode::Bytes(b@),
    {
        Value::ByteString(ByteString::from_slice(b))
    }

    /// Text becomes the byte string of its UTF-8 bytes.
    pub fn serialize_str(&self, s: &str) -> (r: Value)
        ensures
            r@ == Bencode::Bytes(s.spec_bytes()),
    {
        Value::ByteString(ByteString::from_slice(s.as_bytes()))
    }

    /// Starts a list.
    pub fn serialize_seq(&self, len: Option<usize>) -> (r: SerializeVec)
        ensures
            r.items() == Seq::<Bencode>::empty(),
    {
        match len {
            Some(n) => SerializeVec::with_capacity(n),
            None => SerializeVec::new(),
        }
    }

    /// Starts a dictionary.
    pub fn serialize_map(&self) -> (r: SerializeMap)
        ensures
            r.entries() == Seq::<(Seq<u8>, Bencode)>::empty(),
            r.wf(),
    {
        SerializeMap::new()
    }
}

/// Gathers the items of a list.
pub struct SerializeVec {
    vec: Vec<Value>,
}

impl SerializeVec {
    /// The items gathered so far.
    pub closed spec fn items(&self) -> Seq<Bencode> {
        list_model(self.vec@)
    }

    pub fn new() -> (r: Self)
        ensures
            r.items() == Seq::<Bencode>::empty(),
    {
        SerializeVec { vec: Vec::new() }
    }

    pub fn with_capacity(capacity: usize) -> (r: Self)
        ensures
            r.items() == Seq::<Bencode>::empty(),
    {
        SerializeVec { vec: Vec::with_capacity(capacity) }
    }

    /// Appends an item.
    pub fn serialize_element(&mut self, v: Value)
        ensures
            final(self).items() == old(self).items().push(v@),
    {
        let ghost before = self.vec@;
        self.vec.push(v);
        assert(self.vec@.drop_last() =~= before);
    }

    /// The list of the items gathered.
    pub fn end(self) -> (r: Value)
        ensures
            r@ == Bencode::List(self.items()),
    {
        Value::List(self.vec)
    }
}

/// Gathers the entries of a dictionary, in key order.
pub struct SerializeMap {
    dictionary: Dictionary,
}

impl SerializeMap {
    /// The entries gathered so far, in key order.
    pub closed spec fn entries(&self) -> Seq<(Seq<u8>, Bencode)> {
        self.dictionary.model()
    }

    /// The entries gathered have sorted keys.
    pub open spec fn wf(&self) -> bool {
        sorted_keys(self.entries())
    }

    pub fn new() -> (r: Self)
        ensures
            r.entries() == Seq::<(Seq<u8>, Bencode)>::empty(),
            r.wf(),
    {
        SerializeMap { dictionary: Dictionary::new() }
    }

    /// Adds an entry; its key must be a byte string. A later entry with the
    /// same key replaces an earlier one.
    pub fn serialize_entry(&mut self, key: &Value, value: Value) -> (r: Result<(), Error>)
        requires
            old(self).wf(),
        ensures
            final(self).wf(),
            key is ByteString ==> r is Ok && final(self).entries() == insert_entry(
                old(self).entries(),
                key->ByteString_0@,
                value@,
            ),
            !(key is ByteString) ==> r == Err::<(), Error>(Error::DictionaryKeyMustBeByteString)
                && final(self).entries() == old(self).entries(),
    {
        match MapKeySerializer::new().serialize_value(key) {
            Ok(k) => {
                self.dictionary.insert(k, value);
                Ok(())
            },
            Err(e) => Err(e),
        }
    }

    /// The dictionary of the entries gathered.
    pub fn end(self) -> (r: Value)
        ensures
            r@ == Bencode::Dict(self.entries()),
    {
        Value::Dictionary(self.dictionary)
    }
}

} // verus!
