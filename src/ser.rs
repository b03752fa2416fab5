//! Encoding: writers that append the bytes of values to a buffer.
use crate::byte_string::ByteString;
use crate::error::Error;
use crate::grammar::{decimal, encode, encode_bytes, encode_entries};
use crate::integer::Integer;
use crate::value::{insert_entry, sorted_keys, Bencode, Dictionary, Value};
use vstd::prelude::*;

verus! {

/// Relies on itoa::Buffer::format: the decimal text of an unsigned integer,
/// without leading zeros.
#[verifier::external_body]
pub(crate) fn decimal_digits(n: u64) -> (r: Vec<u8>)
    ensures
        r@ == decimal(n as nat),
{
    let mut buffer = itoa::Buffer::new();
    buffer.format(n).as_bytes().to_vec()
}

/// Appends `bytes` to `out`.
pub(crate) fn write_all(out: &mut Vec<u8>, bytes: &[u8])
    ensures
        final(out)@ == old(out)@ + bytes@,
{
    let ghost start = out@;
    let mut i: usize = 0;
    while i < bytes.len()
        invariant
            i <= bytes@.len(),
            out@ == start + bytes@.take(i as int),
        decreases bytes.len() - i,
    {
        out.push(bytes[i]);
        i = i + 1;
        assert(out@ =~= start + bytes@.take(i as int));
    }
    assert(bytes@.take(i as int) =~= bytes@);
}

/// Appends the encoding of the integer `n`.
pub(crate) fn write_integer(out: &mut Vec<u8>, n: &Integer)
    ensures
        final(out)@ == old(out)@ + encode(Bencode::Int(n@)),
{
    let ghost start = out@;
    out.push(105);
    let mut digits = n.to_decimal();
    out.append(&mut digits);
    out.push(101);
    assert(out@ =~= start + encode(Bencode::Int(n@)));
}

/// Appends the encoding of the byte string `b`.
pub(crate) fn write_byte_string(out: &mut Vec<u8>, b: &[u8])
    ensures
        final(out)@ == old(out)@ + encode_bytes(b@),
{
    let ghost start = out@;
    let mut digits = decimal_digits(b.len() as u64);
    out.append(&mut digits);
    out.push(58);
    write_all(out, b);
    assert(out@ =~= start + encode_bytes(b@));
}

/// Writes values as they come: dictionary entries go out in the order the
/// caller gives them, with no sorting and no check.
pub struct UnsortedSerializer {
    writer: Vec<u8>,
}

impl UnsortedSerializer {
    /// The bytes written so far.
    pub closed spec fn written(&self) -> Seq<u8> {
        self.writer@
    }

    /// A serializer that has written nothing.
    pub fn new() -> (r: Self)
        ensures
            r.written() == Seq::<u8>::empty(),
    {
        UnsortedSerializer { writer: Vec::new() }
    }

    /// The bytes written.
    pub fn into_inner(self) -> (r: Vec<u8>)
        ensures
            r@ == self.written(),
    {
        self.writer
    }

    /// Writes an integer.
    pub fn serialize_integer(&mut self, n: &Integer)
        ensures
            final(self).written() == old(self).written() + encode(Bencode::Int(n@)),
    {
        write_integer(&mut self.writer, n);
    }

    /// Writes a signed integer.
    pub fn serialize_i64(&mut self, n: i64)
        ensures
            final(self).written() == old(self).written() + encode(Bencode::Int(n as int)),
    {
        write_integer(&mut self.writer, &Integer::from_i64(n));
    }

    /// Writes an unsigned integer.
    pub fn serialize_u64(&mut self, n: u64)
        ensures
            final(self).written() == old(self).written() + encode(Bencode::Int(n as int)),
    {
        write_integer(&mut self.writer, &Integer::from_u64(n));
    }

    /// Writes a byte string.
    pub fn serialize_bytes(&mut self, b: &[u8])
        ensures
            final(self).written() == old(self).written() + encode_bytes(b@),
    {
        write_byte_string(&mut self.writer, b);
    }

    /// Writes a whole value.
    pub fn serialize_value(&mut self, v: &Value)
        ensures
            final(self).written() == old(self).written() + encode(v@),
    {
        v.encode_into(&mut self.writer);
    }

    /// Starts a list: its items follow, then `end`.
    pub fn serialize_seq(&mut self)
        ensures
            final(self).written() == old(self).written().push(108),
    {
        self.writer.push(108);
    }

    /// Ends a list or a dictionary.
    pub fn end(&mut self)
        ensures
            final(self).written() == old(self).written().push(101),
    {
        self.writer.push(101);
    }

    /// Starts a dictionary whose entries are written as they come.
    pub fn serialize_map(self) -> (r: UnsortedMapSerializer)
        ensures
            r.written() == self.written().push(100),
    {
        let mut serializer = self;
        serializer.writer.push(100);
        UnsortedMapSerializer::new(serializer)
    }
}

/// Writes the entries of one dictionary in the order the caller gives them.
pub struct UnsortedMapSerializer {
    pub serializer: UnsortedSerializer,
}

impl UnsortedMapSerializer {
    /// The bytes written so far.
    pub open spec fn written(&self) -> Seq<u8> {
        self.serializer.written()
    }

    /// Takes over `serializer` for the entries of a dictionary.
    pub fn new(serializer: UnsortedSerializer) -> (r: Self)
        ensures
            r.written() == serializer.written(),
    {
        UnsortedMapSerializer { serializer }
    }

    /// Writes a key, which must be a byte string.
    pub fn serialize_key(&mut self, key: &Value) -> (r: Result<(), Error>)
        ensures
            key is ByteString ==> r is Ok && final(self).written() == old(self).written()
                + encode_bytes(key->ByteString_0@),
            !(key is ByteString) ==> r == Err::<(), Error>(Error::DictionaryKeyMustBeByteString)
                && final(self).written() == old(self).written(),
    {
        match MapKeySerializer::new().serialize_value(key) {
            Ok(k) => {
                self.serializer.serialize_bytes(k.as_slice());
                Ok(())
            },
            Err(e) => Err(e),
        }
    }

    /// Writes the value of the entry whose key was written last.
    pub fn serialize_value(&mut self, value: &Value)
        ensures
            final(self).written() == old(self).written() + encode(value@),
    {
        self.serializer.serialize_value(value);
    }

    /// Ends the dictionary and hands the serializer back.
    pub fn end(self) -> (r: UnsortedSerializer)
        ensures
            r.written() == self.written().push(101),
    {
        let mut serializer = self.serializer;
        serializer.end();
        serializer
    }
}

/// Turns a dictionary key into its bytes: only a byte string can be one.
pub struct MapKeySerializer;

impl MapKeySerializer {
    pub fn new() -> Self {
        MapKeySerializer
    }

    /// The bytes of a key given as a value.
    pub fn serialize_value(&self, key: &Value) -> (r: Result<ByteString, Error>)
        ensures
            key is ByteString ==> r is Ok && r->Ok_0@ == key->ByteString_0@,
            !(key is ByteString) ==> r == Err::<ByteString, Error>(
                Error::DictionaryKeyMustBeByteString,
            ),
    {
        match key {
            Value::ByteString(b) => Ok(ByteString::from_slice(b.as_slice())),
            _ => Err(Error::DictionaryKeyMustBeByteString),
        }
    }

    /// The bytes of a key given as bytes.
    pub fn serialize_bytes(&self, key: &[u8]) -> (r: Result<ByteString, Error>)
        ensures
            r is Ok && r->Ok_0@ == key@,
    {
        Ok(ByteString::from_slice(key))
    }
}

/// Writes values in canonical form: the entries of a dictionary are
/// gathered and go out in ascending key order, whatever order they came in.
pub struct Serializer {
    unsorted_serializer: UnsortedSerializer,
}

impl Serializer {
    /// The bytes written so far.
    pub closed spec fn written(&self) -> Seq<u8> {
        self.unsorted_serializer.written()
    }

    /// A serializer that has written nothing.
    pub fn new() -> (r: Self)
        ensures
            r.written() == Seq::<u8>::empty(),
    {
        Serializer { unsorted_serializer: UnsortedSerializer::new() }
    }

    /// The bytes written.
    pub fn into_inner(self) -> (r: Vec<u8>)
        ensures
            r@ == self.written(),
    {
        self.unsorted_serializer.into_inner()
    }

    /// Writes an integer.
    pub fn serialize_integer(&mut self, n: &Integer)
        ensures
            final(self).written() == old(self).written() + encode(Bencode::Int(n@)),
    {
        self.unsorted_serializer.serialize_integer(n);
    }

    /// Writes a byte string.
    pub fn serialize_bytes(&mut self, b: &[u8])
        ensures
            final(self).written() == old(self).written() + encode_bytes(b@),
    {
        self.unsorted_serializer.serialize_bytes(b);
    }

    /// Writes a whole value; the keys of its dictionaries go out in the order
    /// they are held, which is ascending.
    pub fn serialize_value(&mut self, v: &Value)
        ensures
            final(self).written() == old(self).written() + encode(v@),
    {
        self.unsorted_serializer.serialize_value(v);
    }

    /// Starts a list: its items follow, then `end`.
    pub fn serialize_seq(&mut self)
        ensures
            final(self).written() == old(self).written().push(108),
    {
        self.unsorted_serializer.serialize_seq();
    }

    /// Ends a list.
    pub fn end(&mut self)
        ensures
            final(self).written() == old(self).written().push(101),
    {
        self.unsorted_serializer.end();
    }

    /// Starts a dictionary whose entries are gathered and written sorted.
    pub fn serialize_map(self) -> (r: MapSerializer)
        ensures
            r.written() == self.written().push(100),
            r.entries() == Seq::<(Seq<u8>, Bencode)>::empty(),
            r.wf(),
    {
        let mut serializer = self;
        serializer.unsorted_serializer.writer.push(100);
        MapSerializer::new(serializer)
    }
}

/// Gathers the entries of one dictionary, then writes them in ascending key
/// order.
pub struct MapSerializer {
    serializer: Serializer,
    dictionary: Dictionary,
}

impl MapSerializer {
    /// The bytes written so far.
    pub closed spec fn written(&self) -> Seq<u8> {
        self.serializer.written()
    }

    /// The entries gathered so far, in key order.
    pub closed spec fn entries(&self) -> Seq<(Seq<u8>, Bencode)> {
        self.dictionary.model()
    }

    /// The entries gathered have sorted keys.
    pub open spec fn wf(&self) -> bool {
        sorted_keys(self.entries())
    }

    /// Takes over `serializer` for the entries of a dictionary.
    pub fn new(serializer: Serializer) -> (r: Self)
        ensures
            r.written() == serializer.written(),
            r.entries() == Seq::<(Seq<u8>, Bencode)>::empty(),
            r.wf(),
    {
        MapSerializer { serializer, dictionary: Dictionary::new() }
    }

    /// Adds an entry; its key must be a byte string. A later entry with the
    /// same key replaces an earlier one.
    pub fn serialize_entry(&mut self, key: &Value, value: Value) -> (r: Result<(), Error>)
        requires
            old(self).wf(),
        ensures
            final(self).wf(),
            final(self).written() == old(self).written(),
            key is ByteString ==> r is Ok && final(self).entries() == insert_entry(
                old(self).entries(),
                key->ByteString_0@,
                value@,
            ),
            !(key is ByteString) ==> r == Err::<(), Error>(Error::DictionaryKeyMustBeByteString)
                && final(self).entries() == old(self).entries(),
    {
        match MapKeySerializer::new().serialize_value(key) {
            Ok(k) => {
                self.dictionary.insert(k, value);
                Ok(())
            },
            Err(e) => Err(e),
        }
    }

    /// Writes the entries in key order, ends the dictionary, and hands the
    /// serializer back.
    pub fn end(self) -> (r: Serializer)
        ensures
            r.written() == self.written() + encode_entries(self.entries()) + seq![101u8],
    {
        let mut serializer = self.serializer;
        let ghost start = serializer.written();
        let ghost m = self.dictionary.model();
        let n = self.dictionary.len();
        let mut i: usize = 0;
        assert(m.take(0) =~= Seq::<(Seq<u8>, Bencode)>::empty());
        while i < n
            invariant
                n == m.len(),
                i <= n,
                m == self.dictionary.model(),
                serializer.written() == start + encode_entries(m.take(i as int)),
            decreases n - i,
        {
            proof {
                crate::grammar::lemma_encode_entries_step(m, i as int);
            }
            let (k, v) = self.dictionary.entry(i);
            serializer.serialize_bytes(k.as_slice());
            serializer.serialize_value(v);
            i = i + 1;
            assert(serializer.written() =~= start + encode_entries(m.take(i as int)));
        }
        assert(m.take(i as int) =~= m);
        serializer.end();
        assert(serializer.written() =~= start + encode_entries(m) + seq![101u8]);
        serializer
    }
}

/// The canonical encoding of a value.
pub fn to_bytes(v: &Value) -> (r: Vec<u8>)
    ensures
        r@ == encode(v@),
{
    let mut serializer = Serializer::new();
    serializer.serialize_value(v);
    assert(serializer.written() =~= encode(v@));
    serializer.into_inner()
}

/// The encoding of a value by the serializer that does not sort.
pub fn to_bytes_unsorted(v: &Value) -> (r: Vec<u8>)
    ensures
        r@ == encode(v@),
{
    let mut serializer = UnsortedSerializer::new();
    serializer.serialize_value(v);
    assert(serializer.written() =~= encode(v@));
    serializer.into_inner()
}

} // verus!
