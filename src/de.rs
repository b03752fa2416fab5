//! Decoding: a cursor over a borrowed byte slice, read by the grammar's rules.
use crate::byte_string::{lemma_bytes_cmp_flip, ByteString};
use crate::error::{Error, Expected, Kind};
use crate::grammar::{
    decode, digit_run, digits_value, is_digit, lemma_digit_run_bounds, lemma_digit_run_split,
    lemma_digits_value_grows, lemma_digits_value_step, lemma_overflow_test, prefixed,
    read_byte_string, read_entries, read_integer, read_integer_body, read_items, read_key, read_magnitude,
    read_number, read_signed, read_unsigned, read_value, MAX_DEPTH,
};
use vstd::string::StringSliceAdditionalSpecFns;
use vstd::utf8::valid_utf8;
use crate::integer::Integer;
use crate::round_trip::{decodable, lemma_decoded_is_decodable};
use crate::value::{list_model, Bencode, Dictionary, Value};
use core::cmp::Ordering;
use vstd::prelude::*;

verus! {

/// Relies on std::str::from_utf8: it succeeds exactly on valid UTF-8, and
/// the text it gives has the same bytes.
#[verifier::external_body]
fn utf8_text(b: &[u8]) -> (r: Option<&str>)
    ensures
        r is Some <==> valid_utf8(b@),
        r is Some ==> r->0.spec_bytes() == b@,
{
    core::str::from_utf8(b).ok()
}

/// The negative of a magnitude up to `2^63`, which `i64` holds.
fn negate(m: u64) -> (r: i64)
    requires
        m <= i64::MAX as u64 + 1,
    ensures
        r as int == -(m as int),
{
    if m == 0 {
        0
    } else {
        -((m - 1) as i64) - 1
    }
}

/// A cursor over the input: the bytes and the position of the next one.
pub struct Deserializer<'de> {
    bytes: &'de [u8],
    index: usize,
}

impl<'de> Deserializer<'de> {
    #[verifier::type_invariant]
    spec fn inv(&self) -> bool {
        self.index <= self.bytes.len() && self.bytes.len() == self.bytes@.len()
    }

    /// The whole input.
    pub closed spec fn input(&self) -> Seq<u8> {
        self.bytes@
    }

    /// The position of the next byte to read.
    pub closed spec fn pos(&self) -> int {
        self.index as int
    }

    /// A cursor at the start of `bytes`.
    pub fn from_bytes(bytes: &'de [u8]) -> (r: Self)
        ensures
            r.input() == bytes@,
            r.pos() == 0,
    {
        Deserializer { bytes, index: 0 }
    }

    /// The position of the next byte to read.
    pub fn position(&self) -> (r: usize)
        ensures
            r == self.pos(),
    {
        self.index
    }

    /// The next byte, which is then consumed.
    fn next_byte(&mut self) -> (r: Result<u8, Error>)
        ensures
            final(self).input() == old(self).input(),
            old(self).pos() < old(self).input().len() ==> r == Ok::<u8, Error>(
                old(self).input()[old(self).pos()],
            ) && final(self).pos() == old(self).pos() + 1,
            old(self).pos() >= old(self).input().len() ==> r == Err::<u8, Error>(
                Error::UnexpectedEndOfInput,
            ) && final(self).pos() == old(self).pos(),
    {
        proof {
            use_type_invariant(&*self);
        }
        if self.index < self.bytes.len() {
            let b = self.bytes[self.index];
            self.index = self.index + 1;
            Ok(b)
        } else {
            Err(Error::UnexpectedEndOfInput)
        }
    }

    /// The next byte, left in place.
    pub fn peek_byte(&self) -> (r: Result<u8, Error>)
        ensures
            self.pos() < self.input().len() ==> r == Ok::<u8, Error>(self.input()[self.pos()]),
            self.pos() >= self.input().len() ==> r == Err::<u8, Error>(Error::UnexpectedEndOfInput),
    {
        proof {
            use_type_invariant(self);
        }
        if self.index < self.bytes.len() {
            Ok(self.bytes[self.index])
        } else {
            Err(Error::UnexpectedEndOfInput)
        }
    }

    /// Steps over the next byte.
    fn advance(&mut self)
        requires
            old(self).pos() < old(self).input().len(),
        ensures
            final(self).input() == old(self).input(),
            final(self).pos() == old(self).pos() + 1,
    {
        proof {
            use_type_invariant(&*self);
        }
        self.index = self.index + 1;
    }

    /// Fails where bytes are left after the value read.
    pub fn check_trailing_bytes(&self) -> (r: Result<(), Error>)
        ensures
            r == (if self.pos() < self.input().len() {
                Err(Error::TrailingBytesAfterValue)
            } else {
                Ok::<(), Error>(())
            }),
    {
        if self.bytes.len() > self.index {
            Err(Error::TrailingBytesAfterValue)
        } else {
            Ok(())
        }
    }

    /// Reads ASCII digits up to the byte `until`, which is consumed too, into
    /// a number no larger than `max`; fails before the number would exceed it.
    fn parse_number(&mut self, until: u8, max: u64) -> (r: Result<u64, Error>)
        ensures
            final(self).input() == old(self).input(),
            match r {
                Ok(v) => read_number(old(self).input(), old(self).pos(), until, max as nat) == Ok::<
                    (nat, int),
                    Error,
                >((v as nat, final(self).pos())),
                Err(e) => read_number(old(self).input(), old(self).pos(), until, max as nat)
                    == Err::<(nat, int), Error>(e),
            },
    {
        proof {
            use_type_invariant(&*self);
        }
        let ghost s = self.bytes@;
        let ghost start = self.index as int;
        let mut acc: u64 = 0;
        assert(s.subrange(start, start) =~= Seq::<u8>::empty());
        loop
            invariant
                self.bytes@ == s,
                s == old(self).input(),
                start == old(self).pos(),
                0 <= start <= self.index <= s.len(),
                forall|j: int| start <= j < self.index ==> is_digit(#[trigger] s[j]),
                acc as nat == digits_value(s.subrange(start, self.index as int)),
                acc <= max,
            decreases s.len() - self.index,
        {
            if self.index >= self.bytes.len() {
                proof {
                    lemma_digit_run_split(s, start, self.index as int);
                }
                return Err(Error::UnexpectedEndOfInput);
            }
            let b = self.bytes[self.index];
            if b >= 48 && b <= 57 {
                let d = (b - 48) as u64;
                proof {
                    lemma_overflow_test(acc as nat, d as nat, max as nat);
                    lemma_digits_value_step(s, start, self.index as int);
                }
                if acc > max / 10 || (acc == max / 10 && d > max % 10) {
                    proof {
                        let i = self.index as int;
                        lemma_digit_run_split(s, start, i + 1);
                        lemma_digit_run_bounds(s, start);
                        lemma_digits_value_grows(s, start, i + 1, start + digit_run(s, start));
                    }
                    return Err(Error::IntegerOverflow);
                }
                acc = acc * 10 + d;
                self.index = self.index + 1;
            } else {
                proof {
                    lemma_digit_run_split(s, start, self.index as int);
                }
                self.index = self.index + 1;
                let offset = self.index;
                if b != until {
                    return Err(Error::UnexpectedToken { expected: Expected::Byte(until), found: b, offset });
                }
                return Ok(acc);
            }
        }
    }

    /// Reads the magnitude of an integer, after its `i` and any minus sign,
    /// through its final `e`.
    fn parse_magnitude(&mut self, negative: bool, max: u64) -> (r: Result<u64, Error>)
        ensures
            final(self).input() == old(self).input(),
            match r {
                Ok(v) => read_magnitude(old(self).input(), old(self).pos(), negative, max as nat)
                    == Ok::<(nat, int), Error>((v as nat, final(self).pos())),
                Err(e) => read_magnitude(old(self).input(), old(self).pos(), negative, max as nat)
                    == Err::<(nat, int), Error>(e),
            },
    {
        let first = match self.peek_byte() {
            Ok(b) => b,
            Err(e) => return Err(e),
        };
        if first == 48 {
            if negative {
                return Err(Error::NegativeZero);
            }
            self.advance();
            match self.next_byte() {
                Err(e) => Err(e),
                Ok(b) => {
                    let offset = self.index;
                    if b == 101 {
                        Ok(0)
                    } else if b >= 48 && b <= 57 {
                        Err(Error::LeadingZero)
                    } else {
                        Err(Error::UnexpectedToken { expected: Expected::Byte(101), found: b, offset })
                    }
                },
            }
        } else if first >= 48 && first <= 57 {
            self.parse_number(101, max)
        } else {
            Err(Error::UnexpectedToken { expected: Expected::Digit, found: first, offset: self.index })
        }
    }

    /// Reads an integer whose `i` was consumed: its sign and magnitude.
    fn parse_integer_body(&mut self, neg_max: u64, pos_max: u64) -> (r: Result<(bool, u64), Error>)
        ensures
            final(self).input() == old(self).input(),
            match r {
                Ok((negative, m)) => read_integer_body(
                    old(self).input(),
                    old(self).pos(),
                    neg_max as nat,
                    pos_max as nat,
                ) == Ok::<(int, int), Error>(
                    (if negative {
                        -(m as int)
                    } else {
                        m as int
                    }, final(self).pos()),
                ) && (negative ==> m <= neg_max),
                Err(e) => read_integer_body(
                    old(self).input(),
                    old(self).pos(),
                    neg_max as nat,
                    pos_max as nat,
                ) == Err::<(int, int), Error>(e),
            },
    {
        let first = match self.peek_byte() {
            Ok(b) => b,
            Err(e) => return Err(e),
        };
        if first == 45 {
            self.advance();
            match self.parse_magnitude(true, neg_max) {
                Ok(m) => Ok((true, m)),
                Err(e) => Err(e),
            }
        } else {
            match self.parse_magnitude(false, pos_max) {
                Ok(m) => Ok((false, m)),
                Err(e) => Err(e),
            }
        }
    }

    /// Reads a byte string: its length, a colon, and that many bytes, which
    /// are borrowed from the input.
    pub fn parse_byte_string(&mut self) -> (r: Result<&'de [u8], Error>)
        ensures
            final(self).input() == old(self).input(),
            match r {
                Ok(b) => read_byte_string(old(self).input(), old(self).pos()) == Ok::<
                    (Seq<u8>, int),
                    Error,
                >((b@, final(self).pos())),
                Err(e) => read_byte_string(old(self).input(), old(self).pos()) == Err::<
                    (Seq<u8>, int),
                    Error,
                >(e),
            },
    {
        let len = match self.parse_number(58, usize::MAX as u64) {
            Ok(n) => n as usize,
            Err(e) => return Err(e),
        };
        proof {
            use_type_invariant(&*self);
        }
        if len == 0 {
            let empty = vstd::slice::slice_subrange(self.bytes, self.index, self.index);
            assert(empty@ =~= Seq::<u8>::empty());
            return Ok(empty);
        }
        match self.index.checked_add(len) {
            None => Err(Error::IntegerOverflow),
            Some(end) => {
                if end > self.bytes.len() {
                    Err(Error::UnexpectedEndOfInput)
                } else {
                    let b = vstd::slice::slice_subrange(self.bytes, self.index, end);
                    self.index = end;
                    Ok(b)
                }
            },
        }
    }

    /// Whether a list has another item: consumes the list's final `e` and
    /// answers `false`, or answers `true` with the item left in place.
    pub fn next_element_begins(&mut self) -> (r: Result<bool, Error>)
        ensures
            final(self).input() == old(self).input(),
            old(self).pos() >= old(self).input().len() ==> r == Err::<bool, Error>(
                Error::UnexpectedEndOfInput,
            ),
            old(self).pos() < old(self).input().len() ==> {
                if old(self).input()[old(self).pos()] == 101 {
                    r == Ok::<bool, Error>(false) && final(self).pos() == old(self).pos() + 1
                } else {
                    r == Ok::<bool, Error>(true) && final(self).pos() == old(self).pos()
                }
            },
    {
        let b = match self.peek_byte() {
            Ok(b) => b,
            Err(e) => return Err(e),
        };
        if b == 101 {
            self.advance();
            Ok(false)
        } else {
            Ok(true)
        }
    }
}

impl<'de> Deserializer<'de> {
    /// Reads one value, with at most `depth` levels of lists and
    /// dictionaries.
    pub fn parse_value(&mut self, depth: usize) -> (r: Result<Value, Error>)
        ensures
            final(self).input() == old(self).input(),
            match r {
                Ok(v) => read_value(old(self).input(), old(self).pos(), depth as nat) == Ok::<
                    (Bencode, int),
                    Error,
                >((v@, final(self).pos())) && old(self).pos() < final(self).pos()
                    <= final(self).input().len(),
                Err(e) => read_value(old(self).input(), old(self).pos(), depth as nat) == Err::<
                    (Bencode, int),
                    Error,
                >(e),
            },
        decreases depth, 1int,
    {
        proof {
            use_type_invariant(&*self);
        }
        let b = match self.peek_byte() {
            Ok(b) => b,
            Err(e) => return Err(e),
        };
        if b == 105 {
            match self.deserialize_integer() {
                Ok(n) => Ok(Value::Integer(n)),
                Err(e) => Err(e),
            }
        } else if b >= 48 && b <= 57 {
            match self.parse_byte_string() {
                Ok(bytes) => {
                    proof {
                        use_type_invariant(&*self);
                    }
                    Ok(Value::ByteString(ByteString::from_slice(bytes)))
                },
                Err(e) => Err(e),
            }
        } else if b == 108 {
            if depth == 0 {
                return Err(Error::RecursionLimitExceeded);
            }
            self.advance();
            match self.parse_list(depth - 1) {
                Ok(items) => Ok(Value::List(items)),
                Err(e) => Err(e),
            }
        } else if b == 100 {
            if depth == 0 {
                return Err(Error::RecursionLimitExceeded);
            }
            self.advance();
            match self.parse_dictionary(depth - 1) {
                Ok(d) => Ok(Value::Dictionary(d)),
                Err(e) => Err(e),
            }
        } else {
            Err(Error::UnexpectedToken { expected: Expected::ValueStart, found: b, offset: self.index })
        }
    }

    /// Reads the items of a list whose `l` was consumed, through its final
    /// `e`.
    pub fn parse_list(&mut self, depth: usize) -> (r: Result<Vec<Value>, Error>)
        ensures
            final(self).input() == old(self).input(),
            match r {
                Ok(items) => read_items(old(self).input(), old(self).pos(), depth as nat) == Ok::<
                    (Seq<Bencode>, int),
                    Error,
                >((list_model(items@), final(self).pos())) && old(self).pos() < final(self).pos()
                    <= final(self).input().len(),
                Err(e) => read_items(old(self).input(), old(self).pos(), depth as nat) == Err::<
                    (Seq<Bencode>, int),
                    Error,
                >(e),
            },
        decreases depth, 2int,
    {
        proof {
            use_type_invariant(&*self);
        }
        let ghost s = self.bytes@;
        let ghost start = self.index as int;
        let mut items: Vec<Value> = Vec::new();
        assert(list_model(items@) + Seq::<Bencode>::empty() =~= Seq::<Bencode>::empty());
        assert(list_model(items@) =~= Seq::<Bencode>::empty());
        loop
            invariant
                self.bytes@ == s,
                s == old(self).input(),
                start == old(self).pos(),
                start <= self.index <= s.len(),
                s.len() == self.bytes.len(),
                read_items(s, start, depth as nat) == prefixed(
                    list_model(items@),
                    read_items(s, self.index as int, depth as nat),
                ),
            decreases s.len() - self.index,
        {
            match self.next_element_begins() {
                Err(e) => return Err(e),
                Ok(false) => {
                    assert(list_model(items@) + Seq::<Bencode>::empty() =~= list_model(items@));
                    return Ok(items);
                },
                Ok(true) => {
                    let v = match self.parse_value(depth) {
                        Ok(v) => v,
                        Err(e) => return Err(e),
                    };
                    proof {
                        use_type_invariant(&*self);
                    }
                    let ghost before = items@;
                    items.push(v);
                    proof {
                        assert(items@.drop_last() =~= before);
                        let p = self.index as int;
                        match read_items(s, p, depth as nat) {
                            Ok((rest, q)) => {
                                assert(list_model(items@) + rest =~= list_model(before) + (seq![
                                    v@,
                                ] + rest));
                            },
                            Err(e) => {},
                        }
                    }
                },
            }
        }
    }

    /// Reads the entries of a dictionary whose `d` was consumed, through its
    /// final `e`, holding its keys to strictly ascending order.
    pub fn parse_dictionary(&mut self, depth: usize) -> (r: Result<Dictionary, Error>)
        ensures
            final(self).input() == old(self).input(),
            match r {
                Ok(d) => read_entries(old(self).input(), old(self).pos(), depth as nat, None)
                    == Ok::<(Seq<(Seq<u8>, Bencode)>, int), Error>((d.model(), final(self).pos()))
                    && old(self).pos() < final(self).pos() <= final(self).input().len() && d.wf(),
                Err(e) => read_entries(old(self).input(), old(self).pos(), depth as nat, None)
                    == Err::<(Seq<(Seq<u8>, Bencode)>, int), Error>(e),
            },
        decreases depth, 2int,
    {
        proof {
            use_type_invariant(&*self);
        }
        let ghost s = self.bytes@;
        let ghost start = self.index as int;
        let mut keys = MapDeserializer::new();
        let mut dict = Dictionary::new();
        assert(dict.model() + Seq::<(Seq<u8>, Bencode)>::empty() =~= Seq::<(Seq<u8>, Bencode)>::empty());
        loop
            invariant
                self.bytes@ == s,
                s == old(self).input(),
                start == old(self).pos(),
                start <= self.index <= s.len(),
                s.len() == self.bytes.len(),
                dict.wf(),
                keys.last_key() == (if dict.model().len() == 0 {
                    None::<Seq<u8>>
                } else {
                    Some(dict.model().last().0)
                }),
                read_entries(s, start, depth as nat, None) == prefixed(
                    dict.model(),
                    read_entries(s, self.index as int, depth as nat, keys.last_key()),
                ),
            decreases s.len() - self.index,
        {
            match keys.next_key(self) {
                Err(e) => return Err(e),
                Ok(None) => {
                    assert(dict.model() + Seq::<(Seq<u8>, Bencode)>::empty() =~= dict.model());
                    return Ok(dict);
                },
                Ok(Some(key)) => {
                    let v = match self.parse_value(depth) {
                        Ok(v) => v,
                        Err(e) => return Err(e),
                    };
                    proof {
                        use_type_invariant(&*self);
                    }
                    let ghost before = dict.model();
                    let ghost k = key@;
                    let ghost vm = v@;
                    dict.push_last(key, v);
                    proof {
                        let p = self.index as int;
                        match read_entries(s, p, depth as nat, Some(k)) {
                            Ok((rest, q)) => {
                                assert(dict.model() + rest =~= before + (seq![(k, vm)] + rest));
                            },
                            Err(e) => {},
                        }
                    }
                },
            }
        }
    }
}

/// Reads the keys of a dictionary one by one, each strictly after the key
/// before it.
pub struct MapDeserializer {
    last_key: Option<ByteString>,
}

impl MapDeserializer {
    /// The key read last, if any.
    pub closed spec fn last_key(&self) -> Option<Seq<u8>> {
        match self.last_key {
            Some(k) => Some(k@),
            None => None,
        }
    }

    /// No key read yet.
    pub fn new() -> (r: Self)
        ensures
            r.last_key() == None::<Seq<u8>>,
    {
        MapDeserializer { last_key: None }
    }

    /// Reads the dictionary's next key, or its final `e` (`None`).
    pub fn next_key(&mut self, de: &mut Deserializer) -> (r: Result<Option<ByteString>, Error>)
        ensures
            final(de).input() == old(de).input(),
            match r {
                Ok(k) => read_key(old(de).input(), old(de).pos(), old(self).last_key()) == Ok::<
                    (Option<Seq<u8>>, int),
                    Error,
                >(
                    (match k {
                        Some(k) => Some(k@),
                        None => None,
                    }, final(de).pos()),
                ) && old(de).pos() < final(de).pos() && final(self).last_key() == (match k {
                    Some(k) => Some(k@),
                    None => old(self).last_key(),
                }),
                Err(e) => read_key(old(de).input(), old(de).pos(), old(self).last_key()) == Err::<
                    (Option<Seq<u8>>, int),
                    Error,
                >(e),
            },
    {
        let b = match de.peek_byte() {
            Ok(b) => b,
            Err(e) => return Err(e),
        };
        if b == 101 {
            de.advance();
            Ok(None)
        } else if b >= 48 && b <= 57 {
            let bytes = match de.parse_byte_string() {
                Ok(bytes) => bytes,
                Err(e) => return Err(e),
            };
            let key = ByteString::from_slice(bytes);
            match &self.last_key {
                Some(last) => {
                    proof {
                        lemma_bytes_cmp_flip(last@, key@);
                    }
                    match last.compare(&key) {
                        Ordering::Less => {},
                        _ => return Err(Error::UnsortedDictionaryKeys),
                    }
                },
                None => {},
            }
            self.last_key = Some(ByteString::from_slice(bytes));
            Ok(Some(key))
        } else {
            Err(Error::UnexpectedToken { expected: Expected::Digit, found: b, offset: de.index })
        }
    }
}

/// Decodes a whole document into a value; bytes left after it are an error.
pub fn from_bytes(bytes: &[u8]) -> (r: Result<Value, Error>)
    ensures
        match r {
            Ok(v) => decode(bytes@) == Ok::<Bencode, Error>(v@) && decodable(v@, MAX_DEPTH as nat),
            Err(e) => decode(bytes@) == Err::<Bencode, Error>(e),
        },
{
    proof {
        lemma_decoded_is_decodable(bytes@);
    }
    let mut de = Deserializer::from_bytes(bytes);
    let v = match de.parse_value(MAX_DEPTH) {
        Ok(v) => v,
        Err(e) => return Err(e),
    };
    match de.check_trailing_bytes() {
        Ok(()) => Ok(v),
        Err(e) => Err(e),
    }
}

impl<'de> Deserializer<'de> {
    /// Reads an integer into a signed type whose largest value is `max` and
    /// whose smallest is `-(max + 1)`.
    pub fn deserialize_signed(&mut self, max: u64) -> (r: Result<i64, Error>)
        requires
            max <= i64::MAX,
        ensures
            final(self).input() == old(self).input(),
            match r {
                Ok(n) => read_signed(old(self).input(), old(self).pos(), max as nat) == Ok::<
                    (int, int),
                    Error,
                >((n as int, final(self).pos())),
                Err(e) => read_signed(old(self).input(), old(self).pos(), max as nat) == Err::<
                    (int, int),
                    Error,
                >(e),
            },
    {
        let b = match self.next_byte() {
            Ok(b) => b,
            Err(e) => return Err(e),
        };
        if b != 105 {
            return Err(Error::TypeMismatch { expected_class: Kind::Integer, found_byte: b });
        }
        match self.parse_integer_body(max + 1, max) {
            Ok((negative, m)) => {
                if negative {
                    Ok(negate(m))
                } else {
                    Ok(m as i64)
                }
            },
            Err(e) => Err(e),
        }
    }

    /// Reads an integer into an unsigned type whose largest value is `max`.
    pub fn deserialize_unsigned(&mut self, max: u64) -> (r: Result<u64, Error>)
        ensures
            final(self).input() == old(self).input(),
            match r {
                Ok(n) => read_unsigned(old(self).input(), old(self).pos(), max as nat) == Ok::<
                    (nat, int),
                    Error,
                >((n as nat, final(self).pos())),
                Err(e) => read_unsigned(old(self).input(), old(self).pos(), max as nat) == Err::<
                    (nat, int),
                    Error,
                >(e),
            },
    {
        let b = match self.next_byte() {
            Ok(b) => b,
            Err(e) => return Err(e),
        };
        if b != 105 {
            return Err(Error::TypeMismatch { expected_class: Kind::Integer, found_byte: b });
        }
        self.parse_magnitude(false, max)
    }

    pub fn deserialize_i64(&mut self) -> (r: Result<i64, Error>)
        ensures
            final(self).input() == old(self).input(),
            match r {
                Ok(n) => read_signed(old(self).input(), old(self).pos(), i64::MAX as nat) == Ok::<
                    (int, int),
                    Error,
                >((n as int, final(self).pos())),
                Err(e) => read_signed(old(self).input(), old(self).pos(), i64::MAX as nat)
                    == Err::<(int, int), Error>(e),
            },
    {
        self.deserialize_signed(i64::MAX as u64)
    }

    pub fn deserialize_i32(&mut self) -> (r: Result<i32, Error>)
        ensures
            final(self).input() == old(self).input(),
            match r {
                Ok(n) => read_signed(old(self).input(), old(self).pos(), i32::MAX as nat) == Ok::<
                    (int, int),
                    Error,
                >((n as int, final(self).pos())),
                Err(e) => read_signed(old(self).input(), old(self).pos(), i32::MAX as nat)
                    == Err::<(int, int), Error>(e),
            },
    {
        match self.deserialize_signed(i32::MAX as u64) {
            Ok(n) => Ok(n as i32),
            Err(e) => Err(e),
        }
    }

    pub fn deserialize_i16(&mut self) -> (r: Result<i16, Error>)
        ensures
            final(self).input() == old(self).input(),
            match r {
                Ok(n) => read_signed(old(self).input(), old(self).pos(), i16::MAX as nat) == Ok::<
                    (int, int),
                    Error,
                >((n as int, final(self).pos())),
                Err(e) => read_signed(old(self).input(), old(self).pos(), i16::MAX as nat)
                    == Err::<(int, int), Error>(e),
            },
    {
        match self.deserialize_signed(i16::MAX as u64) {
            Ok(n) => Ok(n as i16),
            Err(e) => Err(e),
        }
    }

    pub fn deserialize_i8(&mut self) -> (r: Result<i8, Error>)
        ensures
            final(self).input() == old(self).input(),
            match r {
                Ok(n) => read_signed(old(self).input(), old(self).pos(), i8::MAX as nat) == Ok::<
                    (int, int),
                    Error,
                >((n as int, final(self).pos())),
                Err(e) => read_signed(old(self).input(), old(self).pos(), i8::MAX as nat)
                    == Err::<(int, int), Error>(e),
            },
    {
        match self.deserialize_signed(i8::MAX as u64) {
            Ok(n) => Ok(n as i8),
            Err(e) => Err(e),
        }
    }

    pub fn deserialize_u64(&mut self) -> (r: Result<u64, Error>)
        ensures
            final(self).input() == old(self).input(),
            match r {
                Ok(n) => read_unsigned(old(self).input(), old(self).pos(), u64::MAX as nat)
                    == Ok::<(nat, int), Error>((n as nat, final(self).pos())),
                Err(e) => read_unsigned(old(self).input(), old(self).pos(), u64::MAX as nat)
                    == Err::<(nat, int), Error>(e),
            },
    {
        self.deserialize_unsigned(u64::MAX)
    }

    pub fn deserialize_u32(&mut self) -> (r: Result<u32, Error>)
        ensures
            final(self).input() == old(self).input(),
            match r {
                Ok(n) => read_unsigned(old(self).input(), old(self).pos(), u32::MAX as nat)
                    == Ok::<(nat, int), Error>((n as nat, final(self).pos())),
                Err(e) => read_unsigned(old(self).input(), old(self).pos(), u32::MAX as nat)
                    == Err::<(nat, int), Error>(e),
            },
    {
        match self.deserialize_unsigned(u32::MAX as u64) {
            Ok(n) => Ok(n as u32),
            Err(e) => Err(e),
        }
    }

    pub fn deserialize_u16(&mut self) -> (r: Result<u16, Error>)
        ensures
            final(self).input() == old(self).input(),
            match r {
                Ok(n) => read_unsigned(old(self).input(), old(self).pos(), u16::MAX as nat)
                    == Ok::<(nat, int), Error>((n as nat, final(self).pos())),
                Err(e) => read_unsigned(old(self).input(), old(self).pos(), u16::MAX as nat)
                    == Err::<(nat, int), Error>(e),
            },
    {
        match self.deserialize_unsigned(u16::MAX as u64) {
            Ok(n) => Ok(n as u16),
            Err(e) => Err(e),
        }
    }

    pub fn deserialize_u8(&mut self) -> (r: Result<u8, Error>)
        ensures
            final(self).input() == old(self).input(),
            match r {
                Ok(n) => read_unsigned(old(self).input(), old(self).pos(), u8::MAX as nat)
                    == Ok::<(nat, int), Error>((n as nat, final(self).pos())),
                Err(e) => read_unsigned(old(self).input(), old(self).pos(), u8::MAX as nat)
                    == Err::<(nat, int), Error>(e),
            },
    {
        match self.deserialize_unsigned(u8::MAX as u64) {
            Ok(n) => Ok(n as u8),
            Err(e) => Err(e),
        }
    }

    /// Reads a byte string that must be UTF-8 text.
    pub fn deserialize_str(&mut self) -> (r: Result<&'de str, Error>)
        ensures
            final(self).input() == old(self).input(),
            match read_byte_string(old(self).input(), old(self).pos()) {
                Ok((b, p)) => if valid_utf8(b) {
                    r is Ok && r->Ok_0.spec_bytes() == b && final(self).pos() == p
                } else {
                    r == Err::<&str, Error>(Error::InvalidTextEncoding)
                },
                Err(e) => r == Err::<&str, Error>(e),
            },
    {
        let bytes = match self.parse_byte_string() {
            Ok(b) => b,
            Err(e) => return Err(e),
        };
        match utf8_text(bytes) {
            Some(text) => Ok(text),
            None => Err(Error::InvalidTextEncoding),
        }
    }

    /// Reads the `l` that starts a list.
    pub fn begin_list(&mut self) -> (r: Result<(), Error>)
        ensures
            final(self).input() == old(self).input(),
            old(self).pos() >= old(self).input().len() ==> r == Err::<(), Error>(
                Error::UnexpectedEndOfInput,
            ),
            old(self).pos() < old(self).input().len() ==> {
                let b = old(self).input()[old(self).pos()];
                if b == 108 {
                    r is Ok && final(self).pos() == old(self).pos() + 1
                } else {
                    r == Err::<(), Error>(
                        Error::UnexpectedToken {
                            expected: Expected::Byte(108),
                            found: b,
                            offset: (old(self).pos() + 1) as usize,
                        },
                    )
                }
            },
    {
        match self.next_byte() {
            Ok(108) => Ok(()),
            Ok(b) => Err(Error::UnexpectedToken { expected: Expected::Byte(108), found: b, offset: self.index }),
            Err(e) => Err(e),
        }
    }

    /// Reads the `d` that starts a dictionary; another kind of value there
    /// is a type mismatch.
    pub fn begin_dictionary(&mut self) -> (r: Result<(), Error>)
        ensures
            final(self).input() == old(self).input(),
            old(self).pos() >= old(self).input().len() ==> r == Err::<(), Error>(
                Error::UnexpectedEndOfInput,
            ),
            old(self).pos() < old(self).input().len() ==> {
                let b = old(self).input()[old(self).pos()];
                if b == 100 {
                    r is Ok && final(self).pos() == old(self).pos() + 1
                } else if b == 108 || b == 105 || is_digit(b) {
                    r == Err::<(), Error>(
                        Error::TypeMismatch { expected_class: Kind::Dictionary, found_byte: b },
                    )
                } else {
                    r == Err::<(), Error>(
                        Error::UnexpectedToken {
                            expected: Expected::Byte(100),
                            found: b,
                            offset: (old(self).pos() + 1) as usize,
                        },
                    )
                }
            },
    {
        match self.next_byte() {
            Ok(b) => {
                if b == 100 {
                    Ok(())
                } else if b == 108 || b == 105 || (b >= 48 && b <= 57) {
                    Err(Error::TypeMismatch { expected_class: Kind::Dictionary, found_byte: b })
                } else {
                    Err(Error::UnexpectedToken { expected: Expected::Byte(100), found: b, offset: self.index })
                }
            },
            Err(e) => Err(e),
        }
    }
}

impl<'de> Deserializer<'de> {
    /// The kind of the next value, told by its first byte, which is left in
    /// place.
    pub fn peek_kind(&self) -> (r: Result<Kind, Error>)
        ensures
            self.pos() >= self.input().len() ==> r == Err::<Kind, Error>(Error::UnexpectedEndOfInput),
            self.pos() < self.input().len() ==> {
                let b = self.input()[self.pos()];
                r == if b == 105 {
                    Ok::<Kind, Error>(Kind::Integer)
                } else if is_digit(b) {
                    Ok::<Kind, Error>(Kind::ByteString)
                } else if b == 108 {
                    Ok::<Kind, Error>(Kind::List)
                } else if b == 100 {
                    Ok::<Kind, Error>(Kind::Dictionary)
                } else {
                    Err::<Kind, Error>(
                        Error::UnexpectedToken {
                            expected: Expected::ValueStart,
                            found: b,
                            offset: self.pos() as usize,
                        },
                    )
                }
            },
    {
        let b = match self.peek_byte() {
            Ok(b) => b,
            Err(e) => return Err(e),
        };
        if b == 105 {
            Ok(Kind::Integer)
        } else if b >= 48 && b <= 57 {
            Ok(Kind::ByteString)
        } else if b == 108 {
            Ok(Kind::List)
        } else if b == 100 {
            Ok(Kind::Dictionary)
        } else {
            Err(Error::UnexpectedToken { expected: Expected::ValueStart, found: b, offset: self.index })
        }
    }

    /// Reads an integer of any value from `i64::MIN` to `u64::MAX`.
    pub fn deserialize_integer(&mut self) -> (r: Result<Integer, Error>)
        ensures
            final(self).input() == old(self).input(),
            match r {
                Ok(n) => read_integer(old(self).input(), old(self).pos()) == Ok::<(int, int), Error>(
                    (n@, final(self).pos()),
                ),
                Err(e) => read_integer(old(self).input(), old(self).pos()) == Err::<(int, int), Error>(e),
            },
    {
        let b = match self.next_byte() {
            Ok(b) => b,
            Err(e) => return Err(e),
        };
        if b != 105 {
            return Err(Error::TypeMismatch { expected_class: Kind::Integer, found_byte: b });
        }
        match self.parse_integer_body(i64::MAX as u64 + 1, u64::MAX) {
            Ok((negative, m)) => {
                if negative {
                    Ok(Integer::from_i64(negate(m)))
                } else {
                    Ok(Integer::from_u64(m))
                }
            },
            Err(e) => Err(e),
        }
    }
}

} // verus!
