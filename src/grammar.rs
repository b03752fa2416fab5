//! The grammar of the format: how each value is written, and how a byte
//! sequence is read back, errors included.
use crate::byte_string::bytes_lt;
use crate::error::{Error, Expected, Kind};
use crate::value::Bencode;
use vstd::prelude::*;

verus! {

/// The deepest nesting of lists and dictionaries that decoding accepts.
pub const MAX_DEPTH: usize = 256;

/// The ASCII digits `0` to `9`.
pub open spec fn is_digit(b: u8) -> bool {
    48 <= b <= 57
}

/// The ASCII digit for `d < 10`.
pub open spec fn digit_char(d: nat) -> u8 {
    (d + 48) as u8
}

/// The decimal digits of `n`, without leading zeros (`0` is one digit).
pub open spec fn decimal(n: nat) -> Seq<u8>
    decreases n,
{
    if n < 10 {
        seq![digit_char(n)]
    } else {
        decimal(n / 10).push(digit_char(n % 10))
    }
}

/// The decimal text of a signed integer: a minus sign only when negative.
pub open spec fn signed_decimal(n: int) -> Seq<u8> {
    if n < 0 {
        seq![45u8] + decimal((-n) as nat)
    } else {
        decimal(n as nat)
    }
}

/// The number that a sequence of ASCII digits stands for.
pub open spec fn digits_value(s: Seq<u8>) -> nat
    decreases s.len(),
{
    if s.len() == 0 {
        0
    } else {
        digits_value(s.drop_last()) * 10 + (s.last() - 48) as nat
    }
}

/// How many ASCII digits follow one another from position `i` on.
pub open spec fn digit_run(s: Seq<u8>, i: int) -> nat
    decreases s.len() - i,
{
    if 0 <= i < s.len() && is_digit(s[i]) {
        1 + digit_run(s, i + 1)
    } else {
        0
    }
}

/// The encoding of a value.
pub open spec fn encode(v: Bencode) -> Seq<u8>
    decreases v,
{
    match v {
        Bencode::Bytes(b) => encode_bytes(b),
        Bencode::Int(n) => seq![105u8] + signed_decimal(n) + seq![101u8],
        Bencode::List(items) => seq![108u8] + encode_list(items) + seq![101u8],
        Bencode::Dict(entries) => seq![100u8] + encode_entries(entries) + seq![101u8],
    }
}

/// A byte string: its length in decimal, a colon, and the bytes.
pub open spec fn encode_bytes(b: Seq<u8>) -> Seq<u8> {
    decimal(b.len()) + seq![58u8] + b
}

/// The encodings of the items, one after another.
pub open spec fn encode_list(items: Seq<Bencode>) -> Seq<u8>
    decreases items,
{
    if items.len() == 0 {
        Seq::empty()
    } else {
        encode(items[0]) + encode_list(items.drop_first())
    }
}

/// Each key as a byte string followed by its value, entry after entry.
pub open spec fn encode_entries(entries: Seq<(Seq<u8>, Bencode)>) -> Seq<u8>
    decreases entries,
{
    if entries.len() == 0 {
        Seq::empty()
    } else {
        encode_bytes(entries[0].0) + encode(entries[0].1) + encode_entries(entries.drop_first())
    }
}

/// A number in ASCII digits from `pos` on, ended by the byte `until`, which
/// must not exceed `max`. On success: the number and the position after
/// `until`. A number too large is an overflow even where the input ends or a
/// wrong byte follows.
pub open spec fn read_number(s: Seq<u8>, pos: int, until: u8, max: nat) -> Result<(nat, int), Error> {
    let n = digit_run(s, pos);
    let value = digits_value(s.subrange(pos, pos + n));
    if value > max {
        Err(Error::IntegerOverflow)
    } else if pos + n >= s.len() {
        Err(Error::UnexpectedEndOfInput)
    } else if s[pos + n] != until {
        Err(Error::UnexpectedToken { expected: Expected::Byte(until), found: s[pos + n], offset: (pos + n + 1) as usize })
    } else {
        Ok((value, pos + n + 1))
    }
}

/// The magnitude of an integer from `pos` on (after `i` and any minus
/// sign), through its final `e`: no leading zero, no negative zero, at most
/// `max`.
pub open spec fn read_magnitude(s: Seq<u8>, pos: int, negative: bool, max: nat) -> Result<(nat, int), Error> {
    if pos >= s.len() {
        Err(Error::UnexpectedEndOfInput)
    } else if s[pos] == 48 {
        if negative {
            Err(Error::NegativeZero)
        } else if pos + 1 >= s.len() {
            Err(Error::UnexpectedEndOfInput)
        } else if s[pos + 1] == 101 {
            Ok((0, pos + 2))
        } else if is_digit(s[pos + 1]) {
            Err(Error::LeadingZero)
        } else {
            Err(Error::UnexpectedToken { expected: Expected::Byte(101), found: s[pos + 1], offset: (pos + 2) as usize })
        }
    } else if is_digit(s[pos]) {
        read_number(s, pos, 101, max)
    } else {
        Err(Error::UnexpectedToken { expected: Expected::Digit, found: s[pos], offset: pos as usize })
    }
}

/// An integer whose `i` stands at `pos - 1`: a negative one down to
/// `-neg_max`, a non-negative one up to `pos_max`.
pub open spec fn read_integer_body(s: Seq<u8>, pos: int, neg_max: nat, pos_max: nat) -> Result<(int, int), Error> {
    if pos >= s.len() {
        Err(Error::UnexpectedEndOfInput)
    } else if s[pos] == 45 {
        match read_magnitude(s, pos + 1, true, neg_max) {
            Ok((m, p)) => Ok((-m, p)),
            Err(e) => Err(e),
        }
    } else {
        match read_magnitude(s, pos, false, pos_max) {
            Ok((m, p)) => Ok((m as int, p)),
            Err(e) => Err(e),
        }
    }
}

/// An integer read into a signed type whose largest value is `max`, and
/// whose smallest is `-(max + 1)` (its `i` stands at `pos`).
pub open spec fn read_signed(s: Seq<u8>, pos: int, max: nat) -> Result<(int, int), Error> {
    if pos < 0 || pos >= s.len() {
        Err(Error::UnexpectedEndOfInput)
    } else if s[pos] != 105 {
        Err(Error::TypeMismatch { expected_class: Kind::Integer, found_byte: s[pos] })
    } else {
        read_integer_body(s, pos + 1, max + 1, max)
    }
}

/// An integer of any value the format holds, from `i64::MIN` to
/// `u64::MAX` (its `i` stands at `pos`).
pub open spec fn read_integer(s: Seq<u8>, pos: int) -> Result<(int, int), Error> {
    if pos < 0 || pos >= s.len() {
        Err(Error::UnexpectedEndOfInput)
    } else if s[pos] != 105 {
        Err(Error::TypeMismatch { expected_class: Kind::Integer, found_byte: s[pos] })
    } else {
        read_integer_body(s, pos + 1, i64::MAX as nat + 1, u64::MAX as nat)
    }
}

/// An integer read into an unsigned type whose largest value is `max` (its
/// `i` stands at `pos`); a minus sign is an unexpected byte.
pub open spec fn read_unsigned(s: Seq<u8>, pos: int, max: nat) -> Result<(nat, int), Error> {
    if pos < 0 || pos >= s.len() {
        Err(Error::UnexpectedEndOfInput)
    } else if s[pos] != 105 {
        Err(Error::TypeMismatch { expected_class: Kind::Integer, found_byte: s[pos] })
    } else {
        read_magnitude(s, pos + 1, false, max)
    }
}

/// A byte string at `pos`: the bytes and the position after them.
pub open spec fn read_byte_string(s: Seq<u8>, pos: int) -> Result<(Seq<u8>, int), Error> {
    match read_number(s, pos, 58, usize::MAX as nat) {
        Err(e) => Err(e),
        Ok((len, p)) => {
            if len == 0 {
                Ok((Seq::empty(), p))
            } else if p + len > usize::MAX {
                Err(Error::IntegerOverflow)
            } else if p + len > s.len() {
                Err(Error::UnexpectedEndOfInput)
            } else {
                Ok((s.subrange(p, p + len), p + len))
            }
        },
    }
}

/// A value at `pos`, with at most `depth` levels of lists and dictionaries:
/// the value and the position after it.
pub open spec fn read_value(s: Seq<u8>, pos: int, depth: nat) -> Result<(Bencode, int), Error>
    decreases depth, 0int, 0int,
{
    if pos < 0 || pos >= s.len() {
        Err(Error::UnexpectedEndOfInput)
    } else if s[pos] == 105 {
        match read_integer(s, pos) {
            Ok((n, p)) => Ok((Bencode::Int(n), p)),
            Err(e) => Err(e),
        }
    } else if is_digit(s[pos]) {
        match read_byte_string(s, pos) {
            Ok((b, p)) => Ok((Bencode::Bytes(b), p)),
            Err(e) => Err(e),
        }
    } else if s[pos] == 108 {
        if depth == 0 {
            Err(Error::RecursionLimitExceeded)
        } else {
            match read_items(s, pos + 1, (depth - 1) as nat) {
                Ok((items, p)) => Ok((Bencode::List(items), p)),
                Err(e) => Err(e),
            }
        }
    } else if s[pos] == 100 {
        if depth == 0 {
            Err(Error::RecursionLimitExceeded)
        } else {
            match read_entries(s, pos + 1, (depth - 1) as nat, None) {
                Ok((entries, p)) => Ok((Bencode::Dict(entries), p)),
                Err(e) => Err(e),
            }
        }
    } else {
        Err(Error::UnexpectedToken { expected: Expected::ValueStart, found: s[pos], offset: pos as usize })
    }
}

/// The items of a list from `pos` on, through its final `e`. (A value read
/// always takes at least one byte, so the test on `p` below only serves to
/// show that the reading ends.)
pub open spec fn read_items(s: Seq<u8>, pos: int, depth: nat) -> Result<(Seq<Bencode>, int), Error>
    decreases depth, 1int, s.len() - pos,
{
    if pos < 0 || pos >= s.len() {
        Err(Error::UnexpectedEndOfInput)
    } else if s[pos] == 101 {
        Ok((Seq::empty(), pos + 1))
    } else {
        match read_value(s, pos, depth) {
            Err(e) => Err(e),
            Ok((v, p)) => {
                if pos < p <= s.len() {
                    match read_items(s, p, depth) {
                        Ok((rest, q)) => Ok((seq![v] + rest, q)),
                        Err(e) => Err(e),
                    }
                } else {
                    Err(Error::UnexpectedEndOfInput)
                }
            },
        }
    }
}

/// One step of reading a dictionary at `pos`, where `prev` is the key read
/// last: the final `e` (`None`), or the next key, which must come strictly
/// after `prev`. Also the position after what was read.
pub open spec fn read_key(s: Seq<u8>, pos: int, prev: Option<Seq<u8>>) -> Result<(Option<Seq<u8>>, int), Error> {
    if pos < 0 || pos >= s.len() {
        Err(Error::UnexpectedEndOfInput)
    } else if s[pos] == 101 {
        Ok((None, pos + 1))
    } else if is_digit(s[pos]) {
        match read_byte_string(s, pos) {
            Err(e) => Err(e),
            Ok((key, p)) => {
                if prev is Some && !bytes_lt(prev->0, key) {
                    Err(Error::UnsortedDictionaryKeys)
                } else {
                    Ok((Some(key), p))
                }
            },
        }
    } else {
        Err(Error::UnexpectedToken { expected: Expected::Digit, found: s[pos], offset: pos as usize })
    }
}

/// The entries of a dictionary from `pos` on, through its final `e`. Each
/// key must come strictly after the one before it (`prev`). (As for lists,
/// the test on the position after the value only serves to show that the
/// reading ends.)
pub open spec fn read_entries(s: Seq<u8>, pos: int, depth: nat, prev: Option<Seq<u8>>) -> Result<(Seq<(Seq<u8>, Bencode)>, int), Error>
    decreases depth, 1int, s.len() - pos,
{
    match read_key(s, pos, prev) {
        Err(e) => Err(e),
        Ok((None, p)) => Ok((Seq::empty(), p)),
        Ok((Some(key), after_key)) => {
            match read_value(s, after_key, depth) {
                Err(e) => Err(e),
                Ok((v, after_value)) => {
                    if pos < after_value <= s.len() {
                        match read_entries(s, after_value, depth, Some(key)) {
                            Ok((rest, q)) => Ok((seq![(key, v)] + rest, q)),
                            Err(e) => Err(e),
                        }
                    } else {
                        Err(Error::UnexpectedEndOfInput)
                    }
                },
            }
        },
    }
}

/// `pre` put in front of what a successful read gives; errors stay as they are.
pub open spec fn prefixed<T>(pre: Seq<T>, r: Result<(Seq<T>, int), Error>) -> Result<(Seq<T>, int), Error> {
    match r {
        Ok((rest, p)) => Ok((pre + rest, p)),
        Err(e) => Err(e),
    }
}

/// A whole document: one value and nothing after it.
pub open spec fn decode(s: Seq<u8>) -> Result<Bencode, Error> {
    match read_value(s, 0, MAX_DEPTH as nat) {
        Ok((v, p)) => {
            if p < s.len() {
                Err(Error::TrailingBytesAfterValue)
            } else {
                Ok(v)
            }
        },
        Err(e) => Err(e),
    }
}

} // verus!

verus! {

/// A run of digits stays inside the input and holds digits only.
pub proof fn lemma_digit_run_bounds(s: Seq<u8>, a: int)
    requires
        0 <= a <= s.len(),
    ensures
        a + digit_run(s, a) <= s.len(),
        forall|j: int| a <= j < a + digit_run(s, a) ==> is_digit(#[trigger] s[j]),
    decreases s.len() - a,
{
    if a < s.len() && is_digit(s[a]) {
        lemma_digit_run_bounds(s, a + 1);
    }
}

/// Where every byte in `[a, b)` is a digit, the run from `a` reaches `b` and
/// goes on as the run from `b` does.
pub proof fn lemma_digit_run_split(s: Seq<u8>, a: int, b: int)
    requires
        0 <= a <= b <= s.len(),
        forall|j: int| a <= j < b ==> is_digit(#[trigger] s[j]),
    ensures
        digit_run(s, a) == (b - a) + digit_run(s, b),
    decreases b - a,
{
    if a < b {
        lemma_digit_run_split(s, a + 1, b);
    }
}

/// Adding digits at the end never makes the number smaller.
pub proof fn lemma_digits_value_grows(s: Seq<u8>, a: int, b: int, c: int)
    requires
        0 <= a <= b <= c <= s.len(),
        forall|j: int| a <= j < c ==> is_digit(#[trigger] s[j]),
    ensures
        digits_value(s.subrange(a, b)) <= digits_value(s.subrange(a, c)),
    decreases c - b,
{
    if b < c {
        lemma_digits_value_grows(s, a, b, c - 1);
        assert(s.subrange(a, c).drop_last() =~= s.subrange(a, c - 1));
        assert(s.subrange(a, c).last() == s[c - 1]);
    }
}

/// The number of `s[a..b+1]` from that of `s[a..b]` and the digit at `b`.
pub proof fn lemma_digits_value_step(s: Seq<u8>, a: int, b: int)
    requires
        0 <= a <= b < s.len(),
    ensures
        digits_value(s.subrange(a, b + 1)) == digits_value(s.subrange(a, b)) * 10 + (s[b] - 48) as nat,
{
    assert(s.subrange(a, b + 1).drop_last() =~= s.subrange(a, b));
}

/// `acc * 10 + d` exceeds `max` exactly when the test on `max / 10` and
/// `max % 10` says so.
pub proof fn lemma_overflow_test(acc: nat, d: nat, max: nat)
    requires
        d < 10,
    ensures
        (acc * 10 + d > max) <==> (acc > max / 10 || (acc == max / 10 && d > max % 10)),
{
    let q = max / 10;
    let r = max % 10;
    assert(max == q * 10 + r);
    assert(0 <= r < 10);
    if acc > q {
        assert(acc * 10 >= q * 10 + 10) by (nonlinear_arith)
            requires acc > q;
    } else if acc < q {
        assert(acc * 10 + 10 <= q * 10) by (nonlinear_arith)
            requires acc < q;
    }
}

} // verus!

verus! {

/// The items' encodings, taken in two parts, are the two parts' encodings.
pub proof fn lemma_encode_list_append(a: Seq<Bencode>, b: Seq<Bencode>)
    ensures
        encode_list(a + b) == encode_list(a) + encode_list(b),
    decreases a.len(),
{
    if a.len() == 0 {
        assert(a + b =~= b);
        assert(encode_list(a) + encode_list(b) =~= encode_list(b));
    } else {
        assert((a + b).drop_first() =~= a.drop_first() + b);
        lemma_encode_list_append(a.drop_first(), b);
        assert(encode_list(a + b) =~= encode_list(a) + encode_list(b));
    }
}

/// The entries' encodings, taken in two parts, are the two parts' encodings.
pub proof fn lemma_encode_entries_append(a: Seq<(Seq<u8>, Bencode)>, b: Seq<(Seq<u8>, Bencode)>)
    ensures
        encode_entries(a + b) == encode_entries(a) + encode_entries(b),
    decreases a.len(),
{
    if a.len() == 0 {
        assert(a + b =~= b);
        assert(encode_entries(a) + encode_entries(b) =~= encode_entries(b));
    } else {
        assert((a + b).drop_first() =~= a.drop_first() + b);
        lemma_encode_entries_append(a.drop_first(), b);
        assert(encode_entries(a + b) =~= encode_entries(a) + encode_entries(b));
    }
}

/// The encoding of the first `i + 1` items from that of the first `i`.
pub proof fn lemma_encode_list_step(s: Seq<Bencode>, i: int)
    requires
        0 <= i < s.len(),
    ensures
        encode_list(s.take(i + 1)) == encode_list(s.take(i)) + encode(s[i]),
{
    assert(s.take(i + 1) =~= s.take(i) + seq![s[i]]);
    lemma_encode_list_append(s.take(i), seq![s[i]]);
    assert(seq![s[i]].drop_first() =~= Seq::<Bencode>::empty());
    assert(encode_list(seq![s[i]].drop_first()) =~= Seq::<u8>::empty());
    assert(encode_list(seq![s[i]]) =~= encode(s[i]));
}

/// The encoding of the first `i + 1` entries from that of the first `i`.
pub proof fn lemma_encode_entries_step(s: Seq<(Seq<u8>, Bencode)>, i: int)
    requires
        0 <= i < s.len(),
    ensures
        encode_entries(s.take(i + 1)) == encode_entries(s.take(i)) + encode_bytes(s[i].0) + encode(
            s[i].1,
        ),
{
    assert(s.take(i + 1) =~= s.take(i) + seq![s[i]]);
    lemma_encode_entries_append(s.take(i), seq![s[i]]);
    assert(seq![s[i]].drop_first() =~= Seq::<(Seq<u8>, Bencode)>::empty());
    assert(encode_entries(seq![s[i]].drop_first()) =~= Seq::<u8>::empty());
    assert(encode_entries(seq![s[i]]) =~= encode_bytes(s[i].0) + encode(s[i].1));
}

} // verus!
