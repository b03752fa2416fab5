//! Reading back what was written: the decoder gives back every value that
//! it can hold, from its encoding.
use crate::byte_string::bytes_lt;
use crate::grammar::{
    decimal, decode, digit_char, digit_run, digits_value, encode, encode_bytes, encode_entries,
    encode_list, is_digit, lemma_digit_run_split, read_byte_string, read_entries,
    read_integer_body, read_items, read_key, read_number, read_value,
    signed_decimal, MAX_DEPTH,
};
use crate::value::{sorted_keys, Bencode};
use vstd::prelude::*;

verus! {

/// A value that decoding can give back: its integers lie from `i64::MIN`
/// to `u64::MAX`, its dictionary keys ascend strictly, and it nests lists and
/// dictionaries at most `depth` deep.
pub open spec fn decodable(v: Bencode, depth: nat) -> bool
    decreases v,
{
    match v {
        Bencode::Bytes(_) => true,
        Bencode::Int(n) => i64::MIN <= n <= u64::MAX,
        Bencode::List(items) => depth > 0 && decodable_items(items, (depth - 1) as nat),
        Bencode::Dict(es) => depth > 0 && sorted_keys(es) && decodable_entries(es, (depth - 1) as nat),
    }
}

/// Every item is decodable at `depth`.
pub open spec fn decodable_items(items: Seq<Bencode>, depth: nat) -> bool
    decreases items,
{
    items.len() > 0 ==> decodable(items[0], depth) && decodable_items(items.drop_first(), depth)
}

/// Every entry's value is decodable at `depth`.
pub open spec fn decodable_entries(es: Seq<(Seq<u8>, Bencode)>, depth: nat) -> bool
    decreases es,
{
    es.len() > 0 ==> decodable(es[0].1, depth) && decodable_entries(es.drop_first(), depth)
}

/// `e` stands in `s` from `pos` on.
pub open spec fn found_at(s: Seq<u8>, pos: int, e: Seq<u8>) -> bool {
    0 <= pos && pos + e.len() <= s.len() && s.subrange(pos, pos + e.len()) == e
}

proof fn lemma_found_split(s: Seq<u8>, pos: int, a: Seq<u8>, b: Seq<u8>)
    requires
        found_at(s, pos, a + b),
    ensures
        found_at(s, pos, a),
        found_at(s, pos + a.len(), b),
{
    assert(s.subrange(pos, pos + a.len()) =~= (a + b).subrange(0, a.len() as int));
    assert((a + b).subrange(0, a.len() as int) =~= a);
    assert(s.subrange(pos + a.len(), pos + a.len() + b.len()) =~= (a + b).subrange(
        a.len() as int,
        (a.len() + b.len()) as int,
    ));
    assert((a + b).subrange(a.len() as int, (a.len() + b.len()) as int) =~= b);
}

proof fn lemma_found_byte(s: Seq<u8>, pos: int, e: Seq<u8>, j: int)
    requires
        found_at(s, pos, e),
        0 <= j < e.len(),
    ensures
        s[pos + j] == e[j],
{
    assert(s.subrange(pos, pos + e.len())[j] == s[pos + j]);
}

/// Facts on the decimal digits of a number.
proof fn lemma_decimal(n: nat)
    ensures
        decimal(n).len() >= 1,
        forall|j: int| 0 <= j < decimal(n).len() ==> is_digit(#[trigger] decimal(n)[j]),
        digits_value(decimal(n)) == n,
        n > 0 ==> decimal(n)[0] != 48,
        n == 0 ==> decimal(n) == seq![48u8],
    decreases n,
{
    let d = decimal(n);
    if n >= 10 {
        lemma_decimal(n / 10);
        assert(d.drop_last() == decimal(n / 10));
        assert(d[0] == decimal(n / 10)[0]);
        assert(d.last() == digit_char(n % 10));
        assert((d.last() - 48) as nat == n % 10);
        assert(digits_value(d) == digits_value(d.drop_last()) * 10 + (d.last() - 48) as nat);
        assert((n / 10) * 10 + n % 10 == n);
    } else {
        assert(d.drop_last() =~= Seq::<u8>::empty());
        assert(d.last() == digit_char(n));
        assert((d.last() - 48) as nat == n);
        assert(digits_value(d) == digits_value(d.drop_last()) * 10 + (d.last() - 48) as nat);
    }
}

/// A number written in decimal and followed by `until` reads back.
proof fn lemma_read_number_decimal(s: Seq<u8>, pos: int, n: nat, until: u8, max: nat)
    requires
        found_at(s, pos, decimal(n) + seq![until]),
        !is_digit(until),
        n <= max,
    ensures
        read_number(s, pos, until, max) == Ok::<(nat, int), crate::error::Error>(
            (n, pos + decimal(n).len() + 1),
        ),
{
    let d = decimal(n);
    lemma_decimal(n);
    lemma_found_split(s, pos, d, seq![until]);
    let end = pos + d.len();
    assert forall|j: int| pos <= j < end implies is_digit(#[trigger] s[j]) by {
        lemma_found_byte(s, pos, d, j - pos);
    }
    lemma_found_byte(s, end, seq![until], 0);
    lemma_digit_run_split(s, pos, end);
    assert(digit_run(s, end) == 0);
    assert(s.subrange(pos, pos + digit_run(s, pos)) == d);
}

/// The encoding of any value starts with a byte that says its kind.
proof fn lemma_encode_first(v: Bencode)
    ensures
        encode(v).len() >= 1,
        v is Int ==> encode(v)[0] == 105,
        v is List ==> encode(v)[0] == 108,
        v is Dict ==> encode(v)[0] == 100,
        v is Bytes ==> is_digit(encode(v)[0]),
{
    match v {
        Bencode::Bytes(b) => {
            lemma_decimal(b.len());
            assert(encode(v)[0] == decimal(b.len())[0]);
        },
        _ => {},
    }
}

/// A byte string reads back from its encoding.
proof fn lemma_read_bytes_encoded(s: Seq<u8>, pos: int, b: Seq<u8>)
    requires
        found_at(s, pos, encode_bytes(b)),
        s.len() <= usize::MAX,
    ensures
        read_byte_string(s, pos) == Ok::<(Seq<u8>, int), crate::error::Error>(
            (b, pos + encode_bytes(b).len()),
        ),
{
    let d = decimal(b.len());
    assert(encode_bytes(b) == (d + seq![58u8]) + b);
    lemma_found_split(s, pos, d + seq![58u8], b);
    lemma_read_number_decimal(s, pos, b.len(), 58, usize::MAX as nat);
    let p = pos + d.len() + 1;
    if b.len() == 0 {
        assert(b =~= Seq::<u8>::empty());
    } else {
        assert(s.subrange(p, p + b.len()) == b);
    }
}

/// An integer reads back from its encoding.
proof fn lemma_read_int_encoded(s: Seq<u8>, pos: int, n: int)
    requires
        found_at(s, pos, encode(Bencode::Int(n))),
        i64::MIN <= n <= u64::MAX,
    ensures
        read_integer_body(s, pos + 1, i64::MAX as nat + 1, u64::MAX as nat) == Ok::<
            (int, int),
            crate::error::Error,
        >((n, pos + encode(Bencode::Int(n)).len())),
{
    let t = signed_decimal(n);
    assert(encode(Bencode::Int(n)) == seq![105u8] + (t + seq![101u8]));
    lemma_found_split(s, pos, seq![105u8], t + seq![101u8]);
    let p = pos + 1;
    if n >= 0 {
        let m = n as nat;
        lemma_decimal(m);
        lemma_found_byte(s, p, t + seq![101u8], 0);
        if m == 0 {
            lemma_found_byte(s, p, t + seq![101u8], 1);
        } else {
            lemma_read_number_decimal(s, p, m, 101, u64::MAX as nat);
        }
    } else {
        let m = (-n) as nat;
        let d = decimal(m);
        lemma_decimal(m);
        assert(t + seq![101u8] == seq![45u8] + (d + seq![101u8]));
        lemma_found_split(s, p, seq![45u8], d + seq![101u8]);
        lemma_found_byte(s, p, seq![45u8], 0);
        lemma_found_byte(s, p + 1, d + seq![101u8], 0);
        lemma_read_number_decimal(s, p + 1, m, 101, i64::MAX as nat + 1);
    }
}

/// Every decodable value reads back from its encoding, wherever it stands.
pub proof fn lemma_read_encoded(s: Seq<u8>, pos: int, v: Bencode, depth: nat)
    requires
        found_at(s, pos, encode(v)),
        s.len() <= usize::MAX,
        decodable(v, depth),
    ensures
        read_value(s, pos, depth) == Ok::<(Bencode, int), crate::error::Error>(
            (v, pos + encode(v).len()),
        ),
    decreases v,
{
    lemma_encode_first(v);
    lemma_found_byte(s, pos, encode(v), 0);
    match v {
        Bencode::Bytes(b) => {
            lemma_read_bytes_encoded(s, pos, b);
        },
        Bencode::Int(n) => {
            lemma_read_int_encoded(s, pos, n);
        },
        Bencode::List(items) => {
            let body = encode_list(items) + seq![101u8];
            assert(encode(v) == seq![108u8] + body);
            lemma_found_split(s, pos, seq![108u8], body);
            lemma_read_items_encoded(s, pos + 1, items, (depth - 1) as nat);
        },
        Bencode::Dict(es) => {
            let body = encode_entries(es) + seq![101u8];
            assert(encode(v) == seq![100u8] + body);
            lemma_found_split(s, pos, seq![100u8], body);
            lemma_read_entries_encoded(s, pos + 1, es, (depth - 1) as nat, None);
        },
    }
}

/// The items of a list read back from their encodings and the final `e`.
pub proof fn lemma_read_items_encoded(s: Seq<u8>, pos: int, items: Seq<Bencode>, depth: nat)
    requires
        found_at(s, pos, encode_list(items) + seq![101u8]),
        s.len() <= usize::MAX,
        decodable_items(items, depth),
    ensures
        read_items(s, pos, depth) == Ok::<(Seq<Bencode>, int), crate::error::Error>(
            (items, pos + encode_list(items).len() + 1),
        ),
    decreases items,
{
    if items.len() == 0 {
        assert(items =~= Seq::<Bencode>::empty());
        assert(encode_list(items) + seq![101u8] =~= seq![101u8]);
        lemma_found_byte(s, pos, seq![101u8], 0);
    } else {
        let first = encode(items[0]);
        let rest = encode_list(items.drop_first()) + seq![101u8];
        assert(encode_list(items) + seq![101u8] =~= first + rest);
        lemma_found_split(s, pos, first, rest);
        lemma_encode_first(items[0]);
        lemma_found_byte(s, pos, first, 0);
        lemma_read_encoded(s, pos, items[0], depth);
        lemma_read_items_encoded(s, pos + first.len(), items.drop_first(), depth);
        assert(seq![items[0]] + items.drop_first() =~= items);
    }
}

/// The entries of a dictionary read back from their encodings and the final
/// `e`, where each key comes after the one before it.
pub proof fn lemma_read_entries_encoded(
    s: Seq<u8>,
    pos: int,
    es: Seq<(Seq<u8>, Bencode)>,
    depth: nat,
    prev: Option<Seq<u8>>,
)
    requires
        found_at(s, pos, encode_entries(es) + seq![101u8]),
        s.len() <= usize::MAX,
        sorted_keys(es),
        decodable_entries(es, depth),
        prev is Some && es.len() > 0 ==> bytes_lt(prev->0, es[0].0),
    ensures
        read_entries(s, pos, depth, prev) == Ok::<
            (Seq<(Seq<u8>, Bencode)>, int),
            crate::error::Error,
        >((es, pos + encode_entries(es).len() + 1)),
    decreases es,
{
    if es.len() == 0 {
        assert(es =~= Seq::<(Seq<u8>, Bencode)>::empty());
        assert(encode_entries(es) + seq![101u8] =~= seq![101u8]);
        lemma_found_byte(s, pos, seq![101u8], 0);
    } else {
        let key = encode_bytes(es[0].0);
        let value = encode(es[0].1);
        let rest = encode_entries(es.drop_first()) + seq![101u8];
        assert(encode_entries(es) + seq![101u8] =~= key + (value + rest));
        lemma_found_split(s, pos, key, value + rest);
        lemma_found_split(s, pos + key.len(), value, rest);
        lemma_decimal(es[0].0.len());
        assert(key[0] == decimal(es[0].0.len())[0]);
        lemma_found_byte(s, pos, key, 0);
        lemma_read_bytes_encoded(s, pos, es[0].0);
        lemma_read_encoded(s, pos + key.len(), es[0].1, depth);
        let tail = es.drop_first();
        assert(sorted_keys(tail)) by {
            assert forall|i: int| 0 <= i < tail.len() - 1 implies #[trigger] bytes_lt(
                tail[i].0,
                tail[i + 1].0,
            ) by {
                let k = i + 1;
                assert(bytes_lt(es[k].0, es[k + 1].0));
            }
        }
        if tail.len() > 0 {
            assert(bytes_lt(es[0].0, es[1].0));
        }
        lemma_read_entries_encoded(s, pos + key.len() + value.len(), tail, depth, Some(es[0].0));
        assert(seq![es[0]] + tail =~= es);
    }
}

/// Round trip: decoding the encoding of any decodable value gives that
/// value back, and nothing else is read.
pub proof fn lemma_decode_encode(v: Bencode)
    requires
        decodable(v, MAX_DEPTH as nat),
        encode(v).len() <= usize::MAX,
    ensures
        decode(encode(v)) == Ok::<Bencode, crate::error::Error>(v),
{
    let s = encode(v);
    assert(s.subrange(0, s.len() as int) =~= s);
    lemma_read_encoded(s, 0, v, MAX_DEPTH as nat);
}

/// A canonical document re-encodes to itself: where `s` is the encoding of
/// a decodable value, decoding `s` and encoding the result gives `s` back.
pub proof fn lemma_reencode_canonical(s: Seq<u8>, w: Bencode, v: Bencode)
    requires
        s == encode(w),
        decodable(w, MAX_DEPTH as nat),
        s.len() <= usize::MAX,
        decode(s) == Ok::<Bencode, crate::error::Error>(v),
    ensures
        encode(v) == s,
{
    lemma_decode_encode(w);
}

/// What reading a value gives is decodable, and it takes at least one byte.
pub proof fn lemma_read_value_decodable(s: Seq<u8>, pos: int, depth: nat)
    ensures
        match read_value(s, pos, depth) {
            Ok((v, p)) => decodable(v, depth) && pos < p <= s.len(),
            Err(_) => true,
        },
    decreases depth, 0int, 0int,
{
    if 0 <= pos < s.len() {
        if s[pos] == 105 {
            lemma_read_integer_range(s, pos + 1);
        } else if is_digit(s[pos]) {
            lemma_read_byte_string_advances(s, pos);
        } else if s[pos] == 108 && depth > 0 {
            lemma_read_items_decodable(s, pos + 1, (depth - 1) as nat);
        } else if s[pos] == 100 && depth > 0 {
            lemma_read_entries_decodable(s, pos + 1, (depth - 1) as nat, None);
        }
    }
}

proof fn lemma_read_number_advances(s: Seq<u8>, pos: int, until: u8, max: nat)
    requires
        0 <= pos,
    ensures
        match read_number(s, pos, until, max) {
            Ok((n, p)) => pos < p <= s.len() && n <= max,
            Err(_) => true,
        },
{
}

proof fn lemma_read_byte_string_advances(s: Seq<u8>, pos: int)
    requires
        0 <= pos,
    ensures
        match read_byte_string(s, pos) {
            Ok((b, p)) => pos < p <= s.len(),
            Err(_) => true,
        },
{
    lemma_read_number_advances(s, pos, 58, usize::MAX as nat);
}

proof fn lemma_read_integer_range(s: Seq<u8>, pos: int)
    requires
        1 <= pos,
    ensures
        match read_integer_body(s, pos, i64::MAX as nat + 1, u64::MAX as nat) {
            Ok((n, p)) => i64::MIN <= n <= u64::MAX && pos <= p <= s.len(),
            Err(_) => true,
        },
{
    lemma_read_number_advances(s, pos, 101, u64::MAX as nat);
    lemma_read_number_advances(s, pos + 1, 101, i64::MAX as nat + 1);
}

proof fn lemma_read_items_decodable(s: Seq<u8>, pos: int, depth: nat)
    ensures
        match read_items(s, pos, depth) {
            Ok((items, p)) => decodable_items(items, depth) && pos < p <= s.len(),
            Err(_) => true,
        },
    decreases depth, 1int, s.len() - pos,
{
    if 0 <= pos < s.len() && s[pos] != 101 {
        lemma_read_value_decodable(s, pos, depth);
        match read_value(s, pos, depth) {
            Ok((v, p)) => {
                if pos < p <= s.len() {
                    lemma_read_items_decodable(s, p, depth);
                    match read_items(s, p, depth) {
                        Ok((rest, q)) => {
                            let items = seq![v] + rest;
                            assert(items[0] == v);
                            assert(items.drop_first() =~= rest);
                        },
                        Err(_) => {},
                    }
                }
            },
            Err(_) => {},
        }
    }
}

proof fn lemma_read_entries_decodable(s: Seq<u8>, pos: int, depth: nat, prev: Option<Seq<u8>>)
    ensures
        match read_entries(s, pos, depth, prev) {
            Ok((es, p)) => sorted_keys(es) && decodable_entries(es, depth) && pos < p <= s.len()
                && (prev is Some && es.len() > 0 ==> bytes_lt(prev->0, es[0].0)),
            Err(_) => true,
        },
    decreases depth, 1int, s.len() - pos,
{
    if 0 <= pos < s.len() && is_digit(s[pos]) {
        lemma_read_byte_string_advances(s, pos);
    }
    match read_key(s, pos, prev) {
        Ok((Some(key), after_key)) => {
            lemma_read_value_decodable(s, after_key, depth);
            match read_value(s, after_key, depth) {
                Ok((v, after_value)) => {
                    if pos < after_value <= s.len() {
                        lemma_read_entries_decodable(s, after_value, depth, Some(key));
                        match read_entries(s, after_value, depth, Some(key)) {
                            Ok((rest, q)) => {
                                let es = seq![(key, v)] + rest;
                                assert(es[0] == (key, v));
                                assert(es.drop_first() =~= rest);
                                assert forall|i: int| 0 <= i < es.len() - 1 implies #[trigger] bytes_lt(
                                    es[i].0,
                                    es[i + 1].0,
                                ) by {
                                    if i > 0 {
                                        let k = i - 1;
                                        assert(es[i] == rest[k] && es[i + 1] == rest[k + 1]);
                                        assert(bytes_lt(rest[k].0, rest[k + 1].0));
                                    } else {
                                        assert(es[1] == rest[0]);
                                    }
                                }
                            },
                            Err(_) => {},
                        }
                    }
                },
                Err(_) => {},
            }
        },
        _ => {},
    }
}

/// Whatever decoding gives is decodable: integers in range, dictionary keys
/// in strictly ascending order, nesting within the limit.
pub proof fn lemma_decoded_is_decodable(s: Seq<u8>)
    ensures
        decode(s) is Ok ==> decodable(decode(s)->Ok_0, MAX_DEPTH as nat),
{
    lemma_read_value_decodable(s, 0, MAX_DEPTH as nat);
}

} // verus!
