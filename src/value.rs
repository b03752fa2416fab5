//! Documents of the format as a tree of values, and their mathematical model.
use crate::byte_string::{
    bytes_cmp, bytes_lt, lemma_bytes_cmp_flip, lemma_bytes_lt_irreflexive, lemma_bytes_lt_transitive,
    ByteString,
};
use crate::grammar::{
    encode, encode_entries, encode_list, lemma_encode_entries_step, lemma_encode_list_step,
};
use crate::integer::{int_cmp, Integer};
use crate::ser::{write_byte_string, write_integer};
use core::cmp::Ordering;
use vstd::prelude::*;

verus! {

/// The mathematical model of a document: what a `Value` stands for.
pub enum Bencode {
    Bytes(Seq<u8>),
    Int(int),
    List(Seq<Bencode>),
    /// Key and value pairs in the order they are held.
    Dict(Seq<(Seq<u8>, Bencode)>),
}

/// The keys of a dictionary model stand in strictly ascending byte order
/// (which also makes them unique).
pub open spec fn sorted_keys(es: Seq<(Seq<u8>, Bencode)>) -> bool {
    forall|i: int| 0 <= i < es.len() - 1 ==> #[trigger] bytes_lt(es[i].0, es[i + 1].0)
}

/// The entries with `(k, v)` put in their place by key order: it replaces
/// the entry with key `k` if there is one.
pub open spec fn insert_entry(es: Seq<(Seq<u8>, Bencode)>, k: Seq<u8>, v: Bencode) -> Seq<(Seq<u8>, Bencode)>
    decreases es.len(),
{
    if es.len() == 0 {
        seq![(k, v)]
    } else if bytes_lt(k, es[0].0) {
        seq![(k, v)] + es
    } else if k == es[0].0 {
        es.update(0, (k, v))
    } else {
        seq![es[0]] + insert_entry(es.drop_first(), k, v)
    }
}

/// In a dictionary model with sorted keys, every key comes before every
/// later one.
pub proof fn lemma_sorted_keys_all(es: Seq<(Seq<u8>, Bencode)>, i: int, j: int)
    requires
        sorted_keys(es),
        0 <= i < j < es.len(),
    ensures
        bytes_lt(es[i].0, es[j].0),
    decreases j - i,
{
    let k = j - 1;
    assert(bytes_lt(es[k].0, es[k + 1].0));
    if j > i + 1 {
        lemma_sorted_keys_all(es, i, j - 1);
        lemma_bytes_lt_transitive(es[i].0, es[j - 1].0, es[j].0);
    }
}

/// Past entries whose keys come before `k`, inserting leaves them in front.
pub proof fn lemma_insert_prefix(es: Seq<(Seq<u8>, Bencode)>, i: int, k: Seq<u8>, v: Bencode)
    requires
        0 <= i <= es.len(),
        forall|j: int| 0 <= j < i ==> #[trigger] bytes_lt(es[j].0, k),
    ensures
        insert_entry(es, k, v) == es.take(i) + insert_entry(es.skip(i), k, v),
    decreases i,
{
    if i == 0 {
        assert(es.skip(0) =~= es);
        assert(es.take(0) + insert_entry(es, k, v) =~= insert_entry(es, k, v));
    } else {
        let rest = es.drop_first();
        assert forall|j: int| 0 <= j < i - 1 implies #[trigger] bytes_lt(rest[j].0, k) by {
            assert(rest[j] == es[j + 1]);
        }
        lemma_insert_prefix(rest, i - 1, k, v);
        assert(bytes_lt(es[0].0, k));
        lemma_bytes_cmp_flip(es[0].0, k);
        lemma_bytes_cmp_flip(k, es[0].0);
        assert(rest.skip(i - 1) =~= es.skip(i));
        assert(es.take(i) =~= seq![es[0]] + rest.take(i - 1));
        assert(insert_entry(es, k, v) =~= es.take(i) + insert_entry(es.skip(i), k, v));
    }
}

/// Inserting a key that is already held at `i` replaces that entry, and the
/// keys stay sorted.
pub proof fn lemma_insert_replaces(es: Seq<(Seq<u8>, Bencode)>, i: int, k: Seq<u8>, v: Bencode)
    requires
        sorted_keys(es),
        0 <= i < es.len(),
        forall|j: int| 0 <= j < i ==> #[trigger] bytes_lt(es[j].0, k),
        es[i].0 == k,
    ensures
        insert_entry(es, k, v) == es.update(i, (k, v)),
        sorted_keys(es.update(i, (k, v))),
        exists|j: int| 0 <= j < es.len() && #[trigger] es[j].0 == k,
{
    lemma_insert_prefix(es, i, k, v);
    lemma_bytes_lt_irreflexive(k);
    let rest = es.skip(i);
    assert(rest[0] == es[i]);
    assert(insert_entry(rest, k, v) == rest.update(0, (k, v)));
    assert(es.take(i) + rest.update(0, (k, v)) =~= es.update(i, (k, v)));
    let nm = es.update(i, (k, v));
    assert forall|j: int| 0 <= j < nm.len() - 1 implies #[trigger] bytes_lt(nm[j].0, nm[j + 1].0) by {
        assert(nm.len() == es.len());
        assert(nm[j].0 == es[j].0);
        assert(nm[j + 1].0 == es[j + 1].0);
        assert(bytes_lt(es[j].0, es[j + 1].0));
    }
}

/// Inserting a key between the keys before `i` and the key at `i` puts a new
/// entry there, and the keys stay sorted; no key held equals it.
pub proof fn lemma_insert_adds(es: Seq<(Seq<u8>, Bencode)>, i: int, k: Seq<u8>, v: Bencode)
    requires
        sorted_keys(es),
        0 <= i <= es.len(),
        forall|j: int| 0 <= j < i ==> #[trigger] bytes_lt(es[j].0, k),
        i < es.len() ==> bytes_lt(k, es[i].0),
    ensures
        insert_entry(es, k, v) == es.insert(i, (k, v)),
        sorted_keys(es.insert(i, (k, v))),
        forall|j: int| 0 <= j < es.len() ==> #[trigger] es[j].0 != k,
{
    lemma_insert_prefix(es, i, k, v);
    let rest = es.skip(i);
    if i < es.len() {
        assert(rest[0] == es[i]);
        assert(insert_entry(rest, k, v) == seq![(k, v)] + rest);
    } else {
        assert(rest =~= Seq::<(Seq<u8>, Bencode)>::empty());
        assert(insert_entry(rest, k, v) == seq![(k, v)]);
    }
    assert(es.take(i) + insert_entry(rest, k, v) =~= es.insert(i, (k, v)));
    let nm = es.insert(i, (k, v));
    assert forall|j: int| 0 <= j < nm.len() - 1 implies #[trigger] bytes_lt(nm[j].0, nm[j + 1].0) by {
        if j < i - 1 {
            assert(nm[j] == es[j] && nm[j + 1] == es[j + 1]);
            assert(bytes_lt(es[j].0, es[j + 1].0));
        } else if j == i - 1 {
            assert(nm[j] == es[j] && nm[j + 1].0 == k);
            assert(bytes_lt(es[j].0, k));
        } else if j == i {
            assert(nm[j].0 == k && nm[j + 1] == es[j]);
        } else {
            assert(nm[j] == es[j - 1] && nm[j + 1] == es[j]);
            let p = j - 1;
            assert(bytes_lt(es[p].0, es[p + 1].0));
        }
    }
    assert forall|j: int| 0 <= j < es.len() implies #[trigger] es[j].0 != k by {
        lemma_bytes_lt_irreflexive(k);
        if j < i {
            assert(bytes_lt(es[j].0, k));
        } else if j > i {
            lemma_sorted_keys_all(es, i, j);
            lemma_bytes_lt_transitive(k, es[i].0, es[j].0);
        }
    }
}

/// The rank of a value's kind in the order of values: byte strings, then
/// integers, then lists, then dictionaries.
pub open spec fn kind_rank(v: Bencode) -> int {
    match v {
        Bencode::Bytes(_) => 0,
        Bencode::Int(_) => 1,
        Bencode::List(_) => 2,
        Bencode::Dict(_) => 3,
    }
}

/// The total order of values: by kind first; then byte strings by bytes,
/// integers by value, and lists and dictionaries item by item (a key before
/// its value), a proper prefix first.
pub open spec fn value_cmp(a: Bencode, b: Bencode) -> Ordering
    decreases a,
{
    match (a, b) {
        (Bencode::Bytes(x), Bencode::Bytes(y)) => bytes_cmp(x, y),
        (Bencode::Int(x), Bencode::Int(y)) => int_cmp(x, y),
        (Bencode::List(x), Bencode::List(y)) => list_cmp(x, y),
        (Bencode::Dict(x), Bencode::Dict(y)) => entries_cmp(x, y),
        _ => int_cmp(kind_rank(a), kind_rank(b)),
    }
}

/// Lists compared item by item.
pub open spec fn list_cmp(x: Seq<Bencode>, y: Seq<Bencode>) -> Ordering
    decreases x,
{
    if x.len() == 0 {
        if y.len() == 0 {
            Ordering::Equal
        } else {
            Ordering::Less
        }
    } else if y.len() == 0 {
        Ordering::Greater
    } else {
        match value_cmp(x[0], y[0]) {
            Ordering::Equal => list_cmp(x.drop_first(), y.drop_first()),
            o => o,
        }
    }
}

/// Dictionaries compared entry by entry, each key before its value.
pub open spec fn entries_cmp(x: Seq<(Seq<u8>, Bencode)>, y: Seq<(Seq<u8>, Bencode)>) -> Ordering
    decreases x,
{
    if x.len() == 0 {
        if y.len() == 0 {
            Ordering::Equal
        } else {
            Ordering::Less
        }
    } else if y.len() == 0 {
        Ordering::Greater
    } else {
        match bytes_cmp(x[0].0, y[0].0) {
            Ordering::Equal => match value_cmp(x[0].1, y[0].1) {
                Ordering::Equal => entries_cmp(x.drop_first(), y.drop_first()),
                o => o,
            },
            o => o,
        }
    }
}

/// Any document: tagged value of one of four kinds.
#[derive(Debug)]
pub enum Value {
    ByteString(ByteString),
    Integer(Integer),
    List(Vec<Value>),
    Dictionary(Dictionary),
}

/// A mapping from byte strings to values whose keys stand in ascending byte
/// order.
#[derive(Debug)]
pub struct Dictionary {
    entries: Vec<(ByteString, Value)>,
}

/// The model of a value.
pub open spec fn value_model(v: Value) -> Bencode
    decreases v,
{
    match v {
        Value::ByteString(b) => Bencode::Bytes(b@),
        Value::Integer(i) => Bencode::Int(i@),
        Value::List(l) => Bencode::List(list_model(l@)),
        Value::Dictionary(d) => Bencode::Dict(d.model()),
    }
}

/// The models of a sequence of values, one for one.
pub open spec fn list_model(s: Seq<Value>) -> Seq<Bencode>
    decreases s,
{
    if s.len() == 0 {
        Seq::empty()
    } else {
        list_model(s.drop_last()).push(value_model(s.last()))
    }
}

/// The models of a sequence of dictionary entries, one for one.
pub open spec fn entries_model(s: Seq<(ByteString, Value)>) -> Seq<(Seq<u8>, Bencode)>
    decreases s,
{
    if s.len() == 0 {
        Seq::empty()
    } else {
        entries_model(s.drop_last()).push((s.last().0@, value_model(s.last().1)))
    }
}

/// `list_model` maps each value to its model.
pub proof fn lemma_list_model(s: Seq<Value>)
    ensures
        list_model(s).len() == s.len(),
        forall|i: int| 0 <= i < s.len() ==> #[trigger] list_model(s)[i] == value_model(s[i]),
    decreases s.len(),
{
    if s.len() > 0 {
        lemma_list_model(s.drop_last());
    }
}

/// `entries_model` maps each entry to its model.
pub proof fn lemma_entries_model(s: Seq<(ByteString, Value)>)
    ensures
        entries_model(s).len() == s.len(),
        forall|i: int|
            0 <= i < s.len() ==> #[trigger] entries_model(s)[i] == (s[i].0@, value_model(s[i].1)),
    decreases s.len(),
{
    if s.len() > 0 {
        lemma_entries_model(s.drop_last());
    }
}

impl View for Value {
    type V = Bencode;

    open spec fn view(&self) -> Bencode {
        value_model(*self)
    }
}

impl Dictionary {
    #[verifier::type_invariant]
    spec fn inv(&self) -> bool {
        sorted_keys(entries_model(self.entries@))
    }

    /// The entries' model, in order.
    pub closed spec fn model(self) -> Seq<(Seq<u8>, Bencode)>
        decreases self,
    {
        entries_model(self.entries@)
    }

    /// The keys stand in strictly ascending byte order.
    pub open spec fn wf(self) -> bool {
        sorted_keys(self.model())
    }

    /// An empty dictionary.
    pub fn new() -> (r: Dictionary)
        ensures
            r.model() == Seq::<(Seq<u8>, Bencode)>::empty(),
            r.wf(),
    {
        Dictionary { entries: Vec::new() }
    }

    /// The number of entries.
    pub fn len(&self) -> (r: usize)
        ensures
            r == self.model().len(),
    {
        proof {
            lemma_entries_model(self.entries@);
        }
        self.entries.len()
    }

    /// The entry at position `i` in key order.
    pub fn entry(&self, i: usize) -> (r: (&ByteString, &Value))
        requires
            i < self.model().len(),
        ensures
            (r.0@, r.1@) == self.model()[i as int],
    {
        proof {
            lemma_entries_model(self.entries@);
        }
        let e = &self.entries[i];
        (&e.0, &e.1)
    }

    /// Takes the entries out, leaving the dictionary empty.
    fn take_entries(&mut self) -> (r: Vec<(ByteString, Value)>)
        ensures
            entries_model(r@) == old(self).model(),
            sorted_keys(entries_model(r@)),
            final(self).model() == Seq::<(Seq<u8>, Bencode)>::empty(),
    {
        proof {
            use_type_invariant(&*self);
        }
        let mut taken = Dictionary::new();
        core::mem::swap(self, &mut taken);
        proof {
            use_type_invariant(&taken);
        }
        let Dictionary { entries } = taken;
        entries
    }

    /// Appends an entry whose key is greater than every key held.
    pub(crate) fn push_last(&mut self, key: ByteString, value: Value)
        requires
            old(self).model().len() > 0 ==> bytes_lt(old(self).model().last().0, key@),
        ensures
            final(self).model() == old(self).model().push((key@, value@)),
            final(self).wf(),
    {
        let mut entries = self.take_entries();
        let ghost old_entries = entries@;
        proof {
            lemma_entries_model(old_entries);
        }
        entries.push((key, value));
        proof {
            assert(entries@.drop_last() =~= old_entries);
            lemma_entries_model(entries@);
            let m = entries_model(entries@);
            assert forall|j: int| 0 <= j < m.len() - 1 implies #[trigger] bytes_lt(m[j].0, m[j + 1].0) by {
                if j < m.len() - 2 {
                    assert(m[j] == entries_model(old_entries)[j]);
                    assert(m[j + 1] == entries_model(old_entries)[j + 1]);
                    assert(bytes_lt(entries_model(old_entries)[j].0, entries_model(old_entries)[j + 1].0));
                }
            }
        }
        *self = Dictionary { entries };
    }

    /// Puts `value` under `key`, in key order; an entry with the same key is
    /// replaced, and its value returned.
    pub fn insert(&mut self, key: ByteString, value: Value) -> (r: Option<Value>)
        ensures
            final(self).wf(),
            final(self).model() == insert_entry(old(self).model(), key@, value@),
            r is Some <==> exists|i: int|
                0 <= i < old(self).model().len() && #[trigger] old(self).model()[i].0 == key@,
    {
        let mut entries = self.take_entries();
        let ghost es = entries_model(entries@);
        let ghost k = key@;
        let ghost vm = value@;
        proof {
            lemma_entries_model(entries@);
        }
        let mut i: usize = 0;
        while i < entries.len()
            invariant
                i <= entries@.len(),
                es == old(self).model(),
                sorted_keys(es),
                es == entries_model(entries@),
                es.len() == entries@.len(),
                k == key@,
                vm == value@,
                forall|j: int|
                    0 <= j < entries@.len() ==> #[trigger] es[j] == (
                        entries@[j].0@,
                        value_model(entries@[j].1),
                    ),
                forall|j: int| 0 <= j < i ==> #[trigger] bytes_lt(es[j].0, k),
            decreases entries.len() - i,
        {
            let c = entries[i].0.compare(&key);
            proof {
                assert(es[i as int].0 == entries@[i as int].0@);
                lemma_bytes_cmp_flip(es[i as int].0, k);
                lemma_bytes_cmp_flip(k, es[i as int].0);
            }
            match c {
                Ordering::Less => {
                    i = i + 1;
                },
                Ordering::Equal => {
                    let (_, old_value) = entries.remove(i);
                    entries.insert(i, (key, value));
                    proof {
                        let ne = entries@;
                        lemma_entries_model(ne);
                        assert(entries_model(ne) =~= es.update(i as int, (k, vm)));
                        lemma_insert_replaces(es, i as int, k, vm);
                    }
                    *self = Dictionary { entries };
                    return Some(old_value);
                },
                Ordering::Greater => {
                    entries.insert(i, (key, value));
                    proof {
                        let ne = entries@;
                        lemma_entries_model(ne);
                        assert(entries_model(ne) =~= es.insert(i as int, (k, vm)));
                        lemma_insert_adds(es, i as int, k, vm);
                    }
                    *self = Dictionary { entries };
                    return None;
                },
            }
        }
        entries.push((key, value));
        proof {
            let ne = entries@;
            lemma_entries_model(ne);
            assert(entries_model(ne) =~= es.insert(i as int, (k, vm)));
            lemma_insert_adds(es, i as int, k, vm);
        }
        *self = Dictionary { entries };
        None
    }

    /// The value stored under `key`, if any.
    pub fn get(&self, key: &[u8]) -> (r: Option<&Value>)
        ensures
            r is Some <==> exists|i: int|
                0 <= i < self.model().len() && #[trigger] self.model()[i].0 == key@,
            r is Some ==> exists|i: int|
                0 <= i < self.model().len() && #[trigger] self.model()[i] == (key@, r->0@),
    {
        proof {
            lemma_entries_model(self.entries@);
        }
        let mut i: usize = 0;
        while i < self.entries.len()
            invariant
                i <= self.entries@.len(),
                entries_model(self.entries@).len() == self.entries@.len(),
                forall|j: int| 0 <= j < i ==> #[trigger] self.model()[j].0 != key@,
                forall|j: int|
                    0 <= j < self.entries@.len() ==> #[trigger] entries_model(self.entries@)[j] == (
                    self.entries@[j].0@,
                    value_model(self.entries@[j].1),
                ),
            decreases self.entries.len() - i,
        {
            let e = &self.entries[i];
            assert(self.model()[i as int] == (e.0@, e.1@));
            if let Ordering::Equal = crate::byte_string::compare_bytes(e.0.as_slice(), key) {
                proof {
                    lemma_bytes_cmp_flip(e.0@, key@);
                    assert(self.model()[i as int] == (key@, e.1@));
                    assert(self.model()[i as int].0 == key@);
                }
                return Some(&e.1);
            }
            proof {
                lemma_bytes_cmp_flip(e.0@, key@);
            }
            i = i + 1;
        }
        None
    }
}

impl Value {
    /// Appends the encoding of this value to `out`.
    pub fn encode_into(&self, out: &mut Vec<u8>)
        ensures
            final(out)@ == old(out)@ + encode(self@),
        decreases self,
    {
        let ghost start = out@;
        match self {
            Value::ByteString(b) => write_byte_string(out, b.as_slice()),
            Value::Integer(n) => write_integer(out, n),
            Value::List(items) => {
                let ghost m = list_model(items@);
                proof {
                    lemma_list_model(items@);
                }
                out.push(108);
                let mut i: usize = 0;
                assert(m.take(0) =~= Seq::<Bencode>::empty());
                while i < items.len()
                    invariant
                        i <= items@.len(),
                        *self == Value::List(*items),
                        m == list_model(items@),
                        m.len() == items@.len(),
                        forall|j: int| 0 <= j < items@.len() ==> #[trigger] m[j] == value_model(items@[j]),
                        out@ == start + seq![108u8] + encode_list(m.take(i as int)),
                    decreases items.len() - i,
                {
                    proof {
                        lemma_encode_list_step(m, i as int);
                        assert(decreases_to!(*self => self->List_0));
                        assert(decreases_to!(*items => items@));
                        assert(decreases_to!(items@ => items@[i as int]));
                    }
                    items[i].encode_into(out);
                    i = i + 1;
                    assert(out@ =~= start + seq![108u8] + encode_list(m.take(i as int)));
                }
                out.push(101);
                assert(m.take(i as int) =~= m);
                assert(out@ =~= start + encode(self@));
            },
            Value::Dictionary(d) => {
                let ghost m = d.model();
                proof {
                    lemma_entries_model(d.entries@);
                }
                out.push(100);
                let mut i: usize = 0;
                assert(m.take(0) =~= Seq::<(Seq<u8>, Bencode)>::empty());
                while i < d.entries.len()
                    invariant
                        i <= d.entries@.len(),
                        *self == Value::Dictionary(*d),
                        m == entries_model(d.entries@),
                        m.len() == d.entries@.len(),
                        forall|j: int|
                            0 <= j < d.entries@.len() ==> #[trigger] m[j] == (
                                d.entries@[j].0@,
                                value_model(d.entries@[j].1),
                            ),
                        out@ == start + seq![100u8] + encode_entries(m.take(i as int)),
                    decreases d.entries.len() - i,
                {
                    proof {
                        lemma_encode_entries_step(m, i as int);
                        let e = d.entries@[i as int];
                        assert(decreases_to!(*self => self->Dictionary_0));
                        assert(decreases_to!(*d => d.entries));
                        assert(decreases_to!(d.entries => d.entries@));
                        assert(decreases_to!(d.entries@ => e));
                        assert(decreases_to!(e => e.1));
                    }
                    let entry = &d.entries[i];
                    write_byte_string(out, entry.0.as_slice());
                    entry.1.encode_into(out);
                    i = i + 1;
                    assert(out@ =~= start + seq![100u8] + encode_entries(m.take(i as int)));
                }
                out.push(101);
                assert(m.take(i as int) =~= m);
                assert(out@ =~= start + encode(self@));
            },
        }
    }
}

impl Value {
    pub fn is_byte_string(&self) -> (r: bool)
        ensures
            r == (self@ is Bytes),
    {
        matches!(self, Value::ByteString(_))
    }

    pub fn is_integer(&self) -> (r: bool)
        ensures
            r == (self@ is Int),
    {
        matches!(self, Value::Integer(_))
    }

    pub fn is_list(&self) -> (r: bool)
        ensures
            r == (self@ is List),
    {
        matches!(self, Value::List(_))
    }

    pub fn is_dictionary(&self) -> (r: bool)
        ensures
            r == (self@ is Dict),
    {
        matches!(self, Value::Dictionary(_))
    }

    pub fn as_byte_string(&self) -> (r: Option<&ByteString>)
        ensures
            self@ is Bytes <==> r is Some,
            r is Some ==> r->0@ == self@->Bytes_0,
    {
        match self {
            Value::ByteString(b) => Some(b),
            _ => None,
        }
    }

    pub fn as_integer(&self) -> (r: Option<&Integer>)
        ensures
            self@ is Int <==> r is Some,
            r is Some ==> r->0@ == self@->Int_0,
    {
        match self {
            Value::Integer(n) => Some(n),
            _ => None,
        }
    }

    pub fn as_list(&self) -> (r: Option<&Vec<Value>>)
        ensures
            self@ is List <==> r is Some,
            r is Some ==> list_model(r->0@) == self@->List_0,
    {
        match self {
            Value::List(items) => Some(items),
            _ => None,
        }
    }

    pub fn as_dictionary(&self) -> (r: Option<&Dictionary>)
        ensures
            self@ is Dict <==> r is Some,
            r is Some ==> r->0.model() == self@->Dict_0 && r->0.wf(),
    {
        match self {
            Value::Dictionary(d) => {
                proof {
                    use_type_invariant(d);
                }
                Some(d)
            },
            _ => None,
        }
    }
}

impl Value {
    /// The position of this value's kind in the order of values.
    fn kind_rank(&self) -> (r: u8)
        ensures
            r as int == kind_rank(self@),
    {
        match self {
            Value::ByteString(_) => 0,
            Value::Integer(_) => 1,
            Value::List(_) => 2,
            Value::Dictionary(_) => 3,
        }
    }

    /// Compares two values in the total order of values.
    pub fn compare(&self, other: &Value) -> (r: Ordering)
        ensures
            r == value_cmp(self@, other@),
        decreases self,
    {
        match (self, other) {
            (Value::ByteString(x), Value::ByteString(y)) => x.compare(y),
            (Value::Integer(x), Value::Integer(y)) => x.compare(y),
            (Value::List(x), Value::List(y)) => {
                let ghost mx = list_model(x@);
                let ghost my = list_model(y@);
                proof {
                    lemma_list_model(x@);
                    lemma_list_model(y@);
                    assert(mx.skip(0) =~= mx);
                    assert(my.skip(0) =~= my);
                }
                let mut i: usize = 0;
                while i < x.len() && i < y.len()
                    invariant
                        *self == Value::List(*x),
                        *other == Value::List(*y),
                        mx == list_model(x@),
                        my == list_model(y@),
                        mx.len() == x@.len(),
                        my.len() == y@.len(),
                        i <= x@.len(),
                        i <= y@.len(),
                        forall|j: int| 0 <= j < x@.len() ==> #[trigger] mx[j] == value_model(x@[j]),
                        forall|j: int| 0 <= j < y@.len() ==> #[trigger] my[j] == value_model(y@[j]),
                        value_cmp(self@, other@) == list_cmp(mx.skip(i as int), my.skip(i as int)),
                    decreases x.len() - i,
                {
                    proof {
                        assert(decreases_to!(*self => self->List_0));
                        assert(decreases_to!(*x => x@));
                        assert(decreases_to!(x@ => x@[i as int]));
                        assert(mx.skip(i as int)[0] == mx[i as int]);
                        assert(my.skip(i as int)[0] == my[i as int]);
                        assert(mx.skip(i as int).drop_first() =~= mx.skip(i + 1));
                        assert(my.skip(i as int).drop_first() =~= my.skip(i + 1));
                    }
                    match x[i].compare(&y[i]) {
                        Ordering::Equal => {},
                        o => return o,
                    }
                    i = i + 1;
                }
                if i < x.len() {
                    Ordering::Greater
                } else if i < y.len() {
                    Ordering::Less
                } else {
                    Ordering::Equal
                }
            },
            (Value::Dictionary(x), Value::Dictionary(y)) => {
                let ghost mx = x.model();
                let ghost my = y.model();
                proof {
                    lemma_entries_model(x.entries@);
                    lemma_entries_model(y.entries@);
                    assert(mx.skip(0) =~= mx);
                    assert(my.skip(0) =~= my);
                }
                let mut i: usize = 0;
                while i < x.entries.len() && i < y.entries.len()
                    invariant
                        *self == Value::Dictionary(*x),
                        *other == Value::Dictionary(*y),
                        mx == entries_model(x.entries@),
                        my == entries_model(y.entries@),
                        mx.len() == x.entries@.len(),
                        my.len() == y.entries@.len(),
                        i <= x.entries@.len(),
                        i <= y.entries@.len(),
                        forall|j: int|
                            0 <= j < x.entries@.len() ==> #[trigger] mx[j] == (
                                x.entries@[j].0@,
                                value_model(x.entries@[j].1),
                            ),
                        forall|j: int|
                            0 <= j < y.entries@.len() ==> #[trigger] my[j] == (
                                y.entries@[j].0@,
                                value_model(y.entries@[j].1),
                            ),
                        value_cmp(self@, other@) == entries_cmp(mx.skip(i as int), my.skip(i as int)),
                    decreases x.entries.len() - i,
                {
                    proof {
                        let e = x.entries@[i as int];
                        assert(decreases_to!(*self => self->Dictionary_0));
                        assert(decreases_to!(*x => x.entries));
                        assert(decreases_to!(x.entries => x.entries@));
                        assert(decreases_to!(x.entries@ => e));
                        assert(decreases_to!(e => e.1));
                        assert(mx.skip(i as int)[0] == mx[i as int]);
                        assert(my.skip(i as int)[0] == my[i as int]);
                        assert(mx.skip(i as int).drop_first() =~= mx.skip(i + 1));
                        assert(my.skip(i as int).drop_first() =~= my.skip(i + 1));
                    }
                    let ex = &x.entries[i];
                    let ey = &y.entries[i];
                    match ex.0.compare(&ey.0) {
                        Ordering::Equal => {},
                        o => return o,
                    }
                    match ex.1.compare(&ey.1) {
                        Ordering::Equal => {},
                        o => return o,
                    }
                    i = i + 1;
                }
                if i < x.entries.len() {
                    Ordering::Greater
                } else if i < y.entries.len() {
                    Ordering::Less
                } else {
                    Ordering::Equal
                }
            },
            _ => {
                let a = self.kind_rank();
                let b = other.kind_rank();
                if a < b {
                    Ordering::Less
                } else if a > b {
                    Ordering::Greater
                } else {
                    Ordering::Equal
                }
            },
        }
    }
}

/// Two values compare equal exactly when their models are equal.
pub proof fn lemma_value_cmp_equal(a: Bencode, b: Bencode)
    ensures
        value_cmp(a, b) == Ordering::Equal <==> a == b,
    decreases a,
{
    match (a, b) {
        (Bencode::Bytes(x), Bencode::Bytes(y)) => lemma_bytes_cmp_flip(x, y),
        (Bencode::Int(x), Bencode::Int(y)) => {},
        (Bencode::List(x), Bencode::List(y)) => lemma_list_cmp_equal(x, y),
        (Bencode::Dict(x), Bencode::Dict(y)) => lemma_entries_cmp_equal(x, y),
        _ => {},
    }
}

/// Two lists compare equal exactly when they are equal.
pub proof fn lemma_list_cmp_equal(x: Seq<Bencode>, y: Seq<Bencode>)
    ensures
        list_cmp(x, y) == Ordering::Equal <==> x == y,
    decreases x,
{
    if x.len() > 0 && y.len() > 0 {
        lemma_value_cmp_equal(x[0], y[0]);
        lemma_list_cmp_equal(x.drop_first(), y.drop_first());
        if x[0] == y[0] && x.drop_first() == y.drop_first() {
            assert(x =~= seq![x[0]] + x.drop_first());
            assert(y =~= seq![y[0]] + y.drop_first());
        }
        if x == y {
            assert(x.drop_first() =~= y.drop_first());
        }
    } else if x.len() == 0 && y.len() == 0 {
        assert(x =~= y);
    } else {
        assert(x.len() != y.len());
    }
}

/// Two dictionaries compare equal exactly when they are equal.
pub proof fn lemma_entries_cmp_equal(x: Seq<(Seq<u8>, Bencode)>, y: Seq<(Seq<u8>, Bencode)>)
    ensures
        entries_cmp(x, y) == Ordering::Equal <==> x == y,
    decreases x,
{
    if x.len() > 0 && y.len() > 0 {
        lemma_bytes_cmp_flip(x[0].0, y[0].0);
        lemma_value_cmp_equal(x[0].1, y[0].1);
        lemma_entries_cmp_equal(x.drop_first(), y.drop_first());
        if x[0] == y[0] && x.drop_first() == y.drop_first() {
            assert(x =~= seq![x[0]] + x.drop_first());
            assert(y =~= seq![y[0]] + y.drop_first());
        }
        if x == y {
            assert(x.drop_first() =~= y.drop_first());
        }
    } else if x.len() == 0 && y.len() == 0 {
        assert(x =~= y);
    } else {
        assert(x.len() != y.len());
    }
}

/// Swapping two values swaps `Less` and `Greater`: the order is
/// antisymmetric.
pub proof fn lemma_value_cmp_flip(a: Bencode, b: Bencode)
    ensures
        value_cmp(a, b) == Ordering::Less <==> value_cmp(b, a) == Ordering::Greater,
        value_cmp(a, b) == Ordering::Greater <==> value_cmp(b, a) == Ordering::Less,
    decreases a,
{
    match (a, b) {
        (Bencode::Bytes(x), Bencode::Bytes(y)) => {
            lemma_bytes_cmp_flip(x, y);
            lemma_bytes_cmp_flip(y, x);
        },
        (Bencode::Int(x), Bencode::Int(y)) => {},
        (Bencode::List(x), Bencode::List(y)) => lemma_list_cmp_flip(x, y),
        (Bencode::Dict(x), Bencode::Dict(y)) => lemma_entries_cmp_flip(x, y),
        _ => {},
    }
}

proof fn lemma_list_cmp_flip(x: Seq<Bencode>, y: Seq<Bencode>)
    ensures
        list_cmp(x, y) == Ordering::Less <==> list_cmp(y, x) == Ordering::Greater,
        list_cmp(x, y) == Ordering::Greater <==> list_cmp(y, x) == Ordering::Less,
    decreases x,
{
    if x.len() > 0 && y.len() > 0 {
        lemma_value_cmp_flip(x[0], y[0]);
        lemma_value_cmp_equal(x[0], y[0]);
        lemma_value_cmp_equal(y[0], x[0]);
        lemma_list_cmp_flip(x.drop_first(), y.drop_first());
    }
}

proof fn lemma_entries_cmp_flip(x: Seq<(Seq<u8>, Bencode)>, y: Seq<(Seq<u8>, Bencode)>)
    ensures
        entries_cmp(x, y) == Ordering::Less <==> entries_cmp(y, x) == Ordering::Greater,
        entries_cmp(x, y) == Ordering::Greater <==> entries_cmp(y, x) == Ordering::Less,
    decreases x,
{
    if x.len() > 0 && y.len() > 0 {
        lemma_bytes_cmp_flip(x[0].0, y[0].0);
        lemma_bytes_cmp_flip(y[0].0, x[0].0);
        lemma_value_cmp_flip(x[0].1, y[0].1);
        lemma_value_cmp_equal(x[0].1, y[0].1);
        lemma_value_cmp_equal(y[0].1, x[0].1);
        lemma_entries_cmp_flip(x.drop_first(), y.drop_first());
    }
}

/// The order of values is transitive.
pub proof fn lemma_value_cmp_transitive(a: Bencode, b: Bencode, c: Bencode)
    requires
        value_cmp(a, b) == Ordering::Less,
        value_cmp(b, c) == Ordering::Less,
    ensures
        value_cmp(a, c) == Ordering::Less,
    decreases a,
{
    match (a, b, c) {
        (Bencode::Bytes(x), Bencode::Bytes(y), Bencode::Bytes(z)) => {
            lemma_bytes_lt_transitive(x, y, z);
        },
        (Bencode::List(x), Bencode::List(y), Bencode::List(z)) => {
            lemma_list_cmp_transitive(x, y, z);
        },
        (Bencode::Dict(x), Bencode::Dict(y), Bencode::Dict(z)) => {
            lemma_entries_cmp_transitive(x, y, z);
        },
        _ => {},
    }
}

proof fn lemma_list_cmp_transitive(x: Seq<Bencode>, y: Seq<Bencode>, z: Seq<Bencode>)
    requires
        list_cmp(x, y) == Ordering::Less,
        list_cmp(y, z) == Ordering::Less,
    ensures
        list_cmp(x, z) == Ordering::Less,
    decreases x,
{
    if x.len() > 0 && y.len() > 0 && z.len() > 0 {
        lemma_value_cmp_equal(x[0], y[0]);
        lemma_value_cmp_equal(y[0], z[0]);
        lemma_value_cmp_equal(x[0], z[0]);
        if value_cmp(x[0], y[0]) == Ordering::Less && value_cmp(y[0], z[0]) == Ordering::Less {
            lemma_value_cmp_transitive(x[0], y[0], z[0]);
        } else if value_cmp(x[0], y[0]) == Ordering::Equal && value_cmp(y[0], z[0])
            == Ordering::Equal {
            lemma_list_cmp_transitive(x.drop_first(), y.drop_first(), z.drop_first());
        }
    }
}

proof fn lemma_entries_cmp_transitive(
    x: Seq<(Seq<u8>, Bencode)>,
    y: Seq<(Seq<u8>, Bencode)>,
    z: Seq<(Seq<u8>, Bencode)>,
)
    requires
        entries_cmp(x, y) == Ordering::Less,
        entries_cmp(y, z) == Ordering::Less,
    ensures
        entries_cmp(x, z) == Ordering::Less,
    decreases x,
{
    if x.len() > 0 && y.len() > 0 && z.len() > 0 {
        lemma_bytes_cmp_flip(x[0].0, y[0].0);
        lemma_bytes_cmp_flip(y[0].0, z[0].0);
        lemma_bytes_cmp_flip(x[0].0, z[0].0);
        lemma_value_cmp_equal(x[0].1, y[0].1);
        lemma_value_cmp_equal(y[0].1, z[0].1);
        lemma_value_cmp_equal(x[0].1, z[0].1);
        if bytes_lt(x[0].0, y[0].0) && bytes_lt(y[0].0, z[0].0) {
            lemma_bytes_lt_transitive(x[0].0, y[0].0, z[0].0);
        } else if x[0].0 == y[0].0 && y[0].0 == z[0].0 {
            if value_cmp(x[0].1, y[0].1) == Ordering::Less && value_cmp(y[0].1, z[0].1)
                == Ordering::Less {
                lemma_value_cmp_transitive(x[0].1, y[0].1, z[0].1);
            } else if value_cmp(x[0].1, y[0].1) == Ordering::Equal && value_cmp(y[0].1, z[0].1)
                == Ordering::Equal {
                lemma_entries_cmp_transitive(x.drop_first(), y.drop_first(), z.drop_first());
            }
        }
    }
}

impl PartialEq for Value {
    fn eq(&self, other: &Value) -> (r: bool) {
        proof {
            lemma_value_cmp_equal(self@, other@);
        }
        match self.compare(other) {
            Ordering::Equal => true,
            _ => false,
        }
    }
}

impl vstd::std_specs::cmp::PartialEqSpecImpl for Value {
    open spec fn obeys_eq_spec() -> bool {
        true
    }

    open spec fn eq_spec(&self, other: &Value) -> bool {
        self@ == other@
    }
}

impl Eq for Value {
}

impl PartialOrd for Value {
    fn partial_cmp(&self, other: &Value) -> (r: Option<Ordering>) {
        Some(self.compare(other))
    }
}

impl vstd::std_specs::cmp::PartialOrdSpecImpl for Value {
    open spec fn obeys_partial_cmp_spec() -> bool {
        true
    }

    open spec fn partial_cmp_spec(&self, other: &Value) -> Option<Ordering> {
        Some(value_cmp(self@, other@))
    }
}

} // verus!
