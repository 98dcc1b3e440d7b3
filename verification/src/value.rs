//! The values of a configuration, and the mathematical model that the contracts speak of.
use crate::number::is_float_literal;
use crate::ordered_map::{
    distinct_keys, find_key, lemma_find_key, lemma_find_key_is, lookup, upsert, OrderedMap,
};
use vstd::prelude::*;
use vstd::std_specs::cmp::PartialEqSpecImpl;

verus! {

/// A value of a configuration.
#[derive(Debug)]
pub enum Value {
    /// A text, without the quotes it was written in.
    String(String),
    /// A 64-bit signed integer.
    Integer(i64),
    /// A floating-point number, kept as the literal that spelled it. The number is the one that
    /// the standard library reads from that literal.
    Float(String),
    /// `True` or `False`.
    Boolean(bool),
    /// `Null`.
    Null,
    /// A sequence of values.
    Array(Vec<Value>),
    /// Values under text keys.
    Object(OrderedMap<Value>),
}

/// What a `Value` stands for.
pub enum Datum {
    /// A text.
    Text(Seq<char>),
    /// An integer.
    Integer(int),
    /// A floating-point number, as the literal that spelled it.
    Float(Seq<char>),
    /// A truth value.
    Boolean(bool),
    /// Nothing.
    Null,
    /// A sequence of values.
    Array(Seq<Datum>),
    /// Keys and their values, in the order in which the keys first came.
    Object(Entries),
}

/// The entries of an object or a section: keys with their values, in the order in which the
/// keys first came.
pub type Entries = Seq<(Seq<char>, Datum)>;

/// What each of the values stands for.
pub open spec fn values_view(values: Seq<Value>) -> Seq<Datum>
    decreases values,
{
    Seq::new(
        values.len(),
        |i: int|
            if 0 <= i < values.len() {
                values[i].view()
            } else {
                Datum::Null
            },
    )
}

/// The texts of the keys and what each of the values stands for.
pub open spec fn entries_view(entries: Seq<(String, Value)>) -> Entries
    decreases entries,
{
    Seq::new(
        entries.len(),
        |i: int|
            if 0 <= i < entries.len() {
                (entries[i].0@, entries[i].1.view())
            } else {
                (Seq::empty(), Datum::Null)
            },
    )
}

impl Value {
    /// What the value stands for.
    pub open spec fn view(&self) -> Datum
        decreases self,
    {
        match self {
            Value::String(s) => Datum::Text(s@),
            Value::Integer(i) => Datum::Integer(*i as int),
            Value::Float(s) => Datum::Float(s@),
            Value::Boolean(b) => Datum::Boolean(*b),
            Value::Null => Datum::Null,
            Value::Array(items) => Datum::Array(values_view(items@)),
            Value::Object(map) => Datum::Object(entries_view(map.entries@)),
        }
    }
}

impl Clone for Value {
    /// A copy that stands for the same value.
    fn clone(&self) -> (r: Self)
        ensures
            r@ == self@,
        decreases self,
    {
        match self {
            Value::String(text) => Value::String(text.clone()),
            Value::Integer(number) => Value::Integer(*number),
            Value::Float(text) => Value::Float(text.clone()),
            Value::Boolean(truth) => Value::Boolean(*truth),
            Value::Null => Value::Null,
            Value::Array(items) => {
                let mut copies: Vec<Value> = Vec::new();
                let mut i: usize = 0;
                while i < items.len()
                    invariant
                        i <= items.len(),
                        copies@.len() == i,
                        self == Value::Array(*items),
                        forall|j: int| 0 <= j < i ==> (#[trigger] copies@[j])@ == items@[j]@,
                    decreases items.len() - i,
                {
                    assert(decreases_to!(self => items@[i as int])) by {
                        assert(decreases_to!(self => self->Array_0));
                        assert(decreases_to!(items => items@));
                        assert(decreases_to!(items@ => items@[i as int]));
                    }
                    copies.push(items[i].clone());
                    i += 1;
                }
                assert(values_view(copies@) =~= values_view(items@));
                Value::Array(copies)
            },
            Value::Object(map) => {
                let mut copies: Vec<(String, Value)> = Vec::new();
                let mut i: usize = 0;
                while i < map.entries.len()
                    invariant
                        i <= map.entries.len(),
                        copies@.len() == i,
                        self == Value::Object(*map),
                        forall|j: int|
                            0 <= j < i ==> (#[trigger] copies@[j]).0@ == map.entries@[j].0@
                                && copies@[j].1@ == map.entries@[j].1@,
                    decreases map.entries.len() - i,
                {
                    assert(decreases_to!(self => map.entries@[i as int].1)) by {
                        assert(decreases_to!(self => self->Object_0));
                        assert(decreases_to!(map => map.entries));
                        assert(decreases_to!(map.entries => map.entries@));
                        assert(decreases_to!(map.entries@ => map.entries@[i as int]));
                        assert(decreases_to!(map.entries@[i as int] => map.entries@[i as int].1));
                    }
                    copies.push((map.entries[i].0.clone(), map.entries[i].1.clone()));
                    i += 1;
                }
                assert(entries_view(copies@) =~= entries_view(map.entries@));
                Value::Object(OrderedMap { entries: copies })
            },
        }
    }
}

impl Value {
    /// Tells whether two values are the same.
    pub fn equals(&self, other: &Value) -> (r: bool)
        ensures
            r == self@.same(other@),
        decreases self,
    {
        match self {
            Value::String(a) => match other {
                Value::String(b) => *a == *b,
                _ => false,
            },
            Value::Integer(a) => match other {
                Value::Integer(b) => *a == *b,
                _ => false,
            },
            Value::Float(a) => match other {
                Value::Float(b) => *a == *b,
                _ => false,
            },
            Value::Boolean(a) => match other {
                Value::Boolean(b) => *a == *b,
                _ => false,
            },
            Value::Null => match other {
                Value::Null => true,
                _ => false,
            },
            Value::Array(a) => match other {
                Value::Array(b) => {
                    if a.len() != b.len() {
                        return false;
                    }
                    let mut i: usize = 0;
                    while i < a.len()
                        invariant
                            i <= a.len(),
                            a.len() == b.len(),
                            self == Value::Array(*a),
                            other == Value::Array(*b),
                            forall|j: int| 0 <= j < i ==> (#[trigger] a@[j])@.same(b@[j]@),
                        decreases a.len() - i,
                    {
                        assert(decreases_to!(self => a@[i as int])) by {
                            assert(decreases_to!(self => self->Array_0));
                            assert(decreases_to!(a => a@));
                            assert(decreases_to!(a@ => a@[i as int]));
                        }
                        if !a[i].equals(&b[i]) {
                            assert(!values_view(a@)[i as int].same(values_view(b@)[i as int]));
                            return false;
                        }
                        i += 1;
                    }
                    assert forall|j: int| 0 <= j < a.len() implies (#[trigger] values_view(
                        a@,
                    )[j]).same(values_view(b@)[j]) by {
                        assert(a@[j]@.same(b@[j]@));
                    }
                    true
                },
                _ => false,
            },
            Value::Object(a) => match other {
                Value::Object(b) => {
                    let ghost here = entries_view(a.entries@);
                    let ghost there = entries_view(b.entries@);
                    let mut i: usize = 0;
                    while i < a.entries.len()
                        invariant
                            i <= a.entries.len(),
                            self == Value::Object(*a),
                            other == Value::Object(*b),
                            here == entries_view(a.entries@),
                            there == entries_view(b.entries@),
                            forall|j: int|
                                0 <= j < i ==> match lookup(there, (#[trigger] here[j]).0) {
                                    Some(value) => here[j].1.same(value),
                                    None => false,
                                },
                        decreases a.entries.len() - i,
                    {
                        assert(decreases_to!(self => a.entries@[i as int].1)) by {
                            assert(decreases_to!(self => self->Object_0));
                            assert(decreases_to!(a => a.entries));
                            assert(decreases_to!(a.entries => a.entries@));
                            assert(decreases_to!(a.entries@ => a.entries@[i as int]));
                            assert(decreases_to!(a.entries@[i as int] => a.entries@[i as int].1));
                        }
                        proof {
                            lemma_lookup_view(*b, a.entries@[i as int].0@);
                        }
                        let found: bool = match b.get(a.entries[i].0.as_str()) {
                            Some(value) => a.entries[i].1.equals(value),
                            None => false,
                        };
                        if !found {
                            assert(!(match lookup(there, here[i as int].0) {
                                Some(value) => here[i as int].1.same(value),
                                None => false,
                            }));
                            return false;
                        }
                        i += 1;
                    }
                    let mut j: usize = 0;
                    while j < b.entries.len()
                        invariant
                            j <= b.entries.len(),
                            self == Value::Object(*a),
                            other == Value::Object(*b),
                            here == entries_view(a.entries@),
                            there == entries_view(b.entries@),
                            forall|i: int|
                                0 <= i < here.len() ==> match lookup(there, (#[trigger] here[i]).0) {
                                    Some(value) => here[i].1.same(value),
                                    None => false,
                                },
                            forall|k: int|
                                0 <= k < j ==> lookup(here, (#[trigger] there[k]).0) is Some,
                        decreases b.entries.len() - j,
                    {
                        proof {
                            lemma_lookup_view(*a, b.entries@[j as int].0@);
                        }
                        if !a.contains_key(b.entries[j].0.as_str()) {
                            assert(lookup(here, there[j as int].0) is None);
                            return false;
                        }
                        j += 1;
                    }
                    true
                },
                _ => false,
            },
        }
    }
}

impl PartialEq for Value {
    /// `==` on values: see `Datum::same`.
    fn eq(&self, other: &Self) -> (r: bool) {
        self.equals(other)
    }
}

impl PartialEqSpecImpl for Value {
    open spec fn obeys_eq_spec() -> bool {
        true
    }

    open spec fn eq_spec(&self, other: &Self) -> bool {
        self@.same(other@)
    }
}

/// Looking a key up in a map of values and in its model comes to the same.
pub proof fn lemma_lookup_view(map: OrderedMap<Value>, key: Seq<char>)
    ensures
        lookup(entries_view(map.entries@), key) == match lookup(map@, key) {
            Some(value) => Some(value@),
            None => None,
        },
{
    lemma_same_keys(map@, entries_view(map.entries@), key);
    lemma_find_key(map@, key);
}

impl Datum {
    /// The value is one that a configuration can hold: every float is spelled as one, and no
    /// object has two entries under one key, at any depth.
    pub open spec fn well_formed(self) -> bool
        decreases self,
    {
        match self {
            Datum::Float(text) => is_float_literal(text),
            Datum::Array(items) => forall|i: int|
                0 <= i < items.len() ==> (#[trigger] items[i]).well_formed(),
            Datum::Object(entries) => {
                &&& distinct_keys(entries)
                &&& forall|i: int|
                    0 <= i < entries.len() ==> (#[trigger] entries[i]).1.well_formed()
            },
            _ => true,
        }
    }

    /// Two values are the same if they are of one kind and hold the same: texts and floats the
    /// same characters, arrays the same values in the same order, and objects the same keys
    /// with the same values under them, in whatever order the keys stand.
    pub open spec fn same(self, other: Datum) -> bool
        decreases self,
    {
        match (self, other) {
            (Datum::Text(a), Datum::Text(b)) => a == b,
            (Datum::Integer(a), Datum::Integer(b)) => a == b,
            (Datum::Float(a), Datum::Float(b)) => a == b,
            (Datum::Boolean(a), Datum::Boolean(b)) => a == b,
            (Datum::Null, Datum::Null) => true,
            (Datum::Array(a), Datum::Array(b)) => {
                &&& a.len() == b.len()
                &&& forall|i: int| 0 <= i < a.len() ==> (#[trigger] a[i]).same(b[i])
            },
            (Datum::Object(a), Datum::Object(b)) => {
                &&& forall|i: int|
                    0 <= i < a.len() ==> match lookup(b, (#[trigger] a[i]).0) {
                        Some(value) => a[i].1.same(value),
                        None => false,
                    }
                &&& forall|j: int| 0 <= j < b.len() ==> lookup(a, (#[trigger] b[j]).0) is Some
            },
            _ => false,
        }
    }
}

/// In entries with distinct keys, every key leads to the value that stands with it.
pub proof fn lemma_lookup_own<V>(entries: Seq<(Seq<char>, V)>, i: int)
    requires
        distinct_keys(entries),
        0 <= i < entries.len(),
    ensures
        find_key(entries, entries[i].0) == Some(i),
        lookup(entries, entries[i].0) == Some(entries[i].1),
{
    assert forall|j: int| 0 <= j < i implies (#[trigger] entries[j]).0 != entries[i].0 by {
        assert(entries[j].0 != entries[i].0);
    }
    lemma_find_key_is(entries, entries[i].0, i);
}

/// A well-formed value is the same as itself.
pub proof fn lemma_same_reflexive(a: Datum)
    requires
        a.well_formed(),
    ensures
        a.same(a),
    decreases a,
{
    match a {
        Datum::Array(items) => {
            assert forall|i: int| 0 <= i < items.len() implies (#[trigger] items[i]).same(
                items[i],
            ) by {
                lemma_same_reflexive(items[i]);
            }
        },
        Datum::Object(entries) => {
            assert forall|i: int| 0 <= i < entries.len() implies match lookup(
                entries,
                (#[trigger] entries[i]).0,
            ) {
                Some(value) => entries[i].1.same(value),
                None => false,
            } by {
                lemma_lookup_own(entries, i);
                lemma_same_reflexive(entries[i].1);
            }
            assert forall|j: int| 0 <= j < entries.len() implies lookup(
                entries,
                (#[trigger] entries[j]).0,
            ) is Some by {
                lemma_lookup_own(entries, j);
            }
        },
        _ => {},
    }
}

/// Of two well-formed values, the second is the same as the first if the first is the same as
/// the second.
pub proof fn lemma_same_symmetric(a: Datum, b: Datum)
    requires
        a.well_formed(),
        b.well_formed(),
        a.same(b),
    ensures
        b.same(a),
    decreases a,
{
    match (a, b) {
        (Datum::Array(x), Datum::Array(y)) => {
            assert forall|i: int| 0 <= i < y.len() implies (#[trigger] y[i]).same(x[i]) by {
                assert(x[i].same(y[i]));
                lemma_same_symmetric(x[i], y[i]);
            }
        },
        (Datum::Object(x), Datum::Object(y)) => {
            assert forall|j: int| 0 <= j < y.len() implies match lookup(x, (#[trigger] y[j]).0) {
                Some(value) => y[j].1.same(value),
                None => false,
            } by {
                lemma_find_key(x, y[j].0);
                let i = find_key(x, y[j].0).unwrap();
                assert(x[i].0 == y[j].0);
                lemma_lookup_own(y, j);
                assert(x[i].1.same(y[j].1));
                lemma_same_symmetric(x[i].1, y[j].1);
            }
            assert forall|i: int| 0 <= i < x.len() implies lookup(y, (#[trigger] x[i]).0)
                is Some by {
                assert(lookup(y, x[i].0) is Some);
            }
        },
        _ => {},
    }
}

/// A value that is the same as a second, which is the same as a third, is the same as the
/// third.
pub proof fn lemma_same_transitive(a: Datum, b: Datum, c: Datum)
    requires
        a.same(b),
        b.same(c),
    ensures
        a.same(c),
    decreases a,
{
    match (a, b, c) {
        (Datum::Array(x), Datum::Array(y), Datum::Array(z)) => {
            assert forall|i: int| 0 <= i < x.len() implies (#[trigger] x[i]).same(z[i]) by {
                assert(x[i].same(y[i]));
                assert(y[i].same(z[i]));
                lemma_same_transitive(x[i], y[i], z[i]);
            }
        },
        (Datum::Object(x), Datum::Object(y), Datum::Object(z)) => {
            assert forall|i: int| 0 <= i < x.len() implies match lookup(z, (#[trigger] x[i]).0) {
                Some(value) => x[i].1.same(value),
                None => false,
            } by {
                lemma_find_key(y, x[i].0);
                let j = find_key(y, x[i].0).unwrap();
                assert(y[j].0 == x[i].0);
                assert(x[i].1.same(y[j].1));
                assert(lookup(z, y[j].0) is Some);
                let value = lookup(z, y[j].0).unwrap();
                assert(y[j].1.same(value));
                lemma_same_transitive(x[i].1, y[j].1, value);
            }
            assert forall|k: int| 0 <= k < z.len() implies lookup(x, (#[trigger] z[k]).0)
                is Some by {
                assert(lookup(y, z[k].0) is Some);
                lemma_find_key(y, z[k].0);
                let j = find_key(y, z[k].0).unwrap();
                assert(lookup(x, y[j].0) is Some);
            }
        },
        _ => {},
    }
}

/// The model of a map of values follows the map through an insertion.
pub proof fn lemma_entries_view_upsert(
    before: OrderedMap<Value>,
    after: OrderedMap<Value>,
    key: Seq<char>,
    value: Value,
)
    requires
        after@ == upsert(before@, key, value),
    ensures
        entries_view(after.entries@) == upsert(entries_view(before.entries@), key, value@),
{
    lemma_same_keys(before@, entries_view(before.entries@), key);
    lemma_find_key(before@, key);
    assert(entries_view(after.entries@) =~= upsert(entries_view(before.entries@), key, value@))
        by {
        let deep = entries_view(after.entries@);
        let want = upsert(entries_view(before.entries@), key, value@);
        assert(after@.len() == after.entries@.len());
        assert(before@.len() == before.entries@.len());
        assert(deep.len() == want.len());
        assert forall|i: int| 0 <= i < deep.len() implies deep[i] == want[i] by {
            assert(after@[i] == upsert(before@, key, value)[i]);
            if i < before@.len() {
                assert(before@[i] == (before.entries@[i].0@, before.entries@[i].1));
            }
        }
    }
}

/// `find_key` goes by the keys alone.
pub proof fn lemma_same_keys<V, W>(
    a: Seq<(Seq<char>, V)>,
    b: Seq<(Seq<char>, W)>,
    key: Seq<char>,
)
    requires
        a.len() == b.len(),
        forall|i: int| 0 <= i < a.len() ==> (#[trigger] a[i]).0 == b[i].0,
    ensures
        find_key(a, key) == find_key(b, key),
    decreases a.len(),
{
    if a.len() > 0 {
        assert forall|i: int| 0 <= i < a.drop_last().len() implies (#[trigger] a.drop_last()[i]).0
            == b.drop_last()[i].0 by {
            assert(a.drop_last()[i] == a[i]);
        }
        lemma_same_keys(a.drop_last(), b.drop_last(), key);
        assert(a.last().0 == b.last().0) by {
            assert(a[a.len() - 1].0 == b[a.len() - 1].0);
        }
    }
}

} // verus!
