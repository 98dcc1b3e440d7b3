//! A map from text keys to values that keeps its entries in the order in which their keys
//! first came.
use vstd::prelude::*;

verus! {

/// The index of the first entry under `key`, if there is one.
pub open spec fn find_key<V>(entries: Seq<(Seq<char>, V)>, key: Seq<char>) -> Option<int>
    decreases entries.len(),
{
    if entries.len() == 0 {
        None
    } else {
        match find_key(entries.drop_last(), key) {
            Some(i) => Some(i),
            None => if entries.last().0 == key {
                Some(entries.len() - 1)
            } else {
                None
            },
        }
    }
}

/// The value of the first entry under `key`, if there is one.
pub open spec fn lookup<V>(entries: Seq<(Seq<char>, V)>, key: Seq<char>) -> Option<V> {
    match find_key(entries, key) {
        Some(i) => Some(entries[i].1),
        None => None,
    }
}

/// The entries with `value` under `key`: in the place of the entry that was under `key`
/// before, or at the end if there was none.
pub open spec fn upsert<V>(entries: Seq<(Seq<char>, V)>, key: Seq<char>, value: V) -> Seq<
    (Seq<char>, V),
> {
    match find_key(entries, key) {
        Some(i) => entries.update(i, (key, value)),
        None => entries.push((key, value)),
    }
}

/// No two entries have the same key.
pub open spec fn distinct_keys<V>(entries: Seq<(Seq<char>, V)>) -> bool {
    forall|i: int, j: int|
        0 <= i < j < entries.len() ==> (#[trigger] entries[i]).0 != (#[trigger] entries[j]).0
}

/// `find_key` gives the least index whose entry has the key, and nothing exactly when no entry
/// has it.
pub proof fn lemma_find_key<V>(entries: Seq<(Seq<char>, V)>, key: Seq<char>)
    ensures
        match find_key(entries, key) {
            Some(i) => {
                &&& 0 <= i < entries.len()
                &&& entries[i].0 == key
                &&& forall|j: int| 0 <= j < i ==> (#[trigger] entries[j]).0 != key
            },
            None => forall|j: int| 0 <= j < entries.len() ==> (#[trigger] entries[j]).0 != key,
        },
    decreases entries.len(),
{
    if entries.len() > 0 {
        lemma_find_key(entries.drop_last(), key);
        match find_key(entries.drop_last(), key) {
            Some(i) => {
                assert(entries.drop_last()[i] == entries[i]);
                assert forall|j: int| 0 <= j < i implies (#[trigger] entries[j]).0 != key by {
                    assert(entries.drop_last()[j] == entries[j]);
                }
            },
            None => {
                assert forall|j: int| 0 <= j < entries.len() - 1 implies (#[trigger] entries[j]).0
                    != key by {
                    assert(entries.drop_last()[j] == entries[j]);
                }
            },
        }
    }
}

/// An index is the one that `find_key` gives if its entry has the key and none before it has.
pub proof fn lemma_find_key_is<V>(entries: Seq<(Seq<char>, V)>, key: Seq<char>, i: int)
    requires
        0 <= i < entries.len(),
        entries[i].0 == key,
        forall|j: int| 0 <= j < i ==> (#[trigger] entries[j]).0 != key,
    ensures
        find_key(entries, key) == Some(i),
{
    lemma_find_key(entries, key);
}

/// After `upsert`, the key leads to the new value, and every other key to what it led to
/// before.
pub proof fn lemma_lookup_upsert<V>(
    entries: Seq<(Seq<char>, V)>,
    key: Seq<char>,
    value: V,
    other: Seq<char>,
)
    ensures
        lookup(upsert(entries, key, value), other) == if other == key {
            Some(value)
        } else {
            lookup(entries, other)
        },
{
    let after = upsert(entries, key, value);
    lemma_find_key(entries, key);
    lemma_find_key(entries, other);
    match find_key(entries, key) {
        Some(i) => {
            if other == key {
                assert forall|j: int| 0 <= j < i implies (#[trigger] after[j]).0 != key by {
                    assert(after[j] == entries[j]);
                }
                lemma_find_key_is(after, key, i);
            } else {
                match find_key(entries, other) {
                    Some(k) => {
                        assert forall|j: int| 0 <= j < k implies (#[trigger] after[j]).0
                            != other by {
                            if j != i {
                                assert(after[j] == entries[j]);
                            }
                        }
                        lemma_find_key_is(after, other, k);
                    },
                    None => {
                        lemma_find_key(after, other);
                        if find_key(after, other) is Some {
                            let k = find_key(after, other).unwrap();
                            assert(entries[k].0 != other);
                        }
                    },
                }
            }
        },
        None => {
            if other == key {
                assert forall|j: int| 0 <= j < entries.len() implies (#[trigger] after[j]).0
                    != key by {
                    assert(after[j] == entries[j]);
                }
                lemma_find_key_is(after, key, entries.len() as int);
            } else {
                match find_key(entries, other) {
                    Some(k) => {
                        assert forall|j: int| 0 <= j < k implies (#[trigger] after[j]).0
                            != other by {
                            assert(after[j] == entries[j]);
                        }
                        lemma_find_key_is(after, other, k);
                    },
                    None => {
                        lemma_find_key(after, other);
                        if find_key(after, other) is Some {
                            let k = find_key(after, other).unwrap();
                            if k < entries.len() {
                                assert(entries[k].0 != other);
                            }
                        }
                    },
                }
            }
        },
    }
}

/// `upsert` never makes two entries share a key.
pub proof fn lemma_upsert_distinct<V>(entries: Seq<(Seq<char>, V)>, key: Seq<char>, value: V)
    requires
        distinct_keys(entries),
    ensures
        distinct_keys(upsert(entries, key, value)),
{
    let after = upsert(entries, key, value);
    lemma_find_key(entries, key);
    assert forall|i: int, j: int| 0 <= i < j < after.len() implies (#[trigger] after[i]).0 != (
    #[trigger] after[j]).0 by {
        match find_key(entries, key) {
            Some(k) => {
                if i != k && j != k {
                    assert(entries[i].0 != entries[j].0);
                } else if i == k {
                    assert(entries[i].0 != entries[j].0);
                } else {
                    assert(entries[i].0 != entries[j].0);
                }
            },
            None => {
                if j < entries.len() {
                    assert(entries[i].0 != entries[j].0);
                } else {
                    assert(entries[i].0 != key);
                }
            },
        }
    }
}

/// A map from text keys to values. Its entries stand in the order in which their keys were
/// first inserted; lookups go by the key alone.
#[derive(Debug)]
pub struct OrderedMap<V> {
    /// The entries, in insertion order.
    pub entries: Vec<(String, V)>,
}

impl<V> View for OrderedMap<V> {
    type V = Seq<(Seq<char>, V)>;

    /// The entries, each key as the text it holds.
    open spec fn view(&self) -> Seq<(Seq<char>, V)> {
        Seq::new(self.entries@.len(), |i: int| (self.entries@[i].0@, self.entries@[i].1))
    }
}

impl<V: Clone> Clone for OrderedMap<V> {
    /// A copy with the same keys in the same order, each with a copy of its value.
    fn clone(&self) -> (r: Self)
        ensures
            r@.len() == self@.len(),
            forall|i: int|
                0 <= i < self@.len() ==> (#[trigger] r@[i]).0 == self@[i].0 && cloned(
                    self@[i].1,
                    r@[i].1,
                ),
    {
        let mut copies: Vec<(String, V)> = Vec::new();
        let mut i: usize = 0;
        while i < self.entries.len()
            invariant
                i <= self.entries.len(),
                copies@.len() == i,
                forall|j: int|
                    0 <= j < i ==> (#[trigger] copies@[j]).0@ == self.entries@[j].0@ && cloned(
                        self.entries@[j].1,
                        copies@[j].1,
                    ),
            decreases self.entries.len() - i,
        {
            copies.push((self.entries[i].0.clone(), self.entries[i].1.clone()));
            i += 1;
        }
        OrderedMap { entries: copies }
    }
}

impl<V> OrderedMap<V> {
    /// A map without entries.
    pub fn new() -> (r: Self)
        ensures
            r@ == Seq::<(Seq<char>, V)>::empty(),
            r.entries@ == Seq::<(String, V)>::empty(),
    {
        let r = OrderedMap { entries: Vec::new() };
        assert(r@ =~= Seq::<(Seq<char>, V)>::empty());
        r
    }

    /// The number of entries.
    pub fn len(&self) -> (r: usize)
        ensures
            r == self@.len(),
    {
        self.entries.len()
    }

    /// Tells whether the map has no entry.
    pub fn is_empty(&self) -> (r: bool)
        ensures
            r == (self@.len() == 0),
    {
        self.entries.len() == 0
    }

    /// The index of the entry under `key`.
    pub fn position(&self, key: &str) -> (r: Option<usize>)
        ensures
            match r {
                Some(i) => find_key(self@, key@) == Some(i as int),
                None => find_key(self@, key@) is None,
            },
    {
        let mut i: usize = 0;
        while i < self.entries.len()
            invariant
                i <= self.entries.len(),
                forall|j: int| 0 <= j < i ==> (#[trigger] self@[j]).0 != key@,
            decreases self.entries.len() - i,
        {
            if self.entries[i].0.as_str().eq(key) {
                proof {
                    lemma_find_key_is(self@, key@, i as int);
                }
                return Some(i);
            }
            i += 1;
        }
        proof {
            lemma_find_key(self@, key@);
        }
        None
    }

    /// Tells whether there is an entry under `key`.
    pub fn contains_key(&self, key: &str) -> (r: bool)
        ensures
            r == lookup(self@, key@).is_some(),
    {
        self.position(key).is_some()
    }

    /// The value under `key`.
    pub fn get(&self, key: &str) -> (r: Option<&V>)
        ensures
            match r {
                Some(v) => lookup(self@, key@) == Some(*v),
                None => lookup(self@, key@) is None,
            },
    {
        proof {
            lemma_find_key(self@, key@);
        }
        match self.position(key) {
            Some(i) => Some(&self.entries[i].1),
            None => None,
        }
    }

    /// Puts `value` under `key`. An entry that was under `key` keeps its place and takes the new
    /// value; a new key goes to the end.
    pub fn insert(&mut self, key: String, value: V)
        ensures
            final(self)@ == upsert(old(self)@, key@, value),
            distinct_keys(old(self)@) ==> distinct_keys(final(self)@),
    {
        proof {
            lemma_find_key(self@, key@);
            if distinct_keys(self@) {
                lemma_upsert_distinct(self@, key@, value);
            }
        }
        match self.position(key.as_str()) {
            Some(i) => {
                self.entries.set(i, (key, value));
            },
            None => {
                self.entries.push((key, value));
            },
        }
        assert(self@ =~= upsert(old(self)@, key@, value));
    }
}

} // verus!
