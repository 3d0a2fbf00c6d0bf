//! A map keyed by name, kept as a vector in ascending order of its keys.
//! Walking it is therefore deterministic, and a lookup is a binary search.

use vstd::prelude::*;
use crate::order::{ascending, name_before, str_before, lemma_name_asymmetric, lemma_name_total,
    lemma_name_transitive};

verus! {

/// The map that a sequence of keys and a sequence of values, taken pair by
/// pair, stand for.
pub open spec fn map_of<V>(keys: Seq<Seq<char>>, values: Seq<V>) -> Map<Seq<char>, V> {
    Map::new(|k: Seq<char>| keys.contains(k), |k: Seq<char>| values[keys.index_of(k)])
}

/// With ascending keys every position holds its own key's value.
pub proof fn lemma_map_of_at<V>(keys: Seq<Seq<char>>, values: Seq<V>, i: int)
    requires
        ascending(keys),
        0 <= i < keys.len(),
    ensures
        map_of(keys, values).contains_key(keys[i]),
        map_of(keys, values)[keys[i]] == values[i],
        keys.index_of(keys[i]) == i,
{
    let j = keys.index_of(keys[i]);
    if j < i {
        lemma_name_asymmetric(keys[j], keys[i]);
    } else if i < j {
        lemma_name_asymmetric(keys[i], keys[j]);
    }
}

/// A new key put at its place in the order is an insertion into the map.
pub proof fn lemma_map_of_insert<V>(
    keys: Seq<Seq<char>>,
    values: Seq<V>,
    at: int,
    key: Seq<char>,
    value: V,
)
    requires
        ascending(keys),
        keys.len() == values.len(),
        0 <= at <= keys.len(),
        forall|i: int| 0 <= i < at ==> name_before(#[trigger] keys[i], key),
        forall|i: int| at <= i < keys.len() ==> name_before(key, #[trigger] keys[i]),
    ensures
        ascending(keys.insert(at, key)),
        map_of(keys.insert(at, key), values.insert(at, value)) == map_of(keys, values).insert(
            key,
            value,
        ),
{
    let keys2 = keys.insert(at, key);
    let values2 = values.insert(at, value);
    assert(ascending(keys2)) by {
        assert forall|i: int, j: int| 0 <= i < j < keys2.len() implies name_before(
            keys2[i],
            keys2[j],
        ) by {
            if i < at && j > at {
                assert(keys2[i] == keys[i] && keys2[j] == keys[j - 1]);
            }
        }
    }
    assert forall|k: Seq<char>| #[trigger]
        map_of(keys2, values2).contains_key(k) == map_of(keys, values).insert(
            key,
            value,
        ).contains_key(k) by {
        if keys2.contains(k) {
            let i = keys2.index_of(k);
            if i < at {
                assert(keys[i] == k);
            } else if i > at {
                assert(keys[i - 1] == k);
            }
        }
        if keys.contains(k) {
            let i = keys.index_of(k);
            if i < at {
                assert(keys2[i] == k);
            } else {
                assert(keys2[i + 1] == k);
            }
        }
        if k == key {
            assert(keys2[at] == k);
        }
    }
    assert forall|k: Seq<char>| #[trigger]
        map_of(keys2, values2).contains_key(k) implies map_of(keys2, values2)[k] == map_of(
        keys,
        values,
    ).insert(key, value)[k] by {
        let i = keys2.index_of(k);
        lemma_map_of_at(keys2, values2, i);
        if i < at {
            lemma_map_of_at(keys, values, i);
            lemma_name_asymmetric(keys[i], key);
        } else if i > at {
            lemma_map_of_at(keys, values, i - 1);
            lemma_name_asymmetric(key, keys[i - 1]);
        }
    }
    assert(map_of(keys2, values2) =~= map_of(keys, values).insert(key, value));
}

/// Taking a position out takes its key out of the map.
pub proof fn lemma_map_of_remove<V>(keys: Seq<Seq<char>>, values: Seq<V>, at: int)
    requires
        ascending(keys),
        keys.len() == values.len(),
        0 <= at < keys.len(),
    ensures
        ascending(keys.remove(at)),
        map_of(keys.remove(at), values.remove(at)) == map_of(keys, values).remove(keys[at]),
{
    let keys2 = keys.remove(at);
    let values2 = values.remove(at);
    assert(ascending(keys2)) by {
        assert forall|i: int, j: int| 0 <= i < j < keys2.len() implies name_before(
            keys2[i],
            keys2[j],
        ) by {
            let i0 = if i < at { i } else { i + 1 };
            let j0 = if j < at { j } else { j + 1 };
            assert(keys2[i] == keys[i0] && keys2[j] == keys[j0]);
        }
    }
    assert forall|k: Seq<char>| #[trigger]
        map_of(keys2, values2).contains_key(k) == map_of(keys, values).remove(
            keys[at],
        ).contains_key(k) by {
        if keys2.contains(k) {
            let i = keys2.index_of(k);
            let i0 = if i < at { i } else { i + 1 };
            assert(keys[i0] == k);
            lemma_map_of_at(keys, values, i0);
            lemma_map_of_at(keys, values, at);
        }
        if keys.contains(k) && k != keys[at] {
            let i = keys.index_of(k);
            if i < at {
                assert(keys2[i] == k);
            } else {
                assert(keys2[i - 1] == k);
            }
        }
    }
    assert forall|k: Seq<char>| #[trigger]
        map_of(keys2, values2).contains_key(k) implies map_of(keys2, values2)[k] == map_of(
        keys,
        values,
    ).remove(keys[at])[k] by {
        let i = keys2.index_of(k);
        let i0 = if i < at { i } else { i + 1 };
        lemma_map_of_at(keys2, values2, i);
        lemma_map_of_at(keys, values, i0);
    }
    assert(map_of(keys2, values2) =~= map_of(keys, values).remove(keys[at]));
}

/// A map from names to values of type `V`.
#[derive(Debug, PartialEq, Eq)]
pub struct StrMap<V> {
    entries: Vec<(String, V)>,
}

/// The keys of a vector of entries.
pub open spec fn keys_of<V>(entries: Seq<(String, V)>) -> Seq<Seq<char>> {
    Seq::new(entries.len(), |i: int| entries[i].0@)
}

/// The values of a vector of entries.
pub open spec fn values_of<V>(entries: Seq<(String, V)>) -> Seq<V> {
    Seq::new(entries.len(), |i: int| entries[i].1)
}

impl<V> View for StrMap<V> {
    type V = Map<Seq<char>, V>;

    open spec fn view(&self) -> Map<Seq<char>, V> {
        map_of(self.keys(), self.values())
    }
}

impl<V> StrMap<V> {
    /// The keys, in the order in which the map is walked.
    pub closed spec fn keys(self) -> Seq<Seq<char>> {
        keys_of(self.entries@)
    }

    /// The values, each at the position of its key.
    pub closed spec fn values(self) -> Seq<V> {
        values_of(self.entries@)
    }

    /// What holds of every map that the program holds: the keys ascend,
    /// so none occurs twice.
    pub open spec fn wf(self) -> bool {
        &&& ascending(self.keys())
        &&& self.keys().len() == self.values().len()
    }

    #[verifier::type_invariant]
    closed spec fn sorted(self) -> bool {
        ascending(self.keys())
    }

    /// The empty map.
    pub fn new() -> (map: Self)
        ensures
            map@ == Map::<Seq<char>, V>::empty(),
            map.keys() == Seq::<Seq<char>>::empty(),
    {
        let map = StrMap { entries: Vec::new() };
        assert(map.keys() =~= Seq::<Seq<char>>::empty());
        assert(map@ =~= Map::<Seq<char>, V>::empty());
        map
    }

    /// The number of entries.
    pub fn len(&self) -> (n: usize)
        ensures
            n == self.keys().len(),
            self.wf(),
    {
        proof {
            use_type_invariant(self);
        }
        self.entries.len()
    }

    /// The key at a position of the walk.
    pub fn key(&self, i: usize) -> (key: &String)
        requires
            i < self.keys().len(),
        ensures
            key@ == self.keys()[i as int],
            self@.contains_key(key@),
            self.wf(),
    {
        proof {
            use_type_invariant(self);
            lemma_map_of_at(self.keys(), self.values(), i as int);
        }
        &self.entries[i].0
    }

    /// The value at a position of the walk.
    pub fn value(&self, i: usize) -> (value: &V)
        requires
            i < self.keys().len(),
        ensures
            *value == self.values()[i as int],
            *value == self@[self.keys()[i as int]],
            self.wf(),
    {
        proof {
            use_type_invariant(self);
            lemma_map_of_at(self.keys(), self.values(), i as int);
        }
        &self.entries[i].1
    }

    /// Where `key` is, or where it would have to be put.
    fn search(&self, key: &str) -> (place: (bool, usize))
        ensures
            place.1 <= self.keys().len(),
            place.0 ==> place.1 < self.keys().len() && self.keys()[place.1 as int] == key@,
            place.0 == self.keys().contains(key@),
            forall|i: int| 0 <= i < place.1 ==> name_before(#[trigger] self.keys()[i], key@),
            forall|i: int|
                place.1 <= i < self.keys().len() && !(place.0 && i == place.1) ==> name_before(
                    key@,
                    #[trigger] self.keys()[i],
                ),
    {
        proof {
            use_type_invariant(self);
        }
        let ghost keys = self.keys();
        let mut low: usize = 0;
        let mut high: usize = self.entries.len();
        while low < high
            invariant
                keys == self.keys(),
                ascending(keys),
                low <= high <= keys.len(),
                keys.len() == self.entries@.len(),
                forall|i: int| 0 <= i < low ==> name_before(#[trigger] keys[i], key@),
                forall|i: int| high <= i < keys.len() ==> name_before(key@, #[trigger] keys[i]),
            decreases high - low,
        {
            let mid: usize = low + (high - low) / 2;
            let here = self.entries[mid].0.as_str();
            assert(here@ == keys[mid as int]);
            if str_before(here, key) {
                proof {
                    assert forall|i: int| 0 <= i < mid + 1 implies name_before(
                        #[trigger] keys[i],
                        key@,
                    ) by {
                        if i < mid {
                            lemma_name_transitive(keys[i], keys[mid as int], key@);
                        }
                    }
                }
                low = mid + 1;
            } else if str_before(key, here) {
                proof {
                    assert forall|i: int| mid <= i < keys.len() implies name_before(
                        key@,
                        #[trigger] keys[i],
                    ) by {
                        if mid < i {
                            lemma_name_transitive(key@, keys[mid as int], keys[i]);
                        }
                    }
                }
                high = mid;
            } else {
                proof {
                    lemma_name_total(here@, key@);
                }
                return (true, mid);
            }
        }
        proof {
            if keys.contains(key@) {
                let i = keys.index_of(key@);
                if i < low {
                    lemma_name_asymmetric(keys[i], key@);
                } else {
                    lemma_name_asymmetric(key@, keys[i]);
                }
            }
        }
        (false, low)
    }

    /// Whether the map has the key.
    pub fn contains_key(&self, key: &str) -> (found: bool)
        ensures
            found == self@.contains_key(key@),
    {
        self.search(key).0
    }

    /// The value of a key, if the map has the key.
    pub fn get(&self, key: &str) -> (value: Option<&V>)
        ensures
            value == (if self@.contains_key(key@) {
                Some(&self@[key@])
            } else {
                None
            }),
    {
        proof {
            use_type_invariant(self);
        }
        let (found, at) = self.search(key);
        if found {
            proof {
                lemma_map_of_at(self.keys(), self.values(), at as int);
            }
            Some(&self.entries[at].1)
        } else {
            None
        }
    }

    /// Puts a value under a key, in place of the one that was there, if
    /// any.
    pub fn insert(&mut self, key: String, value: V)
        ensures
            final(self)@ == old(self)@.insert(key@, value),
    {
        proof {
            use_type_invariant(&*self);
        }
        let (found, at) = self.search(key.as_str());
        let ghost keys = self.keys();
        let ghost values = self.values();
        let mut entries: Vec<(String, V)> = Vec::new();
        std::mem::swap(&mut entries, &mut self.entries);
        if found {
            entries.remove(at);
            proof {
                lemma_map_of_remove(keys, values, at as int);
                lemma_map_of_insert(keys.remove(at as int), values.remove(at as int), at as int, key@, value);
            }
        } else {
            proof {
                lemma_map_of_insert(keys, values, at as int, key@, value);
            }
        }
        entries.insert(at, (key, value));
        proof {
            if found {
                assert(keys_of(entries@) =~= keys.remove(at as int).insert(at as int, key@));
                assert(values_of(entries@) =~= values.remove(at as int).insert(at as int, value));
                assert(map_of(keys, values).remove(key@).insert(key@, value) =~= map_of(
                    keys,
                    values,
                ).insert(key@, value));
            } else {
                assert(keys_of(entries@) =~= keys.insert(at as int, key@));
                assert(values_of(entries@) =~= values.insert(at as int, value));
            }
        }
        self.entries = entries;
    }

    /// Takes a key out, and hands back the value that it had, if any.
    pub fn remove(&mut self, key: &str) -> (value: Option<V>)
        ensures
            final(self)@ == old(self)@.remove(key@),
            value == (if old(self)@.contains_key(key@) {
                Some(old(self)@[key@])
            } else {
                None
            }),
    {
        proof {
            use_type_invariant(&*self);
        }
        let (found, at) = self.search(key);
        if !found {
            assert(self@.remove(key@) =~= self@);
            return None;
        }
        let ghost keys = self.keys();
        let ghost values = self.values();
        let mut entries: Vec<(String, V)> = Vec::new();
        std::mem::swap(&mut entries, &mut self.entries);
        let entry = entries.remove(at);
        proof {
            lemma_map_of_remove(keys, values, at as int);
            lemma_map_of_at(keys, values, at as int);
            assert(keys_of(entries@) =~= keys.remove(at as int));
            assert(values_of(entries@) =~= values.remove(at as int));
        }
        self.entries = entries;
        Some(entry.1)
    }
}

impl<V: Clone> Clone for StrMap<V> {
    /// A map with the same keys, each with a clone of its value.
    fn clone(&self) -> (copy: Self)
        ensures
            copy.keys() == self.keys(),
            copy.values().len() == self.values().len(),
            forall|i: int|
                0 <= i < self.values().len() ==> cloned(
                    #[trigger] self.values()[i],
                    copy.values()[i],
                ),
    {
        proof {
            use_type_invariant(self);
        }
        let mut entries: Vec<(String, V)> = Vec::new();
        let mut i: usize = 0;
        while i < self.entries.len()
            invariant
                i <= self.entries@.len(),
                entries@.len() == i,
                forall|j: int| 0 <= j < i ==> (#[trigger] entries@[j]).0@ == self.entries@[j].0@,
                forall|j: int| 0 <= j < i ==> cloned(self.entries@[j].1, (#[trigger] entries@[j]).1),
            decreases self.entries@.len() - i,
        {
            let key = self.entries[i].0.clone();
            let value = self.entries[i].1.clone();
            entries.push((key, value));
            i = i + 1;
        }
        assert(keys_of(entries@) =~= self.keys());
        StrMap { entries }
    }
}

} // verus!
