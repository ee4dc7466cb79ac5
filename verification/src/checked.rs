//! Maps and sets that refuse to overwrite an existing entry or to remove a
//! missing one: callers check first, and the contracts make them.

use std::collections::{HashMap, HashSet};
use std::hash::Hash;

use vstd::prelude::*;
use vstd::std_specs::hash::obeys_key_model;

verus! {

broadcast use vstd::std_specs::hash::group_hash_axioms;

/// A hash map whose `insert` never replaces and whose `remove` never misses.
pub struct CheckedMap<K: Copy + Eq + Hash, V> {
    inner: HashMap<K, V>,
}

impl<K: Copy + Eq + Hash, V> View for CheckedMap<K, V> {
    type V = Map<K, V>;

    closed spec fn view(&self) -> Map<K, V> {
        self.inner@
    }
}

impl<K: Copy + Eq + Hash, V> CheckedMap<K, V> {
    /// An empty map. The key type must hash and compare deterministically.
    pub fn new() -> (r: Self)
        requires
            obeys_key_model::<K>(),
        ensures
            r@ == Map::<K, V>::empty(),
            r@.dom().finite(),
    {
        Self { inner: HashMap::new() }
    }

    /// Whether `key` has a value.
    pub fn contains_key(&self, key: &K) -> (r: bool)
        requires
            obeys_key_model::<K>(),
        ensures
            r == self@.contains_key(*key),
    {
        self.inner.contains_key(key)
    }

    /// The value of `key`, if it has one.
    pub fn get(&self, key: &K) -> (r: Option<&V>)
        requires
            obeys_key_model::<K>(),
        ensures
            self@.contains_key(*key) ==> r == Some(&self@[*key]),
            !self@.contains_key(*key) ==> r is None,
    {
        self.inner.get(key)
    }

    /// Mutable access to the value of `key`, if it has one.
    pub fn get_mut(&mut self, key: &K) -> (r: Option<&mut V>)
        requires
            obeys_key_model::<K>(),
        ensures
            old(self)@.contains_key(*key) == r is Some,
            !old(self)@.contains_key(*key) ==> final(self)@ == old(self)@,
            old(self)@.contains_key(*key) ==> {
                &&& *r->0 == old(self)@[*key]
                &&& final(self)@ == old(self)@.insert(*key, *final(r->0))
            },
    {
        let k = *key;
        match self.inner.entry(k) {
            std::collections::hash_map::Entry::Occupied(e) => Some(e.into_mut()),
            std::collections::hash_map::Entry::Vacant(_) => None,
        }
    }

    /// Gives `key` the value `value`; the key must not have one yet.
    pub fn insert(&mut self, key: K, value: V)
        requires
            obeys_key_model::<K>(),
            !old(self)@.contains_key(key),
        ensures
            final(self)@ == old(self)@.insert(key, value),
            final(self)@.dom().finite(),
    {
        self.inner.insert(key, value);
    }

    /// Removes the value of `key`; the key must have one.
    pub fn remove(&mut self, key: &K)
        requires
            obeys_key_model::<K>(),
            old(self)@.contains_key(*key),
        ensures
            final(self)@ == old(self)@.remove(*key),
    {
        self.inner.remove(key);
    }

    /// Walks every entry once, in no particular order.
    pub fn iter(&self) -> (r: std::collections::hash_map::Iter<'_, K, V>)
        requires
            obeys_key_model::<K>(),
        ensures
            ({
                let v = vstd::std_specs::iter::IteratorSpec::remaining(&r);
                &&& v.len() == self@.dom().len()
                &&& forall|i: int|
                    0 <= i < v.len() ==> #[trigger] self@.contains_key(*v[i].0) && self@[*v[i].0]
                        == *v[i].1
                &&& forall|k: K| #[trigger] self@.contains_key(k) ==> v.contains((&k, &self@[k]))
            }),
    {
        self.inner.iter()
    }
}

/// A hash set whose `insert` never finds the key present and whose `remove`
/// never finds it missing.
pub struct CheckedSet<K: Copy + Eq + Hash> {
    inner: HashSet<K>,
}

impl<K: Copy + Eq + Hash> View for CheckedSet<K> {
    type V = Set<K>;

    closed spec fn view(&self) -> Set<K> {
        self.inner@
    }
}

impl<K: Copy + Eq + Hash> CheckedSet<K> {
    /// An empty set. The key type must hash and compare deterministically.
    pub fn new() -> (r: Self)
        requires
            obeys_key_model::<K>(),
        ensures
            r@ == Set::<K>::empty(),
            r@.finite(),
    {
        Self { inner: HashSet::new() }
    }

    /// Whether `key` is in the set.
    pub fn contains(&self, key: &K) -> (r: bool)
        requires
            obeys_key_model::<K>(),
        ensures
            r == self@.contains(*key),
    {
        self.inner.contains(key)
    }

    /// Adds `key`, which must not be in the set yet.
    pub fn insert(&mut self, key: K)
        requires
            obeys_key_model::<K>(),
            !old(self)@.contains(key),
        ensures
            final(self)@ == old(self)@.insert(key),
            old(self)@.finite() ==> final(self)@.finite(),
    {
        self.inner.insert(key);
    }

    /// Removes `key`, which must be in the set.
    pub fn remove(&mut self, key: &K)
        requires
            obeys_key_model::<K>(),
            old(self)@.contains(*key),
        ensures
            final(self)@ == old(self)@.remove(*key),
            old(self)@.finite() ==> final(self)@.finite(),
    {
        self.inner.remove(key);
    }
}

} // verus!
