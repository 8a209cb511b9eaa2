//! A hash map that hands out copies of its values.
use std::collections::HashMap;
use std::hash::Hash;
use vstd::prelude::*;
use vstd::std_specs::hash::obeys_key_model;

verus! {

/// A map from keys to values, over `std`'s `HashMap`. A lookup gives a copy
/// of the value, not a reference into the map.
///
/// What its functions do is stated for keys whose hashing and equality
/// follow the model of `vstd` (`obeys_key_model`), as the integer types do.
#[derive(Debug)]
pub struct ValueHashMap<K, V> {
    map: HashMap<K, V>,
}

impl<K: Eq + Hash + Clone, V: Clone> ValueHashMap<K, V> {
    /// The keys of the map, each with its value.
    pub closed spec fn view(&self) -> Map<K, V> {
        self.map@
    }

    /// An empty map.
    pub fn new() -> (m: Self)
        ensures
            m@ == Map::<K, V>::empty(),
    {
        ValueHashMap { map: HashMap::new() }
    }

    /// A copy of the value of `key`, if the map holds the key. The map stays
    /// as it is.
    pub fn get_value(&mut self, key: K) -> (r: Option<V>)
        ensures
            final(self)@ == old(self)@,
            obeys_key_model::<K>() ==> match r {
                Some(v) => old(self)@.contains_key(key) && cloned(old(self)@[key], v),
                None => !old(self)@.contains_key(key),
            },
    {
        broadcast use vstd::std_specs::hash::group_hash_axioms;

        self.map.get(&key).cloned()
    }

    /// Sets the value of `key` to `value`.
    pub fn insert(&mut self, key: K, value: V)
        ensures
            obeys_key_model::<K>() ==> final(self)@ == old(self)@.insert(key, value),
    {
        broadcast use vstd::std_specs::hash::group_hash_axioms;

        self.map.insert(key, value);
    }
}

} // verus!
