//! A map from values to values: the global variables of a state, and the
//! part of a table that is no array.
use vstd::prelude::*;
use crate::value::{Value, ValueModel};

verus! {

/// The map that a list of bindings stands for: a later binding of a key
/// takes the place of an earlier one.
pub open spec fn bindings_map(entries: Seq<(Value, Value)>) -> Map<ValueModel, ValueModel>
    decreases entries.len(),
{
    if entries.len() == 0 {
        Map::empty()
    } else {
        bindings_map(entries.drop_last()).insert(entries.last().0@, entries.last().1@)
    }
}

/// The last place where `entries` binds `key`.
pub open spec fn binding_of(entries: Seq<(Value, Value)>, key: ValueModel) -> Option<int>
    decreases entries.len(),
{
    if entries.len() == 0 {
        None
    } else if entries.last().0@ == key {
        Some(entries.len() - 1)
    } else {
        binding_of(entries.drop_last(), key)
    }
}

/// The map holds a key exactly where the list binds it, with the value of
/// its last binding.
pub proof fn lemma_binding_of(entries: Seq<(Value, Value)>, key: ValueModel)
    ensures
        match binding_of(entries, key) {
            Some(i) => 0 <= i < entries.len() && entries[i].0@ == key && bindings_map(
                entries,
            ).contains_key(key) && bindings_map(entries)[key] == entries[i].1@,
            None => !bindings_map(entries).contains_key(key),
        },
    decreases entries.len(),
{
    if entries.len() > 0 {
        lemma_binding_of(entries.drop_last(), key);
    }
}

/// To put a new value in the place of a key's last binding is to set the
/// key to that value in the map.
pub proof fn lemma_rebind(entries: Seq<(Value, Value)>, i: int, e: (Value, Value))
    requires
        binding_of(entries, e.0@) == Some(i),
    ensures
        0 <= i < entries.len(),
        bindings_map(entries.update(i, e)) == bindings_map(entries).insert(e.0@, e.1@),
    decreases entries.len(),
{
    lemma_binding_of(entries, e.0@);
    let front = entries.drop_last();
    let last = entries.last();
    if i == entries.len() - 1 {
        assert(entries.update(i, e).drop_last() =~= front);
        assert(bindings_map(entries.update(i, e)) =~= bindings_map(entries).insert(e.0@, e.1@));
    } else {
        lemma_rebind(front, i, e);
        assert(entries.update(i, e).drop_last() =~= front.update(i, e));
        assert(entries.update(i, e).last() == last);
        assert(bindings_map(entries.update(i, e)) =~= bindings_map(entries).insert(e.0@, e.1@));
    }
}

/// A map from values to values.
#[derive(Debug)]
pub struct Fields {
    entries: Vec<(Value, Value)>,
}

impl View for Fields {
    type V = Map<ValueModel, ValueModel>;

    closed spec fn view(&self) -> Map<ValueModel, ValueModel> {
        bindings_map(self.entries@)
    }
}

impl Fields {
    /// The map that holds no key.
    pub fn new() -> (g: Fields)
        ensures
            g@ == Map::<ValueModel, ValueModel>::empty(),
    {
        Fields { entries: Vec::new() }
    }

    /// The last place where the list binds `key`.
    fn find(&self, key: &Value) -> (r: Option<usize>)
        ensures
            match r {
                Some(i) => binding_of(self.entries@, key@) == Some(i as int) && i
                    < self.entries.len(),
                None => binding_of(self.entries@, key@) is None,
            },
    {
        let mut i: usize = self.entries.len();
        assert(self.entries@.subrange(0, i as int) =~= self.entries@);
        while i > 0
            invariant
                i <= self.entries.len(),
                binding_of(self.entries@, key@) == binding_of(
                    self.entries@.subrange(0, i as int),
                    key@,
                ),
            decreases i,
        {
            assert(self.entries@.subrange(0, i as int).drop_last() =~= self.entries@.subrange(
                0,
                i - 1,
            ));
            i -= 1;
            if self.entries[i].0 == *key {
                return Some(i);
            }
        }
        None
    }

    /// The value of `key`, if the map holds the key.
    pub fn get(&self, key: &Value) -> (r: Option<&Value>)
        ensures
            match r {
                Some(v) => self@.contains_key(key@) && self@[key@] == v@,
                None => !self@.contains_key(key@),
            },
    {
        proof {
            lemma_binding_of(self.entries@, key@);
        }
        match self.find(key) {
            Some(i) => Some(&self.entries[i].1),
            None => None,
        }
    }

    /// Sets the value of `key` to `value`.
    pub fn set(&mut self, key: Value, value: Value)
        ensures
            final(self)@ == old(self)@.insert(key@, value@),
    {
        match self.find(&key) {
            Some(i) => {
                proof {
                    lemma_rebind(self.entries@, i as int, (key, value));
                }
                self.entries[i] = (key, value);
            },
            None => {
                proof {
                    assert(self.entries@.push((key, value)).drop_last() =~= self.entries@);
                }
                self.entries.push((key, value));
            },
        }
    }
}

} // verus!
