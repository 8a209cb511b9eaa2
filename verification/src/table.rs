//! Tables: an array part for the keys 1, 2, 3 and so on, and a map for
//! every other key.
use vstd::prelude::*;
use crate::fields::Fields;
use crate::value::{values_view, Val, Value, ValueModel};

verus! {

/// What a [`Table`] is, as contracts speak of it.
pub struct TableModel {
    /// The values of the keys 1, 2, 3 and so on, the value of key 1 first.
    pub array: Seq<ValueModel>,
    /// The values of the other keys.
    pub map: Map<ValueModel, ValueModel>,
}

/// The key that `k` is as a key of a table: a number with a fraction that
/// is whole is the integer; every other value is itself.
pub open spec fn key_of(k: ValueModel) -> ValueModel {
    match k {
        Val::Float(d) => if d.scale == 0 && d.frac == 0 && d.whole <= i64::MAX {
            Val::Integer(d.whole as i64)
        } else {
            k
        },
        _ => k,
    }
}

impl TableModel {
    /// The table that holds nothing.
    pub open spec fn empty() -> TableModel {
        TableModel { array: Seq::empty(), map: Map::empty() }
    }

    /// Whether the key `k` lies in the array part.
    pub open spec fn in_array(self, k: ValueModel) -> bool {
        key_of(k) matches Val::Integer(i) && 1 <= i <= self.array.len()
    }

    /// The value of key `k`: nil where the table holds none. Key 1 is the
    /// first item of the array part.
    pub open spec fn get(self, k: ValueModel) -> ValueModel {
        if self.in_array(k) {
            self.array[key_of(k)->Integer_0 - 1]
        } else if self.map.contains_key(key_of(k)) {
            self.map[key_of(k)]
        } else {
            Val::Nil
        }
    }

    /// The table with the value of key `k` set to `v`. A key in the array
    /// part keeps its place there; the key after the last of them becomes
    /// one more of them; every other key goes to the map.
    pub open spec fn set(self, k: ValueModel, v: ValueModel) -> TableModel {
        if self.in_array(k) {
            TableModel { array: self.array.update(key_of(k)->Integer_0 - 1, v), ..self }
        } else if key_of(k) == Val::<Seq<u8>>::Integer((self.array.len() + 1) as i64)
            && self.array.len() < i64::MAX {
            TableModel { array: self.array.push(v), ..self }
        } else {
            TableModel { map: self.map.insert(key_of(k), v), ..self }
        }
    }

    /// The table with `items` after the items of its array part.
    pub open spec fn append(self, items: Seq<ValueModel>) -> TableModel {
        TableModel { array: self.array + items, ..self }
    }
}

/// After a key is set to a value, the key has that value.
pub proof fn law_get_after_set(t: TableModel, k: ValueModel, v: ValueModel)
    ensures
        t.set(k, v).get(k) == v,
{
}

/// To set one key leaves the value of every other key as it was.
pub proof fn law_get_after_set_of_another(
    t: TableModel,
    k: ValueModel,
    v: ValueModel,
    other: ValueModel,
)
    requires
        key_of(other) != key_of(k),
    ensures
        t.set(k, v).get(other) == t.get(other),
{
}

/// The items of the array part are the values of the keys 1, 2, 3 and so
/// on: item `i`, counted from 0, is the value of key `i + 1`.
pub proof fn law_keys_count_from_one(t: TableModel, i: int)
    requires
        0 <= i < t.array.len(),
        i < i64::MAX,
    ensures
        t.get(Val::Integer((i + 1) as i64)) == t.array[i],
{
}

/// A table.
#[derive(Debug)]
pub struct Table {
    pub array: Vec<Value>,
    pub map: Fields,
}

impl View for Table {
    type V = TableModel;

    open spec fn view(&self) -> TableModel {
        TableModel { array: values_view(self.array@), map: self.map@ }
    }
}

/// `k` as a key of a table.
fn normal_key(k: Value) -> (r: Value)
    ensures
        r@ == key_of(k@),
{
    match k {
        Val::Float(d) => {
            if d.scale == 0 && d.frac == 0 && d.whole <= 9223372036854775807 {
                Val::Integer(d.whole as i64)
            } else {
                Val::Float(d)
            }
        },
        other => other,
    }
}

impl Table {
    /// A table that holds nothing.
    pub fn new() -> (t: Table)
        ensures
            t@ == TableModel::empty(),
    {
        let t = Table { array: Vec::new(), map: Fields::new() };
        assert(t@.array =~= Seq::empty());
        t
    }

    /// The place in the array part of the key `k`, if it lies there.
    fn slot(&self, k: &Value) -> (r: Option<usize>)
        requires
            key_of(k@) == k@,
        ensures
            match r {
                Some(i) => self@.in_array(k@) && i == key_of(k@)->Integer_0 - 1 && i
                    < self.array.len(),
                None => !self@.in_array(k@),
            },
    {
        assert(self@.array.len() == self.array.len());
        match k {
            Val::Integer(i) => {
                if 1 <= *i && (*i as u64) <= self.array.len() as u64 {
                    Some((*i - 1) as usize)
                } else {
                    None
                }
            },
            _ => None,
        }
    }

    /// A copy of the value of key `k`.
    pub fn get(&self, k: Value) -> (v: Value)
        ensures
            v@ == self@.get(k@),
    {
        let k = normal_key(k);
        match self.slot(&k) {
            Some(i) => self.array[i].clone(),
            None => match self.map.get(&k) {
                Some(v) => v.clone(),
                None => Val::Nil,
            },
        }
    }

    /// Sets the value of key `k` to `v`.
    pub fn set(&mut self, k: Value, v: Value)
        ensures
            final(self)@ == old(self)@.set(k@, v@),
    {
        let k = normal_key(k);
        match self.slot(&k) {
            Some(i) => {
                proof {
                    assert(values_view(self.array@.update(i as int, v)) =~= values_view(
                        self.array@,
                    ).update(i as int, v@));
                }
                self.array[i] = v;
            },
            None => {
                let next = match &k {
                    Val::Integer(i) => (self.array.len() as u64) < 9223372036854775807 && *i as u64
                        == self.array.len() as u64 + 1 && *i > 0,
                    _ => false,
                };
                if next {
                    proof {
                        assert(values_view(self.array@.push(v)) =~= values_view(self.array@).push(
                            v@,
                        ));
                    }
                    self.array.push(v);
                } else {
                    self.map.set(k, v);
                }
            },
        }
    }

    /// Puts `items` after the items of the array part.
    pub fn append(&mut self, items: Vec<Value>)
        ensures
            final(self)@ == old(self)@.append(values_view(items@)),
    {
        let mut items = items;
        proof {
            assert(values_view(self.array@ + items@) =~= values_view(self.array@) + values_view(
                items@,
            ));
        }
        self.array.append(&mut items);
    }
}

} // verus!
