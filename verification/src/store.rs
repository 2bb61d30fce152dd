//! The column store of one row: computed values under their metrics' names,
//! each written once.

use vstd::prelude::*;
use crate::metric::{Column, DataType, Identity};

verus! {

/// What a store holds under one name.
pub struct Entry<V> {
    pub data_type: DataType,
    pub value: V,
}

/// Columns keyed by name. A name is stored at most once, and what is stored
/// under it never changes.
pub struct ColumnStore<V> {
    columns: Vec<Column<V>>,
}

impl<V> ColumnStore<V> {
    /// No two columns carry the same name.
    pub closed spec fn wf(&self) -> bool {
        forall|i: int, j: int|
            0 <= i < j < self.columns.len() ==> self.columns[i].name@ != self.columns[j].name@
    }

    spec fn holds(&self, name: Seq<char>) -> bool {
        exists|i: int| 0 <= i < self.columns.len() && self.columns[i].name@ == name
    }

    spec fn slot(&self, name: Seq<char>) -> int {
        choose|i: int| 0 <= i < self.columns.len() && self.columns[i].name@ == name
    }

    /// The store as a map from names to entries.
    pub closed spec fn view(&self) -> Map<Seq<char>, Entry<V>> {
        Map::new(
            |name: Seq<char>| self.holds(name),
            |name: Seq<char>|
                Entry {
                    data_type: self.columns[self.slot(name)].data_type,
                    value: self.columns[self.slot(name)].value,
                },
        )
    }

    /// An empty store.
    pub fn new() -> (store: Self)
        ensures
            store.wf(),
            store@ == Map::<Seq<char>, Entry<V>>::empty(),
    {
        let store = ColumnStore { columns: Vec::new() };
        assert(store@ =~= Map::<Seq<char>, Entry<V>>::empty());
        store
    }

    fn position(&self, name: &Identity) -> (at: Option<usize>)
        requires
            self.wf(),
        ensures
            at is Some <==> self.holds(name@),
            at matches Some(i) ==> i < self.columns.len() && self.columns[i as int].name@ == name@
                && self.slot(name@) == i,
    {
        let mut i: usize = 0;
        while i < self.columns.len()
            invariant
                self.wf(),
                i <= self.columns.len(),
                forall|k: int| 0 <= k < i ==> self.columns[k].name@ != name@,
            decreases self.columns.len() - i,
        {
            if self.columns[i].name == *name {
                assert(self.columns[i as int].name@ == name@);
                assert(self.holds(name@));
                return Some(i);
            }
            i += 1;
        }
        None
    }

    /// Whether a value is stored under `name`.
    pub fn contains(&self, name: &Identity) -> (found: bool)
        requires
            self.wf(),
        ensures
            found == self@.contains_key(name@),
    {
        self.position(name).is_some()
    }

    /// The column stored under `name`, whatever its type.
    pub fn column(&self, name: &Identity) -> (found: Option<&Column<V>>)
        requires
            self.wf(),
        ensures
            found is Some <==> self@.contains_key(name@),
            found matches Some(column) ==> column.name@ == name@ && self@[name@] == (Entry {
                data_type: column.data_type,
                value: column.value,
            }),
    {
        match self.position(name) {
            Some(i) => Some(&self.columns[i]),
            None => None,
        }
    }

    /// The column stored under `name`, which the store must hold.
    pub fn fetch(&self, name: &Identity) -> (column: &Column<V>)
        requires
            self.wf(),
            self@.contains_key(name@),
        ensures
            column.name@ == name@,
            self@[name@] == (Entry { data_type: column.data_type, value: column.value }),
    {
        let mut i: usize = 0;
        while self.columns[i].name != *name
            invariant
                i < self.columns.len(),
                exists|k: int| i <= k < self.columns.len() && self.columns[k].name@ == name@,
            decreases self.columns.len() - i,
        {
            i += 1;
        }
        proof {
            let k: int = self.slot(name@);
            if k < i {
                assert(self.columns[k].name@ != self.columns[i as int].name@);
            }
            if i < k {
                assert(self.columns[i as int].name@ != self.columns[k].name@);
            }
        }
        &self.columns[i]
    }

    /// The columns stored under `names`, in the order of `names`. The store
    /// must hold them all.
    pub fn gather(&self, names: &Vec<Identity>) -> (columns: Vec<&Column<V>>)
        requires
            self.wf(),
            forall|j: int| 0 <= j < names.len() ==> self@.contains_key(#[trigger] names[j]@),
        ensures
            columns.len() == names.len(),
            forall|j: int|
                0 <= j < names.len() ==> (#[trigger] columns[j]).name@ == names[j]@
                    && self@[names[j]@] == (Entry {
                    data_type: columns[j].data_type,
                    value: columns[j].value,
                }),
    {
        let mut columns: Vec<&Column<V>> = Vec::new();
        let mut j: usize = 0;
        while j < names.len()
            invariant
                self.wf(),
                j <= names.len(),
                columns.len() == j,
                forall|e: int| 0 <= e < names.len() ==> self@.contains_key(#[trigger] names[e]@),
                forall|e: int|
                    0 <= e < j ==> (#[trigger] columns[e]).name@ == names[e]@ && self@[names[e]@]
                        == (Entry { data_type: columns[e].data_type, value: columns[e].value }),
            decreases names.len() - j,
        {
            columns.push(self.fetch(&names[j]));
            j += 1;
        }
        columns
    }

    /// The value stored under `name`, read as a value of type `data_type`.
    ///
    /// The caller vouches that what is stored under `name`, if anything, was
    /// stored with that type; `column` reads without that promise.
    pub fn get_typed(&self, name: &Identity, data_type: DataType) -> (found: Option<&V>)
        requires
            self.wf(),
            self@.contains_key(name@) ==> self@[name@].data_type == data_type,
        ensures
            found is Some <==> self@.contains_key(name@),
            found matches Some(value) ==> self@[name@].value == *value,
    {
        match self.position(name) {
            Some(i) => Some(&self.columns[i].value),
            None => None,
        }
    }

    /// Stores `value` under `name`, which must be new to the store.
    pub fn insert(&mut self, name: Identity, data_type: DataType, value: V)
        requires
            old(self).wf(),
            !old(self)@.contains_key(name@),
        ensures
            final(self).wf(),
            final(self)@ == old(self)@.insert(name@, Entry { data_type: data_type, value: value }),
    {
        let ghost key: Seq<char> = name@;
        self.columns.push(Column { name: name, data_type: data_type, value: value });
        proof {
            let before = old(self);
            let n: int = before.columns.len() as int;
            assert forall|i: int, j: int| 0 <= i < j < self.columns.len() implies self.columns[i].name@
                != self.columns[j].name@ by {
                if j == n {
                    assert(self.columns[i] == before.columns[i]);
                    assert(!before.holds(self.columns[j].name@));
                } else {
                    assert(self.columns[i] == before.columns[i]);
                    assert(self.columns[j] == before.columns[j]);
                }
            }
            let target = before@.insert(key, Entry { data_type: data_type, value: value });
            assert forall|name: Seq<char>| self@.contains_key(name) <==> target.contains_key(
                name,
            ) by {
                if before.holds(name) {
                    let i: int = before.slot(name);
                    assert(self.columns[i] == before.columns[i]);
                    assert(self.holds(name));
                }
                if self.holds(name) && name != key {
                    let i: int = self.slot(name);
                    assert(i < n);
                    assert(self.columns[i] == before.columns[i]);
                    assert(before.holds(name));
                }
                if name == key {
                    assert(self.columns[n].name@ == key);
                    assert(self.holds(name));
                }
            }
            assert forall|name: Seq<char>| self@.contains_key(name) implies self@[name]
                == target[name] by {
                let i: int = self.slot(name);
                if name == key {
                    assert(self.columns[n].name@ == key);
                    assert(i == n);
                } else {
                    assert(i < n);
                    assert(self.columns[i] == before.columns[i]);
                    assert(before.holds(name));
                    assert(before.slot(name) == i);
                }
            }
            assert(self@ =~= target);
        }
    }
}

} // verus!
