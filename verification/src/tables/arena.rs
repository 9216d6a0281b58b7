use std::marker::PhantomData;
use vstd::prelude::*;

use super::key::{Key, RawKey};

verus! {

/// An append-only arena: values are stored in insertion order and are never
/// changed or removed, so a key stays valid for the life of the table.
pub struct AllocTable<K, V> {
    values: Vec<V>,
    marker: PhantomData<K>,
}

impl<K, V> View for AllocTable<K, V> {
    type V = Seq<V>;

    closed spec fn view(&self) -> Seq<V> {
        self.values@
    }
}

impl<K, V> Default for AllocTable<K, V> {
    fn default() -> (table: Self)
        ensures
            table@ == Seq::<V>::empty(),
    {
        Self { values: Vec::new(), marker: PhantomData }
    }
}

impl<K: Key, V> AllocTable<K, V> {
    /// The number of values stored.
    pub fn len(&self) -> (n: usize)
        ensures
            n == self@.len(),
    {
        self.values.len()
    }

    /// Stores `value` at the end and returns the key of its position.
    pub fn add(&mut self, value: V) -> (key: K)
        requires
            old(self)@.len() < RawKey::MAX,
        ensures
            final(self)@ == old(self)@.push(value),
            key.index() == old(self)@.len(),
    {
        let key = self.values.len();
        self.values.push(value);
        K::from_usize(key)
    }

    /// The value stored under `key`, which must come from this table.
    pub fn data(&self, key: K) -> (value: &V)
        requires
            key.index() < self@.len(),
        ensures
            *value == self@[key.index()],
    {
        &self.values[key.as_usize()]
    }
}

/// A value read back under the key that `add` returned for it is the value
/// that was added, however many values are added afterwards.
pub proof fn lemma_data_after_adds<V>(before: Seq<V>, value: V, later: Seq<V>)
    ensures
        (before.push(value) + later)[before.len() as int] == value,
        forall|i: int| 0 <= i < before.len() ==> (before.push(value) + later)[i] == before[i],
{
}

} // verus!
