use vstd::prelude::*;

use crate::cache_entry::{CacheEntry, EntryState};

verus! {

/// A view of one key's slot, already loaded, for insert-or-update without a second lookup.
pub enum Entry<'a, K, V> {
    Occupied(OccupiedEntry<'a, K, V>),
    Vacant(VacantEntry<'a, K, V>),
}

/// The slot of a key that has a value.
pub struct OccupiedEntry<'a, K, V> {
    pub key: K,
    pub entry: &'a mut CacheEntry<V>,
}

/// The slot of a key that has no value.
pub struct VacantEntry<'a, K, V> {
    pub key: K,
    pub entry: &'a mut CacheEntry<V>,
}

impl<'a, K, V> Entry<'a, K, V> {
    pub open spec fn spec_key(&self) -> K {
        match self {
            Entry::Occupied(o) => o.key,
            Entry::Vacant(v) => v.key,
        }
    }

    /// The slot that this entry works on.
    pub open spec fn slot(self) -> &'a mut CacheEntry<V> {
        match self {
            Entry::Occupied(o) => o.entry,
            Entry::Vacant(v) => v.entry,
        }
    }

    pub open spec fn wf(&self) -> bool {
        match self {
            Entry::Occupied(o) => o.entry.value is Some,
            Entry::Vacant(v) => v.entry.value is None,
        }
    }

    pub fn key(&self) -> (r: &K)
        ensures
            *r == self.spec_key(),
    {
        match self {
            Entry::Occupied(o) => &o.key,
            Entry::Vacant(v) => &v.key,
        }
    }

    /// The value of the key, after putting `default` in place if it had none.
    /// The slot counts as modified either way.
    pub fn or_insert(self, default: V) -> (r: &'a mut V)
        requires
            self.wf(),
        ensures
            *r == (match self {
                Entry::Occupied(o) => o.entry.value->0,
                Entry::Vacant(_) => default,
            }),
            *final(self.slot()) == (CacheEntry {
                value: Some(*final(r)),
                state: EntryState::Modified,
            }),
    {
        match self {
            Entry::Occupied(o) => o.into_mut(),
            Entry::Vacant(v) => v.insert(default),
        }
    }

    /// The value of the key, after putting in place what `default` makes if it had none;
    /// `default` is called only then.
    pub fn or_insert_with<F: FnOnce() -> V>(self, default: F) -> (r: &'a mut V)
        requires
            self.wf(),
            self is Vacant ==> default.requires(()),
        ensures
            match self {
                Entry::Occupied(o) => *r == o.entry.value->0,
                Entry::Vacant(_) => default.ensures((), *r),
            },
            *final(self.slot()) == (CacheEntry {
                value: Some(*final(r)),
                state: EntryState::Modified,
            }),
    {
        match self {
            Entry::Occupied(o) => o.into_mut(),
            Entry::Vacant(v) => v.insert(default()),
        }
    }
}

impl<'a, K, V> OccupiedEntry<'a, K, V> {
    pub fn key(&self) -> (r: &K)
        ensures
            *r == self.key,
    {
        &self.key
    }

    pub fn get(&self) -> (r: &V)
        requires
            self.entry.value is Some,
        ensures
            *r == old(self.entry).value->0,
    {
        self.entry.value.as_ref().unwrap()
    }

    /// The value, for mutation while the entry lives; the slot counts as modified.
    pub fn get_mut(&mut self) -> (r: &mut V)
        requires
            old(self).entry.value is Some,
        ensures
            *r == old(self).entry.value->0,
            final(self).key == old(self).key,
            *final(self).entry == (CacheEntry {
                value: Some(*final(r)),
                state: EntryState::Modified,
            }),
            *final(final(self).entry) == *final(old(self).entry),
    {
        self.entry.state = EntryState::Modified;
        self.entry.value.as_mut().unwrap()
    }

    /// Puts `value` in place and returns the previous value; the slot counts as modified.
    pub fn insert(&mut self, value: V) -> (r: V)
        requires
            old(self).entry.value is Some,
        ensures
            r == old(self).entry.value->0,
            final(self).key == old(self).key,
            *final(self).entry == (CacheEntry { value: Some(value), state: EntryState::Modified }),
            *final(final(self).entry) == *final(old(self).entry),
    {
        self.entry.replace(Some(value)).unwrap()
    }

    /// The value, for mutation that outlives the entry; the slot counts as modified.
    pub fn into_mut(self) -> (r: &'a mut V)
        requires
            self.entry.value is Some,
        ensures
            *r == old(self.entry).value->0,
            *final(self.entry) == (CacheEntry {
                value: Some(*final(r)),
                state: EntryState::Modified,
            }),
    {
        let entry = self.entry;
        entry.state = EntryState::Modified;
        entry.value.as_mut().unwrap()
    }

    /// Takes the value out; the key is deleted from the host on flush.
    pub fn remove(self) -> (r: V)
        requires
            self.entry.value is Some,
        ensures
            r == old(self.entry).value->0,
            *final(self.entry) == (CacheEntry { value: None::<V>, state: EntryState::Modified }),
    {
        let entry = self.entry;
        entry.replace(None).unwrap()
    }
}

impl<'a, K, V> VacantEntry<'a, K, V> {
    pub fn key(&self) -> (r: &K)
        ensures
            *r == self.key,
    {
        &self.key
    }

    /// Puts `value` in place and hands it out for mutation; the slot counts as modified.
    pub fn insert(self, value: V) -> (r: &'a mut V)
        ensures
            *r == value,
            *final(self.entry) == (CacheEntry {
                value: Some(*final(r)),
                state: EntryState::Modified,
            }),
    {
        let entry = self.entry;
        entry.state = EntryState::Modified;
        entry.value = Some(value);
        entry.value.as_mut().unwrap()
    }
}

} // verus!
