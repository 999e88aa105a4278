use vstd::prelude::*;

verus! {

/// Whether a cached value mirrors the storage host or still has to be written to it.
#[derive(PartialEq, Eq, Structural, Clone, Copy, Debug)]
pub enum EntryState {
    /// The value is what the storage host holds (or the host holds nothing, for `None`).
    Cached,
    /// The value differs from the host and is written on the next flush.
    Modified,
}

/// The in-memory state of one key: its value, `None` for absent, and whether it is dirty.
pub struct CacheEntry<V> {
    pub value: Option<V>,
    pub state: EntryState,
}

impl<V> CacheEntry<V> {
    pub fn new_cached(value: Option<V>) -> (r: CacheEntry<V>)
        ensures
            r == (CacheEntry { value, state: EntryState::Cached }),
    {
        CacheEntry { value, state: EntryState::Cached }
    }

    pub fn new_modified(value: Option<V>) -> (r: CacheEntry<V>)
        ensures
            r == (CacheEntry { value, state: EntryState::Modified }),
    {
        CacheEntry { value, state: EntryState::Modified }
    }

    pub fn value(&self) -> (r: &Option<V>)
        ensures
            *r == self.value,
    {
        &self.value
    }

    /// Hands out the value for mutation; the entry counts as modified from now on.
    pub fn value_mut(&mut self) -> (r: &mut Option<V>)
        ensures
            *r == old(self).value,
            *final(self) == (CacheEntry { value: *final(r), state: EntryState::Modified }),
    {
        self.state = EntryState::Modified;
        &mut self.value
    }

    /// Puts `value` in place, marks the entry modified, and returns what was there.
    pub fn replace(&mut self, value: Option<V>) -> (r: Option<V>)
        ensures
            r == old(self).value,
            *final(self) == (CacheEntry { value, state: EntryState::Modified }),
    {
        self.state = EntryState::Modified;
        let previous = self.value.take();
        self.value = value;
        previous
    }

    pub fn is_modified(&self) -> (r: bool)
        ensures
            r == (self.state == EntryState::Modified),
    {
        self.state == EntryState::Modified
    }

    /// Sets the state and returns the previous one.
    pub fn replace_state(&mut self, state: EntryState) -> (r: EntryState)
        ensures
            r == old(self).state,
            *final(self) == (CacheEntry { value: old(self).value, state }),
    {
        let previous = self.state;
        self.state = state;
        previous
    }
}

} // verus!
