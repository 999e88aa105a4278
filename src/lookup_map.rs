use vstd::prelude::*;

use std::marker::PhantomData;

use crate::bytes::{concat_bytes, copy_bytes};
use crate::cache_entry::{CacheEntry, EntryState};
use crate::codec::BorshCodec;
use crate::entry::{Entry, OccupiedEntry, VacantEntry};
use crate::hash::{CryptoHasher, Sha256};
use crate::storage::{Storage, StorageOp};

verus! {

/// Whether `slots` holds a slot for `k`.
pub open spec fn has_slot<K, V>(slots: Seq<(K, CacheEntry<V>)>, k: K) -> bool {
    exists|i: int| 0 <= i < slots.len() && (#[trigger] slots[i]).0 == k
}

/// The position of the slot for `k` in `slots`, where there is one.
pub open spec fn slot_index<K, V>(slots: Seq<(K, CacheEntry<V>)>, k: K) -> int {
    choose|i: int| 0 <= i < slots.len() && (#[trigger] slots[i]).0 == k
}

/// The cached entry of `k`, if the cache holds one.
pub open spec fn slot_of<K, V>(slots: Seq<(K, CacheEntry<V>)>, k: K) -> Option<CacheEntry<V>> {
    if has_slot(slots, k) {
        Some(slots[slot_index(slots, k)].1)
    } else {
        None
    }
}

/// Each key has at most one slot.
pub open spec fn keys_unique<K, V>(slots: Seq<(K, CacheEntry<V>)>) -> bool {
    forall|i: int, j: int| 0 <= i < j < slots.len() ==> slots[i].0 != slots[j].0
}

/// `slots` with the entry of `k` replaced by `e`.
pub open spec fn with_entry<K, V>(slots: Seq<(K, CacheEntry<V>)>, k: K, e: CacheEntry<V>) -> Seq<
    (K, CacheEntry<V>),
> {
    slots.update(slot_index(slots, k), (k, e))
}

/// `slots` after `value` is set for `k` without reading the host.
pub open spec fn set_in<K, V>(slots: Seq<(K, CacheEntry<V>)>, k: K, value: Option<V>) -> Seq<
    (K, CacheEntry<V>),
> {
    if slot_of(slots, k) is Some {
        with_entry(slots, k, CacheEntry { value, state: EntryState::Modified })
    } else {
        slots.push((k, CacheEntry { value, state: EntryState::Modified }))
    }
}

/// `slots` after each pair of `entries` is set, in order.
pub open spec fn extended<K, V>(slots: Seq<(K, CacheEntry<V>)>, entries: Seq<(K, V)>) -> Seq<
    (K, CacheEntry<V>),
>
    decreases entries.len(),
{
    if entries.len() == 0 {
        slots
    } else {
        set_in(extended(slots, entries.drop_last()), entries.last().0, Some(entries.last().1))
    }
}

/// Every slot demoted to `Cached`, values kept.
pub open spec fn cleaned<K, V>(slots: Seq<(K, CacheEntry<V>)>) -> Seq<(K, CacheEntry<V>)> {
    slots.map_values(
        |p: (K, CacheEntry<V>)| (p.0, CacheEntry { value: p.1.value, state: EntryState::Cached }),
    )
}

/// No slot is waiting to be written.
pub open spec fn all_clean<K, V>(slots: Seq<(K, CacheEntry<V>)>) -> bool {
    forall|i: int| 0 <= i < slots.len() ==> (#[trigger] slots[i]).1.state == EntryState::Cached
}

pub proof fn lemma_slot_index<K, V>(slots: Seq<(K, CacheEntry<V>)>, i: int)
    requires
        keys_unique(slots),
        0 <= i < slots.len(),
    ensures
        has_slot(slots, slots[i].0),
        slot_index(slots, slots[i].0) == i,
        slot_of(slots, slots[i].0) == Some(slots[i].1),
{
    assert(has_slot(slots, slots[i].0));
}

/// Appending a slot for a key that had none: that key finds it, every other key finds
/// what it found before.
pub proof fn lemma_push_slots<K, V>(init: Seq<(K, CacheEntry<V>)>, last: (K, CacheEntry<V>))
    requires
        keys_unique(init.push(last)),
    ensures
        keys_unique(init),
        !has_slot(init, last.0),
        slot_of(init.push(last), last.0) == Some(last.1),
        forall|j: K| j != last.0 ==> #[trigger] slot_of(init.push(last), j) == slot_of(init, j),
{
    let all = init.push(last);
    assert forall|i: int, j: int| 0 <= i < j < init.len() implies init[i].0 != init[j].0 by {
        assert(all[i] == init[i] && all[j] == init[j]);
    }
    lemma_slot_index(all, init.len() as int);
    if has_slot(init, last.0) {
        let i = slot_index(init, last.0);
        assert(all[i] == init[i]);
    }
    assert forall|j: K| j != last.0 implies #[trigger] slot_of(all, j) == slot_of(init, j) by {
        if has_slot(init, j) {
            let i = slot_index(init, j);
            assert(all[i] == init[i]);
            lemma_slot_index(all, i);
            lemma_slot_index(init, i);
        } else if has_slot(all, j) {
            let i = slot_index(all, j);
            if i < init.len() {
                assert(init[i] == all[i]);
            }
        }
    }
}

/// Replacing the entry of `k`: `k` finds the new entry, every other key what it found
/// before, and the keys stay as they were.
pub proof fn lemma_with_entry_slots<K, V>(slots: Seq<(K, CacheEntry<V>)>, k: K)
    requires
        keys_unique(slots),
        has_slot(slots, k),
    ensures
        forall|e: CacheEntry<V>| keys_unique(#[trigger] with_entry(slots, k, e)),
        forall|e: CacheEntry<V>| slot_of(#[trigger] with_entry(slots, k, e), k) == Some(e),
        forall|e: CacheEntry<V>, j: K|
            j != k ==> #[trigger] slot_of(with_entry(slots, k, e), j) == slot_of(slots, j),
        forall|e: CacheEntry<V>, i: int|
            0 <= i < slots.len() && (#[trigger] with_entry(slots, k, e)[i]).0 != k ==> with_entry(
                slots,
                k,
                e,
            )[i] == slots[i],
        slots[slot_index(slots, k)].0 == k,
{
    let i0 = slot_index(slots, k);
    assert(slots[i0].0 == k);
    assert forall|e: CacheEntry<V>|
        keys_unique(#[trigger] with_entry(slots, k, e)) && slot_of(with_entry(slots, k, e), k)
            == Some(e) by {
        let w = with_entry(slots, k, e);
        assert forall|a: int, b: int| 0 <= a < b < w.len() implies w[a].0 != w[b].0 by {
            assert(w[a].0 == slots[a].0 && w[b].0 == slots[b].0);
        }
        lemma_slot_index(w, i0);
    }
    assert forall|e: CacheEntry<V>, j: K| j != k implies #[trigger] slot_of(
        with_entry(slots, k, e),
        j,
    ) == slot_of(slots, j) by {
        let w = with_entry(slots, k, e);
        assert(keys_unique(w));
        if has_slot(slots, j) {
            let i = slot_index(slots, j);
            assert(w[i] == slots[i]);
            lemma_slot_index(w, i);
            lemma_slot_index(slots, i);
        } else if has_slot(w, j) {
            let i = slot_index(w, j);
            assert(w[i] == slots[i]);
        }
    }
}

/// Demoting every slot keeps each key's value and leaves it `Cached`.
pub proof fn lemma_cleaned_slots<K, V>(slots: Seq<(K, CacheEntry<V>)>)
    requires
        keys_unique(slots),
    ensures
        keys_unique(cleaned(slots)),
        forall|j: K|
            #[trigger] slot_of(cleaned(slots), j) == match slot_of(slots, j) {
                Some(e) => Some(CacheEntry { value: e.value, state: EntryState::Cached }),
                None => None,
            },
{
    let c = cleaned(slots);
    assert forall|a: int, b: int| 0 <= a < b < c.len() implies c[a].0 != c[b].0 by {
        assert(c[a].0 == slots[a].0 && c[b].0 == slots[b].0);
    }
    assert forall|j: K|
        #[trigger] slot_of(c, j) == match slot_of(slots, j) {
            Some(e) => Some(CacheEntry { value: e.value, state: EntryState::Cached }),
            None => None,
        } by {
        if has_slot(slots, j) {
            let i = slot_index(slots, j);
            lemma_slot_index(slots, i);
            assert(c[i].0 == j);
            lemma_slot_index(c, i);
        } else if has_slot(c, j) {
            let i = slot_index(c, j);
            assert(slots[i].0 == j);
        }
    }
}

/// One key's cached state, boxed so that growing the cache never moves it.
struct Slot<K, V> {
    key: K,
    entry: Box<CacheEntry<V>>,
}

/// A non-iterable, lazily loaded map over a storage host.
///
/// A value lives in the host under the hash of the map's prefix followed by the
/// encoded key. Each key is read from the host at most once; changes stay in the
/// cache until `flush` writes them. Every operation that may reach the host is
/// handed the host explicitly. A map dropped before `flush` loses its pending
/// changes: nothing is written on its behalf after that.
pub struct LookupMap<K, V, H = Sha256> {
    prefix: Vec<u8>,
    cache: Vec<Slot<K, V>>,
    hasher: PhantomData<H>,
}

impl<K: BorshCodec, V: BorshCodec> LookupMap<K, V, Sha256> {
    /// An empty map over `prefix` that hashes keys with SHA-256.
    pub fn new(prefix: &[u8]) -> (r: Self)
        ensures
            r.wf(),
            r.prefix() == prefix@,
            r.slots() == Seq::<(K, CacheEntry<V>)>::empty(),
    {
        Self::new_with_hasher(prefix)
    }
}

impl<K: BorshCodec, V: BorshCodec, H: CryptoHasher> LookupMap<K, V, H> {
    pub closed spec fn prefix(&self) -> Seq<u8> {
        self.prefix@
    }

    /// The cache: each touched key with its entry, in the order first touched.
    pub closed spec fn slots(&self) -> Seq<(K, CacheEntry<V>)> {
        self.cache@.map_values(|s: Slot<K, V>| (s.key, *s.entry))
    }

    /// Each key has at most one slot.
    pub closed spec fn wf(&self) -> bool {
        forall|i: int, j: int|
            0 <= i < j < self.cache@.len() ==> self.cache@[i].key != self.cache@[j].key
    }

    pub proof fn lemma_wf(&self)
        ensures
            self.wf() <==> keys_unique(self.slots()),
    {
        if keys_unique(self.slots()) {
            assert forall|i: int, j: int| 0 <= i < j < self.cache@.len() implies self.cache@[i].key
                != self.cache@[j].key by {
                assert(self.slots()[i].0 != self.slots()[j].0);
            }
        }
    }

    /// Where the value of `k` lives in the storage host, for a map over `prefix`.
    pub open spec fn key_for(prefix: Seq<u8>, k: K) -> Seq<u8> {
        H::digest_of(prefix + K::encoding(k))
    }

    /// Where the value of `k` lives in the storage host.
    pub open spec fn storage_key(&self, k: K) -> Seq<u8> {
        Self::key_for(self.prefix(), k)
    }

    pub open spec fn cached(&self, k: K) -> Option<CacheEntry<V>> {
        slot_of(self.slots(), k)
    }

    /// The value that the host `s` holds for `k`.
    pub open spec fn stored(&self, s: Map<Seq<u8>, Seq<u8>>, k: K) -> Option<V> {
        if s.contains_key(self.storage_key(k)) {
            V::decoding(s[self.storage_key(k)])
        } else {
            None
        }
    }

    /// Loading `k` from `s` would not meet bytes that fail to decode.
    pub open spec fn loadable(&self, s: Map<Seq<u8>, Seq<u8>>, k: K) -> bool {
        ||| self.cached(k) is Some
        ||| !s.contains_key(self.storage_key(k))
        ||| V::decoding(s[self.storage_key(k)]) is Some
    }

    /// The entry of `k` once it has a slot: the cached one, or else what `s` holds, as `Cached`.
    pub open spec fn resolved_entry(&self, s: Map<Seq<u8>, Seq<u8>>, k: K) -> CacheEntry<V> {
        match self.cached(k) {
            Some(e) => e,
            None => CacheEntry { value: self.stored(s, k), state: EntryState::Cached },
        }
    }

    /// Every key but `k` has the same cached entry in `self` as in `other`.
    pub open spec fn agrees_except(&self, other: Self, k: K) -> bool {
        forall|j: K| j != k ==> #[trigger] self.cached(j) == other.cached(j)
    }

    /// The value of `k` as the map presents it over the host `s`.
    pub open spec fn value_of(&self, s: Map<Seq<u8>, Seq<u8>>, k: K) -> Option<V> {
        match self.cached(k) {
            Some(e) => e.value,
            None => self.stored(s, k),
        }
    }

    /// The cache once `k` has a slot, loaded from `s` if it had none.
    pub open spec fn resolved(&self, s: Map<Seq<u8>, Seq<u8>>, k: K) -> Seq<(K, CacheEntry<V>)> {
        if self.cached(k) is Some {
            self.slots()
        } else {
            self.slots().push((k, CacheEntry { value: self.stored(s, k), state: EntryState::Cached }))
        }
    }

    /// What giving `k` a slot costs: one read, unless it has one.
    pub open spec fn load_ops(&self, k: K) -> Seq<StorageOp> {
        if self.cached(k) is Some {
            Seq::empty()
        } else {
            seq![StorageOp::Read]
        }
    }

    /// The host `s` once the modified slots among `slots` have been written to it in order.
    pub open spec fn flushed(
        prefix: Seq<u8>,
        slots: Seq<(K, CacheEntry<V>)>,
        s: Map<Seq<u8>, Seq<u8>>,
    ) -> Map<Seq<u8>, Seq<u8>>
        decreases slots.len(),
    {
        if slots.len() == 0 {
            s
        } else {
            let before = Self::flushed(prefix, slots.drop_last(), s);
            let k = slots.last().0;
            let e = slots.last().1;
            if e.state == EntryState::Modified {
                match e.value {
                    Some(v) => before.insert(Self::key_for(prefix, k), V::encoding(v)),
                    None => before.remove(Self::key_for(prefix, k)),
                }
            } else {
                before
            }
        }
    }

    /// The operations that flushing `slots` charges: one per modified slot.
    pub open spec fn flush_ops(slots: Seq<(K, CacheEntry<V>)>) -> Seq<StorageOp>
        decreases slots.len(),
    {
        if slots.len() == 0 {
            Seq::empty()
        } else {
            let e = slots.last().1;
            let before = Self::flush_ops(slots.drop_last());
            if e.state == EntryState::Modified {
                match e.value {
                    Some(_) => before.push(StorageOp::Write),
                    None => before.push(StorageOp::Remove),
                }
            } else {
                before
            }
        }
    }

    /// An empty map over `prefix` that hashes keys with `H`.
    pub fn new_with_hasher(prefix: &[u8]) -> (r: Self)
        ensures
            r.wf(),
            r.prefix() == prefix@,
            r.slots() == Seq::<(K, CacheEntry<V>)>::empty(),
    {
        let r = LookupMap { prefix: copy_bytes(prefix), cache: Vec::new(), hasher: PhantomData };
        assert(r.slots() =~= Seq::<(K, CacheEntry<V>)>::empty());
        r
    }

    /// The storage key of `key` under `prefix`: the hash of the prefix followed by the encoded key.
    pub fn lookup_key(prefix: &[u8], key: &K) -> (r: [u8; 32])
        ensures
            r@ == H::digest_of(prefix@ + K::encoding(*key)),
    {
        let encoded = key.encode();
        let buffer = concat_bytes(prefix, encoded.as_slice());
        H::hash(buffer.as_slice())
    }

    /// Overwrites the value of `key` without reading the host; `None` deletes it on flush.
    pub fn set(&mut self, key: K, value: Option<V>)
        requires
            old(self).wf(),
        ensures
            final(self).wf(),
            final(self).prefix() == old(self).prefix(),
            final(self).slots() == set_in(old(self).slots(), key, value),
            final(self).cached(key) == Some(CacheEntry { value, state: EntryState::Modified }),
            final(self).agrees_except(*old(self), key),
    {
        let ghost old_slots = self.slots();
        proof {
            self.lemma_wf();
        }
        match self.find(&key) {
            Some(i) => {
                proof {
                    lemma_slot_index(old_slots, i as int);
                }
                let slot = &mut self.cache[i];
                *slot.entry.value_mut() = value;
                assert(self.slots() =~= with_entry(
                    old_slots,
                    key,
                    CacheEntry { value, state: EntryState::Modified },
                ));
                proof {
                    lemma_with_entry_slots(old_slots, key);
                    self.lemma_wf();
                }
            },
            None => {
                self.cache.push(Slot { key, entry: Box::new(CacheEntry::new_modified(value)) });
                assert(self.slots() =~= old_slots.push(
                    (key, CacheEntry { value, state: EntryState::Modified }),
                ));
                proof {
                    self.lemma_wf();
                    lemma_push_slots(old_slots, (key, CacheEntry { value, state: EntryState::Modified }));
                }
            },
        }
    }

    /// The value of `k`, loaded from `storage` on the first touch of `k`.
    pub fn get(&mut self, k: &K, storage: &mut Storage) -> (r: Option<&V>)
        requires
            old(self).wf(),
            old(storage).wf(),
            old(self).loadable(old(storage).contents(), *k),
        ensures
            final(self).wf(),
            final(self).prefix() == old(self).prefix(),
            final(self).slots() == old(self).resolved(old(storage).contents(), *k),
            final(storage).wf(),
            final(storage).contents() == old(storage).contents(),
            final(storage).ops() == old(storage).ops() + old(self).load_ops(*k),
            match r {
                Some(v) => old(self).value_of(old(storage).contents(), *k) == Some(*v),
                None => old(self).value_of(old(storage).contents(), *k) is None,
            },
            final(self).cached(*k) == Some(old(self).resolved_entry(old(storage).contents(), *k)),
            final(self).agrees_except(*old(self), *k),
    {
        let i = self.resolve(k, storage);
        self.cache[i].entry.value.as_ref()
    }

    /// The value of `k` for mutation, loaded from `storage` on the first touch of `k`.
    /// The slot counts as modified whether or not the value is then changed.
    pub fn get_mut(&mut self, k: &K, storage: &mut Storage) -> (r: Option<&mut V>)
        requires
            old(self).wf(),
            old(storage).wf(),
            old(self).loadable(old(storage).contents(), *k),
        ensures
            final(self).prefix() == old(self).prefix(),
            final(storage).wf(),
            final(storage).contents() == old(storage).contents(),
            final(storage).ops() == old(storage).ops() + old(self).load_ops(*k),
            r is Some == old(self).value_of(old(storage).contents(), *k) is Some,
            r matches Some(v) ==> old(self).value_of(old(storage).contents(), *k) == Some(*v),
            final(self).slots() == with_entry(
                old(self).resolved(old(storage).contents(), *k),
                *k,
                CacheEntry {
                    value: match r {
                        Some(v) => Some(*final(v)),
                        None => None,
                    },
                    state: EntryState::Modified,
                },
            ),
            final(self).wf(),
    {
        let i = self.resolve(k, storage);
        let ghost resolved = self.slots();
        proof {
            lemma_with_entry_slots(resolved, *k);
        }
        let slot = &mut self.cache[i];
        let r = slot.entry.value_mut().as_mut();
        proof {
            if r is Some {
                let e = CacheEntry { value: Some(*final(r->0)), state: EntryState::Modified };
                assert(keys_unique(with_entry(resolved, *k, e)));
            } else {
                let e = CacheEntry { value: None, state: EntryState::Modified };
                assert(keys_unique(with_entry(resolved, *k, e)));
            }
        }
        r
    }

    /// Sets the value of `k` to `v` and returns the previous value.
    pub fn insert(&mut self, k: K, v: V, storage: &mut Storage) -> (r: Option<V>)
        requires
            old(self).wf(),
            old(storage).wf(),
            old(self).loadable(old(storage).contents(), k),
        ensures
            final(self).wf(),
            final(self).prefix() == old(self).prefix(),
            final(self).slots() == with_entry(
                old(self).resolved(old(storage).contents(), k),
                k,
                CacheEntry { value: Some(v), state: EntryState::Modified },
            ),
            final(storage).wf(),
            final(storage).contents() == old(storage).contents(),
            final(storage).ops() == old(storage).ops() + old(self).load_ops(k),
            r == old(self).value_of(old(storage).contents(), k),
            final(self).cached(k) == Some(CacheEntry { value: Some(v), state: EntryState::Modified }),
            final(self).agrees_except(*old(self), k),
    {
        let i = self.resolve(&k, storage);
        let ghost resolved = self.slots();
        let ghost mid = *self;
        proof {
            lemma_with_entry_slots(resolved, k);
        }
        let r = self.cache[i].entry.replace(Some(v));
        assert(self.slots() =~= with_entry(
            resolved,
            k,
            CacheEntry { value: Some(v), state: EntryState::Modified },
        ));
        assert forall|j: K| j != k implies #[trigger] self.cached(j) == mid.cached(j) by {
            assert(self.cached(j) == slot_of(resolved, j));
        }
        r
    }

    /// Removes the value of `k` and returns it; the host forgets it on flush.
    pub fn remove(&mut self, k: &K, storage: &mut Storage) -> (r: Option<V>)
        requires
            old(self).wf(),
            old(storage).wf(),
            old(self).loadable(old(storage).contents(), *k),
        ensures
            final(self).wf(),
            final(self).prefix() == old(self).prefix(),
            final(self).slots() == with_entry(
                old(self).resolved(old(storage).contents(), *k),
                *k,
                CacheEntry { value: None, state: EntryState::Modified },
            ),
            final(storage).wf(),
            final(storage).contents() == old(storage).contents(),
            final(storage).ops() == old(storage).ops() + old(self).load_ops(*k),
            r == old(self).value_of(old(storage).contents(), *k),
            final(self).cached(*k) == Some(CacheEntry { value: None::<V>, state: EntryState::Modified }),
            final(self).agrees_except(*old(self), *k),
    {
        let i = self.resolve(k, storage);
        let ghost resolved = self.slots();
        let ghost mid = *self;
        proof {
            lemma_with_entry_slots(resolved, *k);
        }
        let r = self.cache[i].entry.replace(None);
        assert(self.slots() =~= with_entry(
            resolved,
            *k,
            CacheEntry { value: None, state: EntryState::Modified },
        ));
        assert forall|j: K| j != *k implies #[trigger] self.cached(j) == mid.cached(j) by {
            assert(self.cached(j) == slot_of(resolved, j));
        }
        r
    }

    /// What asking whether `k` has a value costs: nothing where the cache knows, else
    /// one existence check.
    pub open spec fn contains_ops(&self, k: K) -> Seq<StorageOp> {
        if self.cached(k) is Some {
            Seq::empty()
        } else {
            seq![StorageOp::HasKey]
        }
    }

    /// Whether `k` has a value. A key with a slot is answered from the cache; otherwise
    /// the host is asked whether it holds the key, and a key it lacks is cached as absent.
    pub fn contains_key(&mut self, k: &K, storage: &mut Storage) -> (r: bool)
        requires
            old(self).wf(),
            old(storage).wf(),
        ensures
            final(self).wf(),
            final(self).prefix() == old(self).prefix(),
            final(storage).wf(),
            final(storage).contents() == old(storage).contents(),
            final(storage).ops() == old(storage).ops() + old(self).contains_ops(*k),
            r == (match old(self).cached(*k) {
                Some(e) => e.value is Some,
                None => old(storage).contents().contains_key(old(self).storage_key(*k)),
            }),
            final(self).slots() == (if !r && old(self).cached(*k) is None {
                old(self).slots().push((*k, CacheEntry { value: None, state: EntryState::Cached }))
            } else {
                old(self).slots()
            }),
            final(self).cached(*k) == (if !r && old(self).cached(*k) is None {
                Some(CacheEntry { value: None, state: EntryState::Cached })
            } else {
                old(self).cached(*k)
            }),
            final(self).agrees_except(*old(self), *k),
    {
        proof {
            self.lemma_wf();
        }
        match self.find(k) {
            Some(i) => {
                proof {
                    lemma_slot_index(self.slots(), i as int);
                }
                assert(storage.ops() + Seq::<StorageOp>::empty() =~= storage.ops());
                self.cache[i].entry.value.is_some()
            },
            None => {
                let key = Self::lookup_key(self.prefix.as_slice(), k);
                let contains = storage.has_key(&key);
                if !contains {
                    let ghost old_slots = self.slots();
                    self.cache.push(
                        Slot { key: k.duplicate(), entry: Box::new(CacheEntry::new_cached(None)) },
                    );
                    assert(self.slots() =~= old_slots.push(
                        (*k, CacheEntry { value: None, state: EntryState::Cached }),
                    ));
                    proof {
                        self.lemma_wf();
                        lemma_push_slots(
                            old_slots,
                            (*k, CacheEntry { value: None, state: EntryState::Cached }),
                        );
                    }
                }
                contains
            },
        }
    }

    /// Writes every modified value to `storage`, or removes it there where the value is
    /// gone, in the order the keys were first touched, and marks every slot `Cached`.
    /// Values stay in the cache.
    pub fn flush(&mut self, storage: &mut Storage)
        requires
            old(self).wf(),
            old(storage).wf(),
        ensures
            final(self).wf(),
            final(self).prefix() == old(self).prefix(),
            final(self).slots() == cleaned(old(self).slots()),
            final(storage).wf(),
            final(storage).contents() == Self::flushed(
                old(self).prefix(),
                old(self).slots(),
                old(storage).contents(),
            ),
            final(storage).ops() == old(storage).ops() + Self::flush_ops(old(self).slots()),
            forall|j: K|
                #[trigger] final(self).cached(j) == match old(self).cached(j) {
                    Some(e) => Some(CacheEntry { value: e.value, state: EntryState::Cached }),
                    None => None,
                },
    {
        let ghost slots0 = self.slots();
        let ghost contents0 = storage.contents();
        let ghost ops0 = storage.ops();
        let ghost map0 = *self;
        let mut i: usize = 0;
        assert(slots0.take(0) =~= Seq::<(K, CacheEntry<V>)>::empty());
        assert(ops0 + Seq::<StorageOp>::empty() =~= ops0);
        while i < self.cache.len()
            invariant
                self.prefix@ == map0.prefix@,
                self.cache@.len() == slots0.len(),
                0 <= i <= slots0.len(),
                map0.slots() == slots0,
                forall|j: int| 0 <= j < i ==> #[trigger] self.slots()[j] == cleaned(slots0)[j],
                forall|j: int| i <= j < slots0.len() ==> #[trigger] self.slots()[j] == slots0[j],
                forall|j: int| 0 <= j < slots0.len() ==> #[trigger] self.cache@[j].key == slots0[j].0,
                storage.wf(),
                storage.contents() == Self::flushed(map0.prefix(), slots0.take(i as int), contents0),
                storage.ops() == ops0 + Self::flush_ops(slots0.take(i as int)),
            decreases slots0.len() - i,
        {
            assert(slots0.take(i + 1).drop_last() =~= slots0.take(i as int));
            assert(slots0.take(i + 1).last() == slots0[i as int]);
            assert(self.slots()[i as int] == slots0[i as int]);
            let ghost before = self.slots();
            if self.cache[i].entry.is_modified() {
                let key = Self::lookup_key(self.prefix.as_slice(), &self.cache[i].key);
                match &self.cache[i].entry.value {
                    Some(v) => {
                        let bytes = v.encode();
                        storage.write(&key, bytes.as_slice());
                    },
                    None => {
                        storage.remove(&key);
                    },
                }
                self.cache[i].entry.state = EntryState::Cached;
                assert(self.slots() =~= before.update(i as int, cleaned(slots0)[i as int]));
            } else {
                assert(cleaned(slots0)[i as int] == slots0[i as int]);
            }
            assert(ops0 + Self::flush_ops(slots0.take(i + 1)) =~= storage.ops());
            i = i + 1;
        }
        assert(slots0.take(slots0.len() as int) =~= slots0);
        assert(self.slots() =~= cleaned(slots0));
        proof {
            map0.lemma_wf();
            lemma_cleaned_slots(slots0);
            self.lemma_wf();
        }
    }

    /// The entry of `key`, loaded from `storage` on the first touch of `key`, for
    /// in-place insert-or-update.
    pub fn entry(&mut self, key: K, storage: &mut Storage) -> (e: Entry<'_, K, V>)
        requires
            old(self).wf(),
            old(storage).wf(),
            old(self).loadable(old(storage).contents(), key),
        ensures
            final(self).prefix() == old(self).prefix(),
            final(storage).wf(),
            final(storage).contents() == old(storage).contents(),
            final(storage).ops() == old(storage).ops() + old(self).load_ops(key),
            e.spec_key() == key,
            e.wf(),
            e is Occupied <==> old(self).value_of(old(storage).contents(), key) is Some,
            *e.slot() == slot_of(old(self).resolved(old(storage).contents(), key), key)->0,
            final(self).slots() == with_entry(
                old(self).resolved(old(storage).contents(), key),
                key,
                *final(e.slot()),
            ),
            final(self).wf(),
    {
        let i = self.resolve(&key, storage);
        let ghost resolved = self.slots();
        proof {
            lemma_with_entry_slots(resolved, key);
        }
        let entry: &mut CacheEntry<V> = &mut self.cache[i].entry;
        proof {
            assert(keys_unique(with_entry(resolved, key, *final(entry))));
        }
        if entry.value.is_some() {
            Entry::Occupied(OccupiedEntry { key, entry })
        } else {
            Entry::Vacant(VacantEntry { key, entry })
        }
    }

    /// Sets each pair of `entries`, in order, as `set` does.
    pub fn extend(&mut self, entries: Vec<(K, V)>)
        requires
            old(self).wf(),
        ensures
            final(self).wf(),
            final(self).prefix() == old(self).prefix(),
            final(self).slots() == extended(old(self).slots(), entries@),
    {
        let ghost slots0 = self.slots();
        let mut i: usize = 0;
        while i < entries.len()
            invariant
                self.wf(),
                self.prefix() == old(self).prefix(),
                0 <= i <= entries@.len(),
                self.slots() == extended(slots0, entries@.take(i as int)),
            decreases entries@.len() - i,
        {
            assert(entries@.take(i + 1).drop_last() =~= entries@.take(i as int));
            let key = entries[i].0.duplicate();
            let value = entries[i].1.duplicate();
            self.set(key, Some(value));
            i = i + 1;
        }
        assert(entries@.take(entries@.len() as int) =~= entries@);
    }

    fn find(&self, k: &K) -> (r: Option<usize>)
        requires
            self.wf(),
        ensures
            match r {
                Some(i) => i < self.slots().len() && self.slots()[i as int].0 == *k,
                None => !has_slot(self.slots(), *k),
            },
    {
        let mut i: usize = 0;
        while i < self.cache.len()
            invariant
                0 <= i <= self.cache@.len(),
                forall|j: int| 0 <= j < i ==> self.slots()[j].0 != *k,
            decreases self.cache@.len() - i,
        {
            if self.cache[i].key.same(k) {
                return Some(i);
            }
            i = i + 1;
        }
        None
    }

    fn load_element(prefix: &[u8], k: &K, storage: &mut Storage) -> (r: Option<V>)
        requires
            old(storage).wf(),
            old(storage).contents().contains_key(H::digest_of(prefix@ + K::encoding(*k)))
                ==> V::decoding(old(storage).contents()[H::digest_of(prefix@ + K::encoding(*k))])
                is Some,
        ensures
            final(storage).wf(),
            final(storage).contents() == old(storage).contents(),
            final(storage).ops() == old(storage).ops().push(StorageOp::Read),
            r == (if old(storage).contents().contains_key(H::digest_of(prefix@ + K::encoding(*k))) {
                V::decoding(old(storage).contents()[H::digest_of(prefix@ + K::encoding(*k))])
            } else {
                None
            }),
    {
        let key = Self::lookup_key(prefix, k);
        match storage.read(&key) {
            Some(bytes) => V::decode(bytes.as_slice()),
            None => None,
        }
    }

    /// Gives `k` a slot, loading it from `storage` if it has none, and returns its position.
    fn resolve(&mut self, k: &K, storage: &mut Storage) -> (i: usize)
        requires
            old(self).wf(),
            old(storage).wf(),
            old(self).loadable(old(storage).contents(), *k),
        ensures
            final(self).wf(),
            final(self).prefix() == old(self).prefix(),
            final(self).slots() == old(self).resolved(old(storage).contents(), *k),
            i < final(self).slots().len(),
            final(self).slots()[i as int].0 == *k,
            slot_index(final(self).slots(), *k) == i,
            final(self).cached(*k) == Some(final(self).slots()[i as int].1),
            final(storage).wf(),
            final(storage).contents() == old(storage).contents(),
            final(storage).ops() == old(storage).ops() + old(self).load_ops(*k),
            final(self).cached(*k) == Some(old(self).resolved_entry(old(storage).contents(), *k)),
            final(self).agrees_except(*old(self), *k),
    {
        proof {
            self.lemma_wf();
        }
        match self.find(k) {
            Some(i) => {
                proof {
                    lemma_slot_index(self.slots(), i as int);
                }
                assert(storage.ops() + Seq::<StorageOp>::empty() =~= storage.ops());
                i
            },
            None => {
                let value = Self::load_element(self.prefix.as_slice(), k, storage);
                let ghost old_slots = self.slots();
                self.cache.push(Slot { key: k.duplicate(), entry: Box::new(CacheEntry::new_cached(value)) });
                assert(self.slots() =~= old_slots.push((*k, CacheEntry { value, state: EntryState::Cached })));
                let i = self.cache.len() - 1;
                proof {
                    self.lemma_wf();
                    lemma_slot_index(self.slots(), i as int);
                    lemma_push_slots(old_slots, (*k, CacheEntry { value, state: EntryState::Cached }));
                }
                i
            },
        }
    }
}

} // verus!
