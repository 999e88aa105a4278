use vstd::prelude::*;

use crate::cache_entry::{CacheEntry, EntryState};
use crate::codec::BorshCodec;
use crate::hash::CryptoHasher;
use crate::lookup_map::{
    all_clean, cleaned, has_slot, keys_unique, slot_index, slot_of, with_entry, LookupMap,
    lemma_push_slots, lemma_slot_index, lemma_with_entry_slots,
};

verus! {

/// What the host `m` holds under `d`.
pub open spec fn entry_at(m: Map<Seq<u8>, Seq<u8>>, d: Seq<u8>) -> Option<Seq<u8>> {
    if m.contains_key(d) {
        Some(m[d])
    } else {
        None
    }
}

/// No modified slot of another key shares the storage key of `k`.
pub open spec fn no_collision<K: BorshCodec, V: BorshCodec, H: CryptoHasher>(
    prefix: Seq<u8>,
    slots: Seq<(K, CacheEntry<V>)>,
    k: K,
) -> bool {
    forall|i: int|
        0 <= i < slots.len() && (#[trigger] slots[i]).0 != k && slots[i].1.state
            == EntryState::Modified ==> LookupMap::<K, V, H>::key_for(prefix, slots[i].0)
            != LookupMap::<K, V, H>::key_for(prefix, k)
}

/// What flushing `slots` leaves under the storage key of `k`, where no other modified
/// slot shares that key: the slot of `k` decides if it is modified, else the host stays.
pub proof fn lemma_flushed_at<K: BorshCodec, V: BorshCodec, H: CryptoHasher>(
    prefix: Seq<u8>,
    slots: Seq<(K, CacheEntry<V>)>,
    s: Map<Seq<u8>, Seq<u8>>,
    k: K,
)
    requires
        keys_unique(slots),
        no_collision::<K, V, H>(prefix, slots, k),
    ensures
        entry_at(LookupMap::<K, V, H>::flushed(prefix, slots, s), LookupMap::<K, V, H>::key_for(prefix, k))
            == (match slot_of(slots, k) {
            Some(e) => if e.state == EntryState::Modified {
                match e.value {
                    Some(v) => Some(V::encoding(v)),
                    None => None,
                }
            } else {
                entry_at(s, LookupMap::<K, V, H>::key_for(prefix, k))
            },
            None => entry_at(s, LookupMap::<K, V, H>::key_for(prefix, k)),
        }),
    decreases slots.len(),
{
    let d = LookupMap::<K, V, H>::key_for(prefix, k);
    if slots.len() == 0 {
        assert(!has_slot(slots, k));
    } else {
        let init = slots.drop_last();
        let last = slots.last();
        assert(slots =~= init.push(last));
        lemma_push_slots(init, last);
        assert forall|i: int|
            0 <= i < init.len() && (#[trigger] init[i]).0 != k && init[i].1.state
                == EntryState::Modified implies LookupMap::<K, V, H>::key_for(prefix, init[i].0)
            != d by {
            assert(slots[i] == init[i]);
        }
        lemma_flushed_at::<K, V, H>(prefix, init, s, k);
        if last.0 != k && last.1.state == EntryState::Modified {
            assert(slots[slots.len() - 1] == last);
        }
    }
}

/// Flushing slots that are all clean writes nothing and charges nothing.
pub proof fn lemma_flush_clean<K: BorshCodec, V: BorshCodec, H: CryptoHasher>(
    prefix: Seq<u8>,
    slots: Seq<(K, CacheEntry<V>)>,
    s: Map<Seq<u8>, Seq<u8>>,
)
    requires
        all_clean(slots),
    ensures
        LookupMap::<K, V, H>::flushed(prefix, slots, s) == s,
        LookupMap::<K, V, H>::flush_ops(slots) == Seq::<crate::storage::StorageOp>::empty(),
    decreases slots.len(),
{
    if slots.len() > 0 {
        let init = slots.drop_last();
        assert forall|i: int| 0 <= i < init.len() implies (#[trigger] init[i]).1.state
            == EntryState::Cached by {
            assert(slots[i] == init[i]);
        }
        assert(slots[slots.len() - 1].1.state == EntryState::Cached);
        lemma_flush_clean::<K, V, H>(prefix, init, s);
    }
}

/// The cache once `k` has a slot: keys stay unique, `k` finds its resolved entry, and every
/// other slot is where it was.
pub proof fn lemma_resolved<K: BorshCodec, V: BorshCodec, H: CryptoHasher>(
    m: LookupMap<K, V, H>,
    s: Map<Seq<u8>, Seq<u8>>,
    k: K,
)
    requires
        m.wf(),
    ensures
        keys_unique(m.resolved(s, k)),
        has_slot(m.resolved(s, k), k),
        slot_of(m.resolved(s, k), k) == Some(
            match m.cached(k) {
                Some(e) => e,
                None => CacheEntry { value: m.stored(s, k), state: EntryState::Cached },
            },
        ),
        forall|i: int|
            0 <= i < m.resolved(s, k).len() && (#[trigger] m.resolved(s, k)[i]).0 != k ==> i
                < m.slots().len() && m.resolved(s, k)[i] == m.slots()[i],
{
    m.lemma_wf();
    let r = m.resolved(s, k);
    if m.cached(k) is None {
        let e = CacheEntry { value: m.stored(s, k), state: EntryState::Cached };
        assert(r == m.slots().push((k, e)));
        assert(keys_unique(r)) by {
            assert forall|i: int, j: int| 0 <= i < j < r.len() implies r[i].0 != r[j].0 by {
                if j == m.slots().len() {
                    assert(r[j].0 == k);
                    assert(r[i] == m.slots()[i]);
                    if r[i].0 == k {
                        assert(has_slot(m.slots(), k));
                    }
                } else {
                    assert(r[i] == m.slots()[i] && r[j] == m.slots()[j]);
                }
            }
        }
        lemma_push_slots(m.slots(), (k, e));
        lemma_slot_index(r, m.slots().len() as int);
    } else {
        let i = slot_index(m.slots(), k);
        lemma_slot_index(m.slots(), i);
    }
}

/// Round trip: a value inserted under `k` and flushed is what a fresh map over the same
/// prefix reads back, provided no other modified key of the map shares the storage key
/// of `k`.
pub proof fn lemma_insert_flush_round_trip<K: BorshCodec, V: BorshCodec, H: CryptoHasher>(
    m: LookupMap<K, V, H>,
    s: Map<Seq<u8>, Seq<u8>>,
    k: K,
    v: V,
    inserted: LookupMap<K, V, H>,
    fresh: LookupMap<K, V, H>,
)
    requires
        m.wf(),
        m.loadable(s, k),
        no_collision::<K, V, H>(m.prefix(), m.slots(), k),
        inserted.prefix() == m.prefix(),
        inserted.slots() == with_entry(
            m.resolved(s, k),
            k,
            CacheEntry { value: Some(v), state: EntryState::Modified },
        ),
        fresh.prefix() == m.prefix(),
        fresh.slots() == Seq::<(K, CacheEntry<V>)>::empty(),
    ensures
        fresh.loadable(LookupMap::<K, V, H>::flushed(inserted.prefix(), inserted.slots(), s), k),
        fresh.value_of(LookupMap::<K, V, H>::flushed(inserted.prefix(), inserted.slots(), s), k)
            == Some(v),
{
    let e = CacheEntry { value: Some(v), state: EntryState::Modified };
    let r = m.resolved(s, k);
    lemma_resolved(m, s, k);
    lemma_with_entry_slots(r, k);
    let slots = inserted.slots();
    assert(no_collision::<K, V, H>(m.prefix(), slots, k)) by {
        assert forall|i: int|
            0 <= i < slots.len() && (#[trigger] slots[i]).0 != k && slots[i].1.state
                == EntryState::Modified implies LookupMap::<K, V, H>::key_for(m.prefix(), slots[i].0)
            != LookupMap::<K, V, H>::key_for(m.prefix(), k) by {
            assert(with_entry(r, k, e)[i] == r[i]);
            assert(r[i] == m.slots()[i]);
        }
    }
    lemma_flushed_at::<K, V, H>(m.prefix(), slots, s, k);
    V::lemma_decode_encode(v);
    assert(!has_slot(fresh.slots(), k));
}

/// Inserting under `k` twice: the second insert returns the first value.
pub proof fn lemma_insert_returns_previous<K: BorshCodec, V: BorshCodec, H: CryptoHasher>(
    m: LookupMap<K, V, H>,
    s: Map<Seq<u8>, Seq<u8>>,
    k: K,
    v1: V,
    inserted: LookupMap<K, V, H>,
)
    requires
        m.wf(),
        m.loadable(s, k),
        inserted.slots() == with_entry(
            m.resolved(s, k),
            k,
            CacheEntry { value: Some(v1), state: EntryState::Modified },
        ),
    ensures
        inserted.wf(),
        inserted.loadable(s, k),
        inserted.value_of(s, k) == Some(v1),
{
    lemma_resolved(m, s, k);
    lemma_with_entry_slots(m.resolved(s, k), k);
    inserted.lemma_wf();
}

/// Insert then remove: the removal returns the value, a later read finds nothing, and
/// once flushed the host holds nothing under the storage key of `k`, provided no other
/// modified key of the map shares that storage key.
pub proof fn lemma_remove_clears<K: BorshCodec, V: BorshCodec, H: CryptoHasher>(
    m: LookupMap<K, V, H>,
    s: Map<Seq<u8>, Seq<u8>>,
    k: K,
    v: V,
    inserted: LookupMap<K, V, H>,
    removed: LookupMap<K, V, H>,
)
    requires
        m.wf(),
        m.loadable(s, k),
        inserted.prefix() == m.prefix(),
        inserted.slots() == with_entry(
            m.resolved(s, k),
            k,
            CacheEntry { value: Some(v), state: EntryState::Modified },
        ),
        removed.prefix() == m.prefix(),
        removed.slots() == with_entry(
            inserted.resolved(s, k),
            k,
            CacheEntry { value: None, state: EntryState::Modified },
        ),
    ensures
        inserted.wf(),
        inserted.loadable(s, k),
        inserted.value_of(s, k) == Some(v),
        removed.wf(),
        removed.loadable(s, k),
        removed.value_of(s, k) is None,
        removed.resolved(s, k) == removed.slots(),
        no_collision::<K, V, H>(m.prefix(), m.slots(), k) ==> !LookupMap::<K, V, H>::flushed(
            removed.prefix(),
            removed.slots(),
            s,
        ).contains_key(removed.storage_key(k)),
{
    let e1 = CacheEntry { value: Some(v), state: EntryState::Modified };
    let e2 = CacheEntry { value: None::<V>, state: EntryState::Modified };
    let r = m.resolved(s, k);
    lemma_resolved(m, s, k);
    lemma_with_entry_slots(r, k);
    inserted.lemma_wf();
    assert(inserted.resolved(s, k) == inserted.slots());
    lemma_with_entry_slots(inserted.slots(), k);
    removed.lemma_wf();
    if no_collision::<K, V, H>(m.prefix(), m.slots(), k) {
        let slots = removed.slots();
        assert(no_collision::<K, V, H>(m.prefix(), slots, k)) by {
            assert forall|i: int|
                0 <= i < slots.len() && (#[trigger] slots[i]).0 != k && slots[i].1.state
                    == EntryState::Modified implies LookupMap::<K, V, H>::key_for(
                m.prefix(),
                slots[i].0,
            ) != LookupMap::<K, V, H>::key_for(m.prefix(), k) by {
                assert(with_entry(inserted.slots(), k, e2)[i] == inserted.slots()[i]);
                assert(with_entry(r, k, e1)[i] == r[i]);
                assert(r[i] == m.slots()[i]);
            }
        }
        lemma_flushed_at::<K, V, H>(m.prefix(), slots, s, k);
    }
}

/// Once `contains_key` has found `k` absent, asking again is answered from the cache:
/// it again says absent and charges the host nothing.
pub proof fn lemma_absent_key_answered_from_cache<K: BorshCodec, V: BorshCodec, H: CryptoHasher>(
    m: LookupMap<K, V, H>,
    s: Map<Seq<u8>, Seq<u8>>,
    k: K,
    checked: LookupMap<K, V, H>,
)
    requires
        m.wf(),
        !(match m.cached(k) {
            Some(e) => e.value is Some,
            None => s.contains_key(m.storage_key(k)),
        }),
        checked.slots() == (if m.cached(k) is None {
            m.slots().push((k, CacheEntry { value: None, state: EntryState::Cached }))
        } else {
            m.slots()
        }),
    ensures
        checked.contains_ops(k) == Seq::<crate::storage::StorageOp>::empty(),
        !(match checked.cached(k) {
            Some(e) => e.value is Some,
            None => s.contains_key(checked.storage_key(k)),
        }),
{
    lemma_resolved(m, s, k);
    if m.cached(k) is None {
        assert(!m.loadable(s, k) || m.stored(s, k) is None);
        assert(checked.slots() == m.resolved(s, k));
    } else {
        assert(checked.slots() == m.resolved(s, k));
    }
}

/// Flushing twice in a row: the second flush writes nothing and charges nothing.
pub proof fn lemma_flush_idempotent<K: BorshCodec, V: BorshCodec, H: CryptoHasher>(
    m: LookupMap<K, V, H>,
    flushed_once: LookupMap<K, V, H>,
    s: Map<Seq<u8>, Seq<u8>>,
)
    requires
        flushed_once.slots() == cleaned(m.slots()),
    ensures
        LookupMap::<K, V, H>::flushed(flushed_once.prefix(), flushed_once.slots(), s) == s,
        LookupMap::<K, V, H>::flush_ops(flushed_once.slots()) == Seq::<
            crate::storage::StorageOp,
        >::empty(),
        cleaned(flushed_once.slots()) == flushed_once.slots(),
{
    let slots = flushed_once.slots();
    assert(all_clean(slots));
    lemma_flush_clean::<K, V, H>(flushed_once.prefix(), slots, s);
    assert(cleaned(slots) =~= slots);
}

/// On an absent key, `entry(k).or_insert(d)` leaves the cache as reading `k`, inserting
/// `d` and reading `k` again does, and both present `d` as the value of `k`.
pub proof fn lemma_or_insert_matches_insert<K: BorshCodec, V: BorshCodec, H: CryptoHasher>(
    m: LookupMap<K, V, H>,
    s: Map<Seq<u8>, Seq<u8>>,
    k: K,
    d: V,
    via_entry: LookupMap<K, V, H>,
    read: LookupMap<K, V, H>,
    inserted: LookupMap<K, V, H>,
    read_again: LookupMap<K, V, H>,
)
    requires
        m.wf(),
        m.loadable(s, k),
        m.value_of(s, k) is None,
        via_entry.slots() == with_entry(
            m.resolved(s, k),
            k,
            CacheEntry { value: Some(d), state: EntryState::Modified },
        ),
        read.slots() == m.resolved(s, k),
        inserted.slots() == with_entry(
            read.resolved(s, k),
            k,
            CacheEntry { value: Some(d), state: EntryState::Modified },
        ),
        read_again.slots() == inserted.resolved(s, k),
    ensures
        via_entry.slots() == read_again.slots(),
        via_entry.value_of(s, k) == Some(d),
        read_again.value_of(s, k) == Some(d),
{
    let e = CacheEntry { value: Some(d), state: EntryState::Modified };
    lemma_resolved(m, s, k);
    let r = m.resolved(s, k);
    assert(read.cached(k) is Some);
    assert(read.resolved(s, k) == r);
    lemma_with_entry_slots(r, k);
    assert(inserted.cached(k) is Some);
}

} // verus!
