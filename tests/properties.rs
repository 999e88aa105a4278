use lookup_map::bytes::{bytes_eq, concat_bytes};
use lookup_map::{
    BorshCodec, CacheEntry, Entry, EntryState, Keccak256, LookupMap, Sha256, Storage, StorageOp,
};

fn count(storage: &Storage, op: StorageOp) -> usize {
    storage.operations().iter().filter(|o| **o == op).count()
}

#[test]
fn round_trip_through_flush() {
    let mut storage = Storage::new();
    let mut map = LookupMap::<u64, u64, Sha256>::new(b"m");
    assert_eq!(map.insert(11, 99, &mut storage), None);
    map.flush(&mut storage);
    let mut fresh = LookupMap::<u64, u64, Sha256>::new(b"m");
    assert_eq!(fresh.get(&11, &mut storage), Some(&99));
}

#[test]
fn other_prefix_does_not_see_value() {
    let mut storage = Storage::new();
    let mut map = LookupMap::<u64, u64, Sha256>::new(b"m");
    map.insert(11, 99, &mut storage);
    map.flush(&mut storage);
    let mut other = LookupMap::<u64, u64, Sha256>::new(b"n");
    assert_eq!(other.get(&11, &mut storage), None);
}

#[test]
fn unflushed_insert_is_lost() {
    let mut storage = Storage::new();
    let mut map = LookupMap::<u64, u64, Sha256>::new(b"m");
    map.insert(11, 99, &mut storage);
    drop(map);
    let mut fresh = LookupMap::<u64, u64, Sha256>::new(b"m");
    assert_eq!(fresh.get(&11, &mut storage), None);
}

#[test]
fn insert_returns_previous() {
    let mut storage = Storage::new();
    let mut map = LookupMap::<u64, u64, Sha256>::new(b"m");
    assert_eq!(map.insert(3, 30, &mut storage), None);
    assert_eq!(map.insert(3, 31, &mut storage), Some(30));
    assert_eq!(map.get(&3, &mut storage), Some(&31));
}

#[test]
fn remove_clears() {
    let mut storage = Storage::new();
    let mut map = LookupMap::<u64, u64, Sha256>::new(b"m");
    map.insert(4, 40, &mut storage);
    map.flush(&mut storage);
    let key = LookupMap::<u64, u64, Sha256>::lookup_key(b"m", &4);
    assert!(storage.has_key(&key));
    assert_eq!(map.remove(&4, &mut storage), Some(40));
    assert_eq!(map.get(&4, &mut storage), None);
    map.flush(&mut storage);
    assert!(!storage.has_key(&key));
    assert_eq!(count(&storage, StorageOp::Remove), 1);
}

#[test]
fn remove_absent_key() {
    let mut storage = Storage::new();
    let mut map = LookupMap::<u64, u64, Sha256>::new(b"m");
    assert_eq!(map.remove(&4, &mut storage), None);
}

#[test]
fn negative_cache_short_circuit() {
    let mut storage = Storage::new();
    let mut map = LookupMap::<u64, u64, Sha256>::new(b"m");
    assert!(!map.contains_key(&8, &mut storage));
    assert_eq!(count(&storage, StorageOp::HasKey), 1);
    assert!(!map.contains_key(&8, &mut storage));
    assert!(!map.contains_key(&8, &mut storage));
    assert_eq!(count(&storage, StorageOp::HasKey), 1);
    assert_eq!(map.get(&8, &mut storage), None);
    assert_eq!(count(&storage, StorageOp::Read), 0);
}

#[test]
fn contains_key_of_stored_value() {
    let mut storage = Storage::new();
    let mut map = LookupMap::<u64, u64, Sha256>::new(b"m");
    map.insert(2, 20, &mut storage);
    map.flush(&mut storage);
    let mut fresh = LookupMap::<u64, u64, Sha256>::new(b"m");
    assert!(fresh.contains_key(&2, &mut storage));
    assert_eq!(count(&storage, StorageOp::Read), 1);
    assert_eq!(count(&storage, StorageOp::HasKey), 1);
}

#[test]
fn get_reads_host_once() {
    let mut storage = Storage::new();
    let mut map = LookupMap::<u64, u64, Sha256>::new(b"m");
    for _ in 0..5 {
        assert_eq!(map.get(&1, &mut storage), None);
    }
    assert_eq!(count(&storage, StorageOp::Read), 1);
}

#[test]
fn flush_idempotence() {
    let mut storage = Storage::new();
    let mut map = LookupMap::<u64, u64, Sha256>::new(b"m");
    map.insert(1, 10, &mut storage);
    map.insert(2, 20, &mut storage);
    map.remove(&3, &mut storage);
    map.flush(&mut storage);
    assert_eq!(count(&storage, StorageOp::Write), 2);
    assert_eq!(count(&storage, StorageOp::Remove), 1);
    let before = storage.operations().len();
    map.flush(&mut storage);
    assert_eq!(storage.operations().len(), before);
}

#[test]
fn get_mut_marks_modified() {
    let mut storage = Storage::new();
    let mut map = LookupMap::<u64, u64, Sha256>::new(b"m");
    map.insert(1, 10, &mut storage);
    map.flush(&mut storage);
    let writes = count(&storage, StorageOp::Write);
    let v = map.get_mut(&1, &mut storage).unwrap();
    *v += 5;
    map.flush(&mut storage);
    assert_eq!(count(&storage, StorageOp::Write), writes + 1);
    // A mutable borrow without a change is still written.
    let _ = map.get_mut(&1, &mut storage);
    map.flush(&mut storage);
    assert_eq!(count(&storage, StorageOp::Write), writes + 2);
    let mut fresh = LookupMap::<u64, u64, Sha256>::new(b"m");
    assert_eq!(fresh.get(&1, &mut storage), Some(&15));
}

#[test]
fn set_does_not_read() {
    let mut storage = Storage::new();
    let mut map = LookupMap::<u64, u64, Sha256>::new(b"m");
    map.set(6, Some(60));
    assert_eq!(map.get(&6, &mut storage), Some(&60));
    map.set(6, None);
    assert_eq!(map.get(&6, &mut storage), None);
    assert!(storage.operations().is_empty());
}

#[test]
fn entry_or_insert_equals_manual_insert() {
    let mut storage = Storage::new();
    let mut a = LookupMap::<u64, u64, Sha256>::new(b"m");
    let mut b = LookupMap::<u64, u64, Sha256>::new(b"m");
    assert_eq!(*a.entry(9, &mut storage).or_insert(70), 70);
    if b.get(&9, &mut storage).is_none() {
        b.insert(9, 70, &mut storage);
    }
    assert_eq!(a.get(&9, &mut storage), Some(&70));
    assert_eq!(b.get(&9, &mut storage), Some(&70));
}

#[test]
fn entry_counting_scenario() {
    let mut storage = Storage::new();
    let mut count = LookupMap::<u64, u64, Sha256>::new(b"m");
    for ch in [7, 2, 4, 7, 4, 1, 7] {
        let counter = count.entry(ch, &mut storage).or_insert(0);
        *counter += 1;
    }
    assert_eq!(count.get(&4, &mut storage), Some(&2));
    assert_eq!(count.get(&7, &mut storage), Some(&3));
    assert_eq!(count.get(&1, &mut storage), Some(&1));
    assert_eq!(count.get(&8, &mut storage), None);
}

#[test]
fn entry_variants() {
    let mut storage = Storage::new();
    let mut map = LookupMap::<u64, u64, Sha256>::new(b"m");
    match map.entry(1, &mut storage) {
        Entry::Vacant(v) => {
            assert_eq!(*v.key(), 1);
            *v.insert(5) += 1;
        }
        Entry::Occupied(_) => panic!("expected a vacant entry"),
    }
    match map.entry(1, &mut storage) {
        Entry::Occupied(mut o) => {
            assert_eq!(*o.key(), 1);
            assert_eq!(*o.get(), 6);
            *o.get_mut() += 1;
            assert_eq!(o.insert(10), 7);
            assert_eq!(o.remove(), 10);
        }
        Entry::Vacant(_) => panic!("expected an occupied entry"),
    }
    assert_eq!(map.get(&1, &mut storage), None);
    let made = map.entry(2, &mut storage).or_insert_with(|| 42);
    assert_eq!(*made, 42);
    let kept = map.entry(2, &mut storage).or_insert_with(|| unreachable!());
    assert_eq!(*kept, 42);
}

#[test]
fn cache_entry_state_machine() {
    let mut e = CacheEntry::new_cached(Some(1u64));
    assert!(!e.is_modified());
    assert_eq!(e.replace(Some(2)), Some(1));
    assert!(e.is_modified());
    assert_eq!(e.replace_state(EntryState::Cached), EntryState::Modified);
    assert_eq!(*e.value(), Some(2));
    *e.value_mut() = None;
    assert!(e.is_modified());
    assert!(CacheEntry::new_modified(None::<u64>).is_modified());
}

#[test]
fn borsh_encodings() {
    assert_eq!(0x0102030405060708u64.encode(), vec![8, 7, 6, 5, 4, 3, 2, 1]);
    assert_eq!(u64::decode(&[8, 7, 6, 5, 4, 3, 2, 1]), Some(0x0102030405060708));
    assert_eq!(u64::decode(&[1, 2, 3]), None);
    assert_eq!(200u8.encode(), vec![200]);
    assert_eq!(u8::decode(&[200]), Some(200));
    assert_eq!(u8::decode(&[]), None);
}

#[test]
fn storage_keys_are_digests() {
    // The storage key of `b'c'` under prefix "ab" is the digest of "abc".
    let sha = LookupMap::<u8, u8, Sha256>::lookup_key(b"ab", &b'c');
    assert_eq!(
        sha.to_vec(),
        vec![
            0xba, 0x78, 0x16, 0xbf, 0x8f, 0x01, 0xcf, 0xea, 0x41, 0x41, 0x40, 0xde, 0x5d, 0xae,
            0x22, 0x23, 0xb0, 0x03, 0x61, 0xa3, 0x96, 0x17, 0x7a, 0x9c, 0xb4, 0x10, 0xff, 0x61,
            0xf2, 0x00, 0x15, 0xad
        ]
    );
    let keccak = LookupMap::<u8, u8, Keccak256>::lookup_key(b"ab", &b'c');
    assert_eq!(
        keccak.to_vec(),
        vec![
            0x4e, 0x03, 0x65, 0x7a, 0xea, 0x45, 0xa9, 0x4f, 0xc7, 0xd4, 0x7b, 0xa8, 0x26, 0xc8,
            0xd6, 0x67, 0xc0, 0xd1, 0xe6, 0xe3, 0x3a, 0x64, 0xa0, 0x36, 0xec, 0x44, 0xf5, 0x8f,
            0xa1, 0x2d, 0x6c, 0x45
        ]
    );
}

#[test]
fn storage_host_basics() {
    let mut storage = Storage::new();
    assert_eq!(storage.read(b"k"), None);
    storage.write(b"k", b"v1");
    storage.write(b"k", b"v2");
    assert_eq!(storage.read(b"k"), Some(b"v2".to_vec()));
    storage.remove(b"k");
    assert!(!storage.has_key(b"k"));
    assert_eq!(
        storage.operations(),
        &[
            StorageOp::Read,
            StorageOp::Write,
            StorageOp::Write,
            StorageOp::Read,
            StorageOp::Remove,
            StorageOp::HasKey
        ]
    );
}

#[test]
fn byte_helpers() {
    assert!(bytes_eq(b"abc", b"abc"));
    assert!(!bytes_eq(b"abc", b"abd"));
    assert!(!bytes_eq(b"ab", b"abc"));
    assert_eq!(concat_bytes(b"ab", b"cd"), b"abcd".to_vec());
}
