use lookup_map::{Keccak256, LookupMap, Storage};
use rand::seq::SliceRandom;
use rand::{Rng, SeedableRng};
use std::collections::HashMap;

#[test]
fn test_insert() {
    let mut storage = Storage::new();
    let mut map = LookupMap::new(b"m");
    let mut rng = rand_xorshift::XorShiftRng::seed_from_u64(0);
    for _ in 0..500 {
        let key = rng.gen::<u64>();
        let value = rng.gen::<u64>();
        map.insert(key, value, &mut storage);
    }
}

#[test]
fn test_insert_has_key() {
    let mut storage = Storage::new();
    let mut map = LookupMap::new(b"m");
    let mut rng = rand_xorshift::XorShiftRng::seed_from_u64(0);
    let mut key_to_value = HashMap::new();
    for _ in 0..100 {
        let key = rng.gen::<u64>();
        let value = rng.gen::<u64>();
        map.insert(key, value, &mut storage);
        key_to_value.insert(key, value);
    }
    // Non existing
    for _ in 0..100 {
        let key = rng.gen::<u64>();
        assert_eq!(map.contains_key(&key, &mut storage), key_to_value.contains_key(&key));
    }
    // Existing
    for (key, _) in key_to_value.iter() {
        assert!(map.contains_key(key, &mut storage));
    }
}

#[test]
fn test_insert_remove() {
    let mut storage = Storage::new();
    let mut map = LookupMap::new(b"m");
    let mut rng = rand_xorshift::XorShiftRng::seed_from_u64(1);
    let mut keys = vec![];
    let mut key_to_value = HashMap::new();
    for _ in 0..100 {
        let key = rng.gen::<u64>();
        let value = rng.gen::<u64>();
        keys.push(key);
        key_to_value.insert(key, value);
        map.insert(key, value, &mut storage);
    }
    keys.shuffle(&mut rng);
    for key in keys {
        let actual = map.remove(&key, &mut storage).unwrap();
        assert_eq!(actual, key_to_value[&key]);
    }
}

#[test]
fn test_remove_last_reinsert() {
    let mut storage = Storage::new();
    let mut map = LookupMap::new(b"m");
    let key1 = 1u64;
    let value1 = 2u64;
    map.insert(key1, value1, &mut storage);
    let key2 = 3u64;
    let value2 = 4u64;
    map.insert(key2, value2, &mut storage);

    let actual_value2 = map.remove(&key2, &mut storage).unwrap();
    assert_eq!(actual_value2, value2);

    let actual_insert_value2 = map.insert(key2, value2, &mut storage);
    assert_eq!(actual_insert_value2, None);
}

#[test]
fn test_insert_override_remove() {
    let mut storage = Storage::new();
    let mut map = LookupMap::new(b"m");
    let mut rng = rand_xorshift::XorShiftRng::seed_from_u64(2);
    let mut keys = vec![];
    let mut key_to_value = HashMap::new();
    for _ in 0..100 {
        let key = rng.gen::<u64>();
        let value = rng.gen::<u64>();
        keys.push(key);
        key_to_value.insert(key, value);
        map.insert(key, value, &mut storage);
    }
    keys.shuffle(&mut rng);
    for key in &keys {
        let value = rng.gen::<u64>();
        let actual = map.insert(*key, value, &mut storage).unwrap();
        assert_eq!(actual, key_to_value[key]);
        key_to_value.insert(*key, value);
    }
    keys.shuffle(&mut rng);
    for key in keys {
        let actual = map.remove(&key, &mut storage).unwrap();
        assert_eq!(actual, key_to_value[&key]);
    }
}

#[test]
fn test_get_non_existent() {
    let mut storage = Storage::new();
    let mut map = LookupMap::new(b"m");
    let mut rng = rand_xorshift::XorShiftRng::seed_from_u64(3);
    let mut key_to_value = HashMap::new();
    for _ in 0..500 {
        let key = rng.gen::<u64>() % 20_000;
        let value = rng.gen::<u64>();
        key_to_value.insert(key, value);
        map.insert(key, value, &mut storage);
    }
    for _ in 0..500 {
        let key = rng.gen::<u64>() % 20_000;
        assert_eq!(map.get(&key, &mut storage), key_to_value.get(&key));
    }
}

#[test]
fn test_extend() {
    let mut storage = Storage::new();
    let mut map = LookupMap::new(b"m");
    let mut rng = rand_xorshift::XorShiftRng::seed_from_u64(4);
    let mut key_to_value = HashMap::new();
    for _ in 0..100 {
        let key = rng.gen::<u64>();
        let value = rng.gen::<u64>();
        key_to_value.insert(key, value);
        map.insert(key, value, &mut storage);
    }
    for _ in 0..10 {
        let mut tmp = vec![];
        for _ in 0..=(rng.gen::<u64>() % 20 + 1) {
            let key = rng.gen::<u64>();
            let value = rng.gen::<u64>();
            tmp.push((key, value));
        }
        key_to_value.extend(tmp.iter().cloned());
        map.extend(tmp.iter().cloned().collect());
    }

    for (key, value) in key_to_value {
        assert_eq!(*map.get(&key, &mut storage).unwrap(), value);
    }
}

#[test]
fn flush_on_drop() {
    let mut storage = Storage::new();
    let mut map = LookupMap::<_, _, Keccak256>::new_with_hasher(b"m");

    // Set a value, which does not write to storage yet
    map.set(5u8, Some(8u8));

    // Create duplicate which references same data
    assert_eq!(*map.get(&5, &mut storage).unwrap(), 8);

    let storage_key = LookupMap::<u8, u8, Keccak256>::lookup_key(b"m", &5);
    assert!(!storage.has_key(&storage_key));

    map.flush(&mut storage);
    drop(map);

    let mut dup_map = LookupMap::<u8, u8, Keccak256>::new_with_hasher(b"m");

    // New map can now load the value
    assert_eq!(*dup_map.get(&5, &mut storage).unwrap(), 8);
}
