use open_addressing::{OpenHashMap, Slot};
use std::hash::Hasher;

/// The digest of the little-endian bytes of `key`.
fn digest_of(key: u64) -> u64 {
    let mut hasher = std::collections::hash_map::DefaultHasher::new();
    hasher.write(&key.to_le_bytes());
    hasher.finish()
}

/// The first `count` keys, counting up from zero, whose probe sequence starts at `start`.
fn keys_from(start: u64, capacity: u64, count: usize) -> Vec<u64> {
    let mut keys = Vec::new();
    let mut candidate = 0u64;
    while keys.len() < count {
        if digest_of(candidate) % capacity == start {
            keys.push(candidate);
        }
        candidate += 1;
    }
    keys
}

#[test]
fn hash_reduces_the_digest_of_the_encoding() {
    for key in [0u64, 1, 42, u64::MAX] {
        assert_eq!(OpenHashMap::<u64, u64>::hash(&key, 10), digest_of(key) % 10);
        assert_eq!(OpenHashMap::<u64, u64>::hash(&key, 1), 0);
        assert_eq!(OpenHashMap::<u64, u64>::hash(&key, u64::MAX), digest_of(key) % u64::MAX);
    }
}

#[test]
fn new_map_has_only_empty_slots() {
    let map: OpenHashMap<u64, u64> = OpenHashMap::new(6);
    assert_eq!(map.capacity(), 6);
    assert_eq!(map.slot_count(), 6);
    for key in 0..20u64 {
        assert!(matches!(map.find(key), Slot::Empty));
    }
}

#[test]
fn map_without_slots_can_be_made() {
    let map: OpenHashMap<u64, u64> = OpenHashMap::new(0);
    assert_eq!(map.capacity(), 0);
    assert_eq!(map.slot_count(), 0);
}

#[test]
fn colliding_keys_take_the_next_slots() {
    let keys = keys_from(8, 10, 3);
    let mut map = OpenHashMap::new(10);
    for key in &keys {
        assert!(map.insert(*key, *key + 1));
    }
    for key in &keys {
        match map.find(*key) {
            Slot::Occupied((k, v)) => {
                assert_eq!(*k, *key);
                assert_eq!(*v, *key + 1);
            }
            _ => panic!("the key is in the map"),
        }
    }
}

#[test]
fn delete_marks_the_slot_where_the_probe_sequence_starts() {
    let keys = keys_from(3, 8, 2);
    let mut map = OpenHashMap::new(8);
    map.insert(keys[0], 10);
    map.insert(keys[1], 20);
    // The second key sits one slot on; deleting it empties the first key's slot.
    match map.delete(keys[1]) {
        Slot::Occupied((k, v)) => {
            assert_eq!(k, keys[0]);
            assert_eq!(v, 10);
        }
        _ => panic!("the slot held the first key"),
    }
    assert!(matches!(map.find(keys[0]), Slot::Empty));
    match map.find(keys[1]) {
        Slot::Occupied((k, v)) => {
            assert_eq!(*k, keys[1]);
            assert_eq!(*v, 20);
        }
        _ => panic!("the search passes the deleted slot"),
    }
    assert!(matches!(map.delete(keys[1]), Slot::Deleted));
}

#[test]
fn delete_of_an_unused_slot_gives_empty() {
    let mut map: OpenHashMap<u64, u64> = OpenHashMap::new(4);
    assert!(matches!(map.delete(1), Slot::Empty));
    assert!(matches!(map.delete(1), Slot::Deleted));
}

#[test]
fn insert_takes_a_deleted_slot() {
    let keys = keys_from(0, 2, 3);
    let mut map = OpenHashMap::new(2);
    assert!(map.insert(keys[0], 1));
    assert!(map.insert(keys[1], 2));
    assert!(!map.insert(keys[2], 3));
    map.delete(keys[0]);
    assert!(map.insert(keys[2], 3));
    match map.find(keys[2]) {
        Slot::Occupied((_, v)) => assert_eq!(*v, 3),
        _ => panic!("the key took the deleted slot"),
    }
    match map.find(keys[1]) {
        Slot::Occupied((_, v)) => assert_eq!(*v, 2),
        _ => panic!("the other key stays"),
    }
}

#[test]
fn search_in_a_full_table_ends() {
    let mut map = OpenHashMap::new(3);
    assert!(map.insert(1u64, 1));
    assert!(map.insert(2u64, 2));
    assert!(map.insert(3u64, 3));
    assert!(matches!(map.find(4), Slot::Empty));
    assert!(!map.insert(4, 4));
    assert!(map.insert(2, 22));
    match map.find(2) {
        Slot::Occupied((_, v)) => assert_eq!(*v, 22),
        _ => panic!("the key is in the map"),
    }
}

#[test]
fn clone_of_a_slot_keeps_its_kind() {
    let slot: Slot<u64, u64> = Slot::Occupied((1, 2));
    match slot.clone() {
        Slot::Occupied((k, v)) => {
            assert_eq!(k, 1);
            assert_eq!(v, 2);
        }
        _ => panic!("the clone holds the entry"),
    }
    assert!(matches!(Slot::<u64, u64>::Empty.clone(), Slot::Empty));
    assert!(matches!(Slot::<u64, u64>::Deleted.clone(), Slot::Deleted));
}
