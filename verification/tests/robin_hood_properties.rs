use open_addressing::{Key, MapError, RobinHashMap};

/// The slot at which the map starts to look for a `u64` key.
fn home_of(key: u64, capacity: u64) -> u64 {
    fxhash::hash64(&key.to_le_bytes()[..]) % capacity
}

/// The first `count` keys, counting up from zero, whose home slot is `home`.
fn keys_at(home: u64, capacity: u64, count: usize) -> Vec<u64> {
    let mut keys = Vec::new();
    let mut candidate = 0u64;
    while keys.len() < count {
        if home_of(candidate, capacity) == home {
            keys.push(candidate);
        }
        candidate += 1;
    }
    keys
}

/// The probe length stored with `key`, read off the bucket that an update returns.
fn probe_length_of(map: &mut RobinHashMap<u64, u64>, key: u64) -> usize {
    let value = *map.get(&key).unwrap();
    let bucket = map.insert(key, value).unwrap().unwrap();
    assert_eq!(bucket.key, key);
    assert_eq!(bucket.value, value);
    bucket.probe_length
}

#[test]
fn round_trip_up_to_capacity() {
    let mut map = RobinHashMap::new(16);
    for key in 0..16u64 {
        assert!(map.insert(key, key * 7 + 1).unwrap().is_none());
    }
    assert_eq!(map.len(), 16);
    for key in 0..16u64 {
        assert_eq!(map.get(&key), Some(&(key * 7 + 1)));
        assert!(map.contains(&key));
    }
    assert_eq!(map.get(&16), None);
}

#[test]
fn round_trip_gives_last_written_value() {
    let mut map = RobinHashMap::new(4);
    assert!(map.insert("x", 1).unwrap().is_none());
    assert!(map.insert("y", 2).unwrap().is_none());
    assert_eq!(map.insert("x", 3).unwrap().unwrap().value, 1);
    assert_eq!(map.insert("x", 4).unwrap().unwrap().value, 3);
    assert_eq!(map.get(&"x"), Some(&4));
    assert_eq!(map.get(&"y"), Some(&2));
    assert_eq!(map.len(), 2);
}

#[test]
fn update_returns_previous_value_and_keeps_count() {
    let mut map = RobinHashMap::new(8);
    for key in 0..5u64 {
        map.insert(key, key).unwrap();
    }
    let before = map.len();
    let bound = map.max_psl();
    let bucket = map.insert(3, 300).unwrap().unwrap();
    assert_eq!(bucket.key, 3);
    assert_eq!(bucket.value, 3);
    assert_eq!(map.get(&3), Some(&300));
    assert_eq!(map.len(), before);
    assert_eq!(map.max_psl(), bound);
    for key in [0u64, 1, 2, 4] {
        assert_eq!(map.get(&key), Some(&key));
    }
}

#[test]
fn delete_removes_key_and_keeps_the_others() {
    for victim in 0..8u64 {
        let mut map = RobinHashMap::new(8);
        for key in 0..8u64 {
            map.insert(key, key + 100).unwrap();
        }
        assert_eq!(map.delete(&victim), Some(victim + 100));
        assert!(!map.contains(&victim));
        assert_eq!(map.get(&victim), None);
        assert_eq!(map.len(), 7);
        for key in 0..8u64 {
            if key != victim {
                assert_eq!(map.get(&key), Some(&(key + 100)));
            }
        }
        assert_eq!(map.delete(&victim), None);
    }
}

#[test]
fn probe_lengths_count_steps_from_home_slot() {
    let keys = keys_at(2, 8, 3);
    let mut map = RobinHashMap::new(8);
    for key in &keys {
        map.insert(*key, 0).unwrap();
    }
    assert_eq!(probe_length_of(&mut map, keys[0]), 1);
    assert_eq!(probe_length_of(&mut map, keys[1]), 2);
    assert_eq!(probe_length_of(&mut map, keys[2]), 3);
    assert_eq!(map.max_psl(), 3);
}

#[test]
fn probe_sequence_wraps_at_the_end_of_the_table() {
    let keys = keys_at(7, 8, 3);
    let mut map = RobinHashMap::new(8);
    for key in &keys {
        map.insert(*key, *key).unwrap();
    }
    assert_eq!(probe_length_of(&mut map, keys[2]), 3);
    for key in &keys {
        assert_eq!(map.get(key), Some(key));
    }
    assert_eq!(map.delete(&keys[0]), Some(keys[0]));
    assert_eq!(probe_length_of(&mut map, keys[1]), 1);
    assert_eq!(probe_length_of(&mut map, keys[2]), 2);
}

#[test]
fn entry_closer_to_home_is_displaced() {
    let at_zero = keys_at(0, 8, 2);
    let at_one = keys_at(1, 8, 1);
    let (a, b, c) = (at_zero[0], at_zero[1], at_one[0]);
    let mut map = RobinHashMap::new(8);
    map.insert(a, 1).unwrap();
    map.insert(c, 3).unwrap();
    assert_eq!(probe_length_of(&mut map, c), 1);
    // b meets c in slot 1 with probe length 2 against 1, takes the slot, and c moves on.
    assert!(map.insert(b, 2).unwrap().is_none());
    assert_eq!(probe_length_of(&mut map, a), 1);
    assert_eq!(probe_length_of(&mut map, b), 2);
    assert_eq!(probe_length_of(&mut map, c), 2);
    assert_eq!(map.get(&a), Some(&1));
    assert_eq!(map.get(&b), Some(&2));
    assert_eq!(map.get(&c), Some(&3));
}

#[test]
fn entry_as_far_from_home_is_passed() {
    let at_zero = keys_at(0, 8, 2);
    let at_one = keys_at(1, 8, 1);
    let (a, b, c) = (at_zero[0], at_zero[1], at_one[0]);
    let mut map = RobinHashMap::new(8);
    map.insert(a, 1).unwrap();
    map.insert(b, 2).unwrap();
    // c meets b in slot 1 with probe length 1 against 2 and goes on to slot 2.
    map.insert(c, 3).unwrap();
    assert_eq!(probe_length_of(&mut map, a), 1);
    assert_eq!(probe_length_of(&mut map, b), 2);
    assert_eq!(probe_length_of(&mut map, c), 2);
}

#[test]
fn backward_shift_closes_the_gap() {
    let keys = keys_at(3, 8, 3);
    let next = keys_at(6, 8, 1)[0];
    let mut map = RobinHashMap::new(8);
    for key in &keys {
        map.insert(*key, *key).unwrap();
    }
    map.insert(next, next).unwrap();
    assert_eq!(map.delete(&keys[0]), Some(keys[0]));
    // The two entries behind the freed slot move back; the one in its home slot stays.
    assert_eq!(probe_length_of(&mut map, keys[1]), 1);
    assert_eq!(probe_length_of(&mut map, keys[2]), 2);
    assert_eq!(probe_length_of(&mut map, next), 1);
    assert_eq!(map.get(&keys[1]), Some(&keys[1]));
    assert_eq!(map.get(&keys[2]), Some(&keys[2]));
    assert!(!map.contains(&keys[0]));
}

#[test]
fn delete_keeps_the_bound_on_probe_lengths() {
    let keys = keys_at(5, 8, 4);
    let mut map = RobinHashMap::new(8);
    for key in &keys {
        map.insert(*key, 0).unwrap();
    }
    assert_eq!(map.max_psl(), 4);
    for key in &keys {
        map.delete(key);
        assert_eq!(map.max_psl(), 4);
    }
    assert_eq!(map.len(), 0);
}

#[test]
fn displacing_entry_with_longest_probe_raises_the_bound() {
    let crowd = keys_at(0, 8, 5);
    let settled = keys_at(4, 8, 1)[0];
    let mut map = RobinHashMap::new(8);
    for key in &crowd[..4] {
        map.insert(*key, *key).unwrap();
    }
    map.insert(settled, settled).unwrap();
    assert_eq!(map.max_psl(), 4);
    // The fifth key of slot 0 reaches slot 4 with probe length 5 and displaces
    // the entry that sits there in its home slot.
    map.insert(crowd[4], crowd[4]).unwrap();
    assert_eq!(map.max_psl(), 5);
    assert_eq!(map.get(&crowd[4]), Some(&crowd[4]));
    assert_eq!(map.get(&settled), Some(&settled));
    assert_eq!(probe_length_of(&mut map, crowd[4]), 5);
    assert_eq!(probe_length_of(&mut map, settled), 2);
    for key in &crowd {
        assert!(map.contains(key));
    }
}

#[test]
fn concrete_scenario_with_capacity_eight() {
    let mut map = RobinHashMap::new(8);
    assert!(map.insert("a", 1).unwrap().is_none());
    assert!(map.insert("b", 2).unwrap().is_none());
    assert!(map.insert("c", 3).unwrap().is_none());
    assert_eq!(map.get(&"a"), Some(&1));
    assert_eq!(map.delete(&"b"), Some(2));
    assert!(!map.contains(&"b"));
    assert_eq!(map.get(&"a"), Some(&1));
    assert_eq!(map.get(&"c"), Some(&3));
}

#[test]
fn full_table_refuses_a_new_key() {
    let mut map = RobinHashMap::new(4);
    for key in 0..4u64 {
        assert_eq!(map.insert(key, key * 2).map(|b| b.is_none()), Ok(true));
    }
    assert_eq!(map.insert(4, 8).map(|b| b.is_none()), Err(MapError::TableFull));
    assert_eq!(map.len(), 4);
    assert!(!map.contains(&4));
    for key in 0..4u64 {
        assert_eq!(map.get(&key), Some(&(key * 2)));
    }
}

#[test]
fn full_table_still_takes_updates_and_frees_slots() {
    let mut map = RobinHashMap::new(3);
    for key in 0..3u64 {
        map.insert(key, key).unwrap();
    }
    assert_eq!(map.insert(1, 11).unwrap().unwrap().value, 1);
    assert_eq!(map.get(&1), Some(&11));
    assert_eq!(map.insert(9, 9).map(|b| b.is_none()), Err(MapError::TableFull));
    assert_eq!(map.delete(&0), Some(0));
    assert!(map.insert(9, 9).unwrap().is_none());
    assert_eq!(map.get(&9), Some(&9));
    assert_eq!(map.get(&2), Some(&2));
}

#[test]
fn single_slot_table() {
    let mut map = RobinHashMap::new(1);
    assert!(map.insert(7u64, 70).unwrap().is_none());
    assert_eq!(map.insert(8u64, 80).map(|b| b.is_none()), Err(MapError::TableFull));
    assert_eq!(map.get(&7), Some(&70));
    assert_eq!(map.delete(&7), Some(70));
    assert_eq!(map.get(&7), None);
    assert!(map.insert(8u64, 80).unwrap().is_none());
    assert_eq!(map.max_psl(), 1);
}

#[test]
fn zero_capacity_is_refused() {
    let made: Result<RobinHashMap<u64, u64>, MapError> = RobinHashMap::try_new(0);
    assert_eq!(made.err(), Some(MapError::InvalidCapacity));
}

#[test]
fn try_new_makes_an_empty_map() {
    let map: RobinHashMap<u64, u64> = RobinHashMap::try_new(5).unwrap();
    assert_eq!(map.capacity(), 5);
    assert_eq!(map.max_psl(), 0);
    assert_eq!(map.len(), 0);
    assert!(!map.contains(&0));
}

#[test]
fn lookups_in_an_empty_map_find_nothing() {
    let mut map: RobinHashMap<String, i32> = RobinHashMap::new(4);
    assert_eq!(map.get(&String::from("none")), None);
    assert!(!map.contains(&String::from("none")));
    assert_eq!(map.delete(&String::from("none")), None);
    assert_eq!(map.len(), 0);
}

#[test]
fn keys_of_several_types() {
    let mut by_name: RobinHashMap<String, u8> = RobinHashMap::new(4);
    by_name.insert(String::from("one"), 1).unwrap();
    by_name.insert(String::from("two"), 2).unwrap();
    assert_eq!(by_name.get(&String::from("two")), Some(&2));

    let mut by_pair: RobinHashMap<(i32, char), bool> = RobinHashMap::new(4);
    by_pair.insert((-1, 'x'), true).unwrap();
    by_pair.insert((-1, 'y'), false).unwrap();
    assert_eq!(by_pair.get(&(-1, 'x')), Some(&true));
    assert_eq!(by_pair.get(&(-1, 'y')), Some(&false));
    assert_eq!(by_pair.get(&(1, 'x')), None);

    let mut by_flag: RobinHashMap<bool, i64> = RobinHashMap::new(2);
    by_flag.insert(true, 1).unwrap();
    by_flag.insert(false, 0).unwrap();
    assert_eq!(by_flag.get(&true), Some(&1));
    assert_eq!(by_flag.delete(&false), Some(0));
}

#[test]
fn encodings_of_keys() {
    let mut out = Vec::new();
    0x0102_0304_0506_0708u64.encode(&mut out);
    assert_eq!(out, vec![8, 7, 6, 5, 4, 3, 2, 1]);

    let mut out = vec![9u8];
    (-2i32).encode(&mut out);
    assert_eq!(out, vec![9, 0xfe, 0xff, 0xff, 0xff]);

    let mut out = Vec::new();
    true.encode(&mut out);
    false.encode(&mut out);
    assert_eq!(out, vec![1, 0]);

    let mut out = Vec::new();
    'A'.encode(&mut out);
    assert_eq!(out, vec![65, 0, 0, 0]);

    let mut out = Vec::new();
    "hé".encode(&mut out);
    assert_eq!(out, vec![0x68, 0xc3, 0xa9]);

    let mut out = Vec::new();
    String::from("ab").encode(&mut out);
    assert_eq!(out, vec![0x61, 0x62]);

    let mut out = Vec::new();
    (1u8, 0x0203u16).encode(&mut out);
    assert_eq!(out, vec![1, 3, 2]);

    let mut out = Vec::new();
    (-1i8).encode(&mut out);
    (-1i16).encode(&mut out);
    (-1i64).encode(&mut out);
    assert_eq!(out, vec![0xff; 11]);

    let mut out = Vec::new();
    7u32.encode(&mut out);
    7usize.encode(&mut out);
    (-7isize).encode(&mut out);
    assert_eq!(out, vec![7, 0, 0, 0, 7, 0, 0, 0, 0, 0, 0, 0, 0xf9, 0xff, 0xff, 0xff, 0xff, 0xff, 0xff, 0xff]);
}

#[test]
fn sameness_of_keys() {
    assert!(5u64.same(&5));
    assert!(!5u64.same(&6));
    assert!("abc".same(&"abc"));
    assert!(!"abc".same(&"abd"));
    assert!(!"abc".same(&"ab"));
    assert!(String::from("k").same(&String::from("k")));
    assert!((1i32, 'a').same(&(1, 'a')));
    assert!(!(1i32, 'a').same(&(1, 'b')));
    assert!(!true.same(&false));
}
