use small_sorted_map::inline::{INLINE_CAPACITY, MAX_ENTRIES};
use small_sorted_map::{PicoSortedMap, SmallSortedMap};

fn descending(n: u64) -> (Vec<u64>, Vec<u64>) {
    let mut keys = Vec::new();
    let mut values = Vec::new();
    for i in 0..n {
        keys.push(4096 - i * 2);
        values.push(i * 2 + 1);
    }
    (keys, values)
}

fn agree_on(n: u64) {
    let (keys, values) = descending(n);
    let small = SmallSortedMap::from_vecs(keys.clone(), values.clone());
    let pico = PicoSortedMap::from_vecs(keys.clone(), values.clone());
    assert_eq!(pico.len(), n as usize);
    assert_eq!(pico.keys(), small.keys());
    assert_eq!(pico.values(), small.values());
    for key in 4096 - 2 * n.max(4)..4100 {
        assert_eq!(pico.get(&key), small.get(&key));
    }
    for i in 0..keys.len() {
        assert_eq!(pico.get(&keys[i]), Some(values[i]));
    }
}

#[test]
fn bounded_construction_sorts_keys_and_moves_values_along() {
    let map = PicoSortedMap::from_vecs(vec![50, 10, 30], vec![500, 100, 300]);
    assert_eq!(map.keys(), &[10, 30, 50]);
    assert_eq!(map.values(), &[100, 300, 500]);
    assert_eq!(map.len(), 3);
}

#[test]
fn bounded_lookup_finds_present_and_reports_absent() {
    let map = PicoSortedMap::from_vecs(vec![50, 10, 30], vec![500, 100, 300]);
    assert_eq!(map.get(&30), Some(300));
    assert_eq!(map.get(&20), None);
    assert_eq!(map.get(&60), None);
}

#[test]
fn bounded_empty_map_holds_nothing() {
    let map = PicoSortedMap::with_capacity();
    assert_eq!(map.len(), 0);
    assert!(map.keys().is_empty());
    assert!(map.values().is_empty());
    assert_eq!(map.get(&0), None);
}

#[test]
fn inline_capacity_is_sixteen_entries() {
    assert_eq!(INLINE_CAPACITY, 16);
    assert_eq!(MAX_ENTRIES, usize::MAX / 32);
}

#[test]
fn parity_below_capacity() {
    agree_on(0);
    agree_on(1);
    agree_on(4);
    agree_on(15);
}

#[test]
fn parity_at_capacity() {
    agree_on(INLINE_CAPACITY as u64);
}

#[test]
fn parity_beyond_capacity() {
    agree_on(17);
    agree_on(32);
    agree_on(64);
    agree_on(256);
}

#[test]
fn parity_with_repeated_keys() {
    let keys: Vec<u64> = vec![5, 1, 5, 1, 5, 2, 2];
    let values: Vec<u64> = vec![50, 10, 51, 11, 52, 20, 21];
    let small = SmallSortedMap::from_vecs(keys.clone(), values.clone());
    let pico = PicoSortedMap::from_vecs(keys, values);
    assert_eq!(pico.keys(), &[1, 1, 2, 2, 5, 5, 5]);
    assert_eq!(pico.values(), &[10, 11, 20, 21, 50, 51, 52]);
    assert_eq!(pico.keys(), small.keys());
    assert_eq!(pico.values(), small.values());
    for key in 0..8u64 {
        assert_eq!(pico.get(&key), small.get(&key));
    }
    assert_eq!(pico.get(&5), Some(50));
}

#[test]
fn bounded_insert_of_new_key_appends_at_end() {
    let mut map = PicoSortedMap::from_vecs(vec![50, 10, 30], vec![500, 100, 300]);
    map.insert(20, 200);
    assert_eq!(map.len(), 4);
    assert_eq!(map.keys(), &[10, 30, 50, 20]);
    assert_eq!(map.values(), &[100, 300, 500, 200]);
    map.sort();
    assert_eq!(map.keys(), &[10, 20, 30, 50]);
    assert_eq!(map.values(), &[100, 200, 300, 500]);
    assert_eq!(map.get(&20), Some(200));
}

#[test]
fn bounded_overwrite_keeps_length_and_gives_second_value() {
    let mut map = PicoSortedMap::from_vecs(vec![50, 10, 30], vec![500, 100, 300]);
    map.insert(30, 1);
    map.insert(30, 2);
    assert_eq!(map.len(), 3);
    assert_eq!(map.get(&30), Some(2));
    assert_eq!(map.keys(), &[10, 30, 50]);
    assert_eq!(map.values(), &[100, 2, 500]);
}

#[test]
fn bounded_insert_past_capacity_spills_and_keeps_entries() {
    let mut map = PicoSortedMap::with_capacity();
    for i in 0..40u64 {
        map.insert(100 - i, i);
    }
    assert_eq!(map.len(), 40);
    map.sort();
    for i in 0..40u64 {
        assert_eq!(map.get(&(100 - i)), Some(i));
    }
    assert_eq!(map.get(&60), None);
    assert_eq!(map.get(&101), None);
    let keys = map.keys();
    for i in 1..keys.len() {
        assert!(keys[i - 1] < keys[i]);
    }
}

#[test]
fn bounded_lookup_before_resort_can_miss_appended_key() {
    let mut map = PicoSortedMap::from_vecs(vec![10, 20, 30], vec![1, 2, 3]);
    map.insert(5, 0);
    assert_eq!(map.get(&5), None);
    map.sort();
    assert_eq!(map.get(&5), Some(0));
}

#[test]
fn bounded_sort_of_spilled_map_keeps_order_of_equal_keys() {
    let mut keys: Vec<u64> = Vec::new();
    let mut values: Vec<u64> = Vec::new();
    for i in 0..48u64 {
        keys.push(i % 3);
        values.push(i);
    }
    let map = PicoSortedMap::from_vecs(keys, values);
    let stored_keys = map.keys();
    let stored_values = map.values();
    for i in 1..48 {
        assert!(stored_keys[i - 1] <= stored_keys[i]);
        if stored_keys[i - 1] == stored_keys[i] {
            assert!(stored_values[i - 1] < stored_values[i]);
        }
    }
    assert_eq!(map.get(&0), Some(0));
    assert_eq!(map.get(&1), Some(1));
    assert_eq!(map.get(&2), Some(2));
    assert_eq!(map.get(&3), None);
}

#[test]
fn empty_bounded_map_is_inline() {
    let map = PicoSortedMap::with_capacity();
    assert!(!map.spilled());
}

#[test]
fn bulk_load_spills_exactly_beyond_capacity() {
    for n in 0..=40u64 {
        let (keys, values) = descending(n);
        let map = PicoSortedMap::from_vecs(keys, values);
        assert_eq!(map.spilled(), n as usize > INLINE_CAPACITY);
    }
}

#[test]
fn bulk_load_of_few_entries_from_roomy_vectors_is_inline() {
    let mut keys: Vec<u64> = Vec::with_capacity(100);
    let mut values: Vec<u64> = Vec::with_capacity(100);
    for i in 0..3u64 {
        keys.push(9 - i);
        values.push(i);
    }
    let map = PicoSortedMap::from_vecs(keys, values);
    assert!(!map.spilled());
    assert_eq!(map.keys(), &[7, 8, 9]);
    assert_eq!(map.values(), &[2, 1, 0]);
}

#[test]
fn insert_spills_when_the_map_was_full() {
    let mut map = PicoSortedMap::with_capacity();
    for i in 0..INLINE_CAPACITY as u64 {
        map.insert(i, i * 10);
        assert!(!map.spilled());
    }
    assert_eq!(map.len(), INLINE_CAPACITY);
    map.insert(3, 33);
    assert!(!map.spilled());
    assert_eq!(map.len(), INLINE_CAPACITY);
    map.insert(100, 1000);
    assert!(map.spilled());
    assert_eq!(map.len(), INLINE_CAPACITY + 1);
    map.insert(101, 1010);
    assert!(map.spilled());
    map.sort();
    assert!(map.spilled());
    assert_eq!(map.get(&3), Some(33));
    assert_eq!(map.get(&100), Some(1000));
    assert_eq!(map.get(&101), Some(1010));
}
