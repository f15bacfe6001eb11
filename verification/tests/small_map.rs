use small_sorted_map::SmallSortedMap;

fn scenario() -> SmallSortedMap<u64, u64> {
    SmallSortedMap::from_vecs(vec![50, 10, 30], vec![500, 100, 300])
}

#[test]
fn construction_sorts_keys_and_moves_values_along() {
    let map = scenario();
    assert_eq!(map.keys(), &[10, 30, 50]);
    assert_eq!(map.values(), &[100, 300, 500]);
    assert_eq!(map.len(), 3);
}

#[test]
fn lookup_finds_present_and_reports_absent() {
    let map = scenario();
    assert_eq!(map.get(&30), Some(300));
    assert_eq!(map.get(&10), Some(100));
    assert_eq!(map.get(&50), Some(500));
    assert_eq!(map.get(&20), None);
    assert_eq!(map.get(&60), None);
    assert_eq!(map.get(&0), None);
}

#[test]
fn empty_map_holds_nothing() {
    let map: SmallSortedMap<u64, u64> = SmallSortedMap::with_capacity(8);
    assert_eq!(map.len(), 0);
    assert!(map.keys().is_empty());
    assert!(map.values().is_empty());
    assert_eq!(map.get(&0), None);
    assert_eq!(map.get(&u64::MAX), None);
}

#[test]
fn empty_bulk_load_gives_empty_map() {
    let map: SmallSortedMap<u64, u64> = SmallSortedMap::from_vecs(Vec::new(), Vec::new());
    assert_eq!(map.len(), 0);
    assert_eq!(map.get(&7), None);
}

#[test]
fn zero_capacity_map_still_takes_entries() {
    let mut map: SmallSortedMap<u64, u64> = SmallSortedMap::with_capacity(0);
    map.insert(4, 40);
    map.insert(2, 20);
    map.sort();
    assert_eq!(map.keys(), &[2, 4]);
    assert_eq!(map.get(&2), Some(20));
    assert_eq!(map.get(&4), Some(40));
}

#[test]
fn round_trip_returns_every_value() {
    let keys: Vec<u64> = vec![9, 3, 27, 1, 81, 243, 5];
    let values: Vec<u64> = vec![90, 30, 270, 10, 810, 2430, 50];
    let map = SmallSortedMap::from_vecs(keys.clone(), values.clone());
    for i in 0..keys.len() {
        assert_eq!(map.get(&keys[i]), Some(values[i]));
    }
}

#[test]
fn round_trip_from_descending_keys() {
    let mut keys: Vec<u64> = Vec::new();
    let mut values: Vec<usize> = Vec::new();
    for i in 0..32u64 {
        keys.push(4096 - i * 2);
        values.push((i * 2 + 1) as usize);
    }
    let map = SmallSortedMap::from_vecs(keys.clone(), values.clone());
    for i in 0..keys.len() {
        assert_eq!(map.get(&keys[i]), Some(values[i]));
    }
    for absent in 256..288u64 {
        assert_eq!(map.get(&absent), None);
    }
}

#[test]
fn keys_are_sorted_after_construction() {
    let map = SmallSortedMap::from_vecs(vec![7u64, 7, 1, 9, 3, 3, 8, 0], vec![0u64, 1, 2, 3, 4, 5, 6, 7]);
    let keys = map.keys();
    assert_eq!(keys, &[0, 1, 3, 3, 7, 7, 8, 9]);
    for i in 1..keys.len() {
        assert!(keys[i - 1] <= keys[i]);
    }
}

#[test]
fn keys_are_sorted_after_resort() {
    let mut map = SmallSortedMap::from_vecs(vec![20u64, 40], vec![2u64, 4]);
    map.insert(30, 3);
    map.insert(10, 1);
    map.insert(50, 5);
    assert_eq!(map.keys(), &[20, 40, 30, 10, 50]);
    map.sort();
    assert_eq!(map.keys(), &[10, 20, 30, 40, 50]);
    assert_eq!(map.values(), &[1, 2, 3, 4, 5]);
}

#[test]
fn sorting_sorted_map_changes_nothing() {
    let mut map = scenario();
    map.sort();
    assert_eq!(map.keys(), &[10, 30, 50]);
    assert_eq!(map.values(), &[100, 300, 500]);
}

#[test]
fn equal_keys_keep_their_order() {
    let map = SmallSortedMap::from_vecs(vec![5u64, 1, 5, 1, 5], vec!['a', 'b', 'c', 'd', 'e']);
    assert_eq!(map.keys(), &[1, 1, 5, 5, 5]);
    assert_eq!(map.values(), &['b', 'd', 'a', 'c', 'e']);
    assert_eq!(map.len(), 5);
}

#[test]
fn lookup_of_repeated_key_gives_first_given_value() {
    let map = SmallSortedMap::from_vecs(vec![5u64, 1, 5, 1, 5], vec!['a', 'b', 'c', 'd', 'e']);
    assert_eq!(map.get(&5), Some('a'));
    assert_eq!(map.get(&1), Some('b'));
}

#[test]
fn absent_below_above_and_between() {
    let map = SmallSortedMap::from_vecs(vec![40u64, 20, 60], vec![4u64, 2, 6]);
    assert_eq!(map.get(&19), None);
    assert_eq!(map.get(&0), None);
    assert_eq!(map.get(&61), None);
    assert_eq!(map.get(&u64::MAX), None);
    assert_eq!(map.get(&21), None);
    assert_eq!(map.get(&39), None);
    assert_eq!(map.get(&41), None);
    assert_eq!(map.get(&59), None);
}

#[test]
fn overwrite_keeps_length_and_gives_second_value() {
    let mut map = scenario();
    map.insert(30, 1);
    assert_eq!(map.len(), 3);
    assert_eq!(map.get(&30), Some(1));
    map.insert(30, 2);
    assert_eq!(map.len(), 3);
    assert_eq!(map.get(&30), Some(2));
    assert_eq!(map.keys(), &[10, 30, 50]);
    assert_eq!(map.values(), &[100, 2, 500]);
}

#[test]
fn overwrite_replaces_first_of_repeated_key() {
    let mut map = SmallSortedMap::from_vecs(vec![3u64, 3, 1], vec![30u64, 31, 10]);
    map.insert(3, 99);
    assert_eq!(map.keys(), &[1, 3, 3]);
    assert_eq!(map.values(), &[10, 99, 31]);
    assert_eq!(map.get(&3), Some(99));
}

#[test]
fn insert_of_new_key_appends_at_end() {
    let mut map = scenario();
    map.insert(20, 200);
    assert_eq!(map.len(), 4);
    assert_eq!(map.keys(), &[10, 30, 50, 20]);
    assert_eq!(map.values(), &[100, 300, 500, 200]);
}

#[test]
fn insert_then_sort_then_lookup() {
    let mut map = scenario();
    map.insert(20, 200);
    map.sort();
    assert_eq!(map.get(&20), Some(200));
    assert_eq!(map.keys(), &[10, 20, 30, 50]);
    assert_eq!(map.values(), &[100, 200, 300, 500]);
    assert_eq!(map.get(&10), Some(100));
    assert_eq!(map.get(&30), Some(300));
    assert_eq!(map.get(&50), Some(500));
}

#[test]
fn lookup_before_resort_can_miss_appended_key() {
    let mut map = SmallSortedMap::from_vecs(vec![10u64, 20, 30], vec![1u64, 2, 3]);
    map.insert(5, 0);
    assert_eq!(map.keys(), &[10, 20, 30, 5]);
    assert_eq!(map.get(&5), None);
    map.sort();
    assert_eq!(map.get(&5), Some(0));
}

#[test]
fn lookup_before_resort_never_gives_value_of_other_key() {
    let mut map = SmallSortedMap::from_vecs(vec![10u64, 20, 30], vec![1u64, 2, 3]);
    map.insert(25, 9);
    map.insert(15, 8);
    for key in 0..40u64 {
        if let Some(value) = map.get(&key) {
            let at = map.keys().iter().position(|k| *k == key).unwrap();
            assert_eq!(map.values()[at], value);
        }
    }
}

#[test]
fn insert_into_empty_map() {
    let mut map: SmallSortedMap<u64, u64> = SmallSortedMap::with_capacity(4);
    map.insert(7, 70);
    assert_eq!(map.len(), 1);
    assert_eq!(map.get(&7), Some(70));
    map.insert(7, 71);
    assert_eq!(map.len(), 1);
    assert_eq!(map.get(&7), Some(71));
}

#[test]
fn signed_keys_sort_below_zero_first() {
    let map = SmallSortedMap::from_vecs(vec![3i32, -7, 0, -1], vec!["c", "a", "z", "m"]);
    assert_eq!(map.keys(), &[-7, -1, 0, 3]);
    assert_eq!(map.values(), &["a", "m", "z", "c"]);
    assert_eq!(map.get(&-1), Some("m"));
    assert_eq!(map.get(&-2), None);
}

#[test]
fn pair_keys_sort_by_first_then_second() {
    let map = SmallSortedMap::from_vecs(vec![(2u8, 1u8), (1, 9), (2, 0), (1, 3)], vec![21u32, 19, 20, 13]);
    assert_eq!(map.keys(), &[(1, 3), (1, 9), (2, 0), (2, 1)]);
    assert_eq!(map.get(&(2, 0)), Some(20));
    assert_eq!(map.get(&(2, 2)), None);
}

#[test]
fn single_entry_map() {
    let map = SmallSortedMap::from_vecs(vec![42u64], vec![1u8]);
    assert_eq!(map.get(&42), Some(1));
    assert_eq!(map.get(&41), None);
    assert_eq!(map.get(&43), None);
}

#[test]
fn many_entries_beyond_reserved_capacity() {
    let mut map: SmallSortedMap<u64, u64> = SmallSortedMap::with_capacity(2);
    for i in 0..100u64 {
        map.insert(1000 - i, i);
    }
    assert_eq!(map.len(), 100);
    map.sort();
    for i in 0..100u64 {
        assert_eq!(map.get(&(1000 - i)), Some(i));
    }
    assert_eq!(map.get(&900), None);
    assert_eq!(map.get(&1001), None);
}
