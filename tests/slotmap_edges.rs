use gen_slotmap::{SlotKey, Slotmap};

fn filled(capacity: usize, count: u32) -> (Slotmap<u32>, Vec<SlotKey>) {
    let mut map = Slotmap::<u32>::with_capacity(capacity);
    let mut keys = Vec::new();
    for i in 0..count {
        keys.push(map.push(i).expect("room for the value"));
    }
    (map, keys)
}

#[test]
fn pushed_key_is_valid_and_round_trips() {
    let mut map = Slotmap::<u32>::with_capacity(4);
    let key = map.push(77).unwrap();
    assert!(map.is_valid(&key));
    assert_eq!(map.get_value(&key), Some(&77));
}

#[test]
fn removed_key_stays_invalid_after_slot_reuse() {
    let mut map = Slotmap::<u32>::with_capacity(1);
    let first = map.push(1).unwrap();
    assert_eq!(map.remove(first), Some(1));
    assert!(!map.is_valid(&first));
    let second = map.push(2).unwrap();
    assert!(!map.is_valid(&first));
    assert!(map.is_valid(&second));
    assert_eq!(map.get_value(&first), None);
    assert_eq!(map.remove(first), None);
    assert_eq!(map.get_value(&second), Some(&2));
    assert_eq!(map.len(), 1);
}

#[test]
fn removing_twice_returns_none_the_second_time() {
    let (mut map, keys) = filled(10, 3);
    assert_eq!(map.remove(keys[1]), Some(1));
    assert_eq!(map.remove(keys[1]), None);
    assert_eq!(map.len(), 2);
    assert_eq!(map.free_list_len(), 8);
}

#[test]
fn swap_remove_keeps_other_keys() {
    let (mut map, keys) = filled(10, 5);
    assert_eq!(map.remove(keys[1]), Some(1));
    assert_eq!(map.len(), 4);
    for (i, key) in keys.iter().enumerate() {
        if i != 1 {
            assert_eq!(map.get_value(key), Some(&(i as u32)));
        }
    }
    let dense: Vec<u32> = map.get_iter().copied().collect();
    assert_eq!(dense, vec![0, 4, 2, 3]);
}

#[test]
fn removing_the_last_dense_value_pops_it() {
    let (mut map, keys) = filled(10, 3);
    assert_eq!(map.remove(keys[2]), Some(2));
    let dense: Vec<u32> = map.get_iter().copied().collect();
    assert_eq!(dense, vec![0, 1]);
    assert_eq!(map.get_value(&keys[0]), Some(&0));
    assert_eq!(map.get_value(&keys[1]), Some(&1));
}

#[test]
fn removing_from_a_single_value_map_empties_it() {
    let (mut map, keys) = filled(5, 1);
    assert_eq!(map.remove(keys[0]), Some(0));
    assert!(map.is_empty());
    assert_eq!(map.len(), 0);
    assert_eq!(map.free_list_slice(), vec![0, 1, 2, 3, 4]);
}

#[test]
fn full_map_rejects_push_and_keeps_len() {
    let (mut map, _keys) = filled(100, 100);
    assert!(map.push(100).is_none());
    assert_eq!(map.len(), 100);
    assert_eq!(map.capacity(), 100);
    assert_eq!(map.free_list_len(), 0);
    assert!(map.free_list_slice().is_empty());
}

#[test]
fn zero_capacity_map_accepts_nothing() {
    let mut map = Slotmap::<u32>::with_capacity(0);
    assert_eq!(map.capacity(), 0);
    assert!(map.is_empty());
    assert!(map.push(1).is_none());
    assert_eq!(map.len(), 0);
    assert_eq!(map.free_list_len(), 0);
}

#[test]
fn free_list_length_and_len_add_up_to_capacity() {
    let (mut map, keys) = filled(30, 20);
    assert_eq!(map.free_list_len() + map.len(), map.capacity());
    for key in keys.iter().step_by(3) {
        map.remove(*key);
        assert_eq!(map.free_list_len() + map.len(), map.capacity());
    }
    map.push(99);
    assert_eq!(map.free_list_len() + map.len(), map.capacity());
}

#[test]
fn free_list_is_ascending_after_removals_in_any_order() {
    let (mut map, keys) = filled(12, 12);
    for i in [7usize, 3, 11, 0, 5] {
        map.remove(keys[i]);
    }
    assert_eq!(map.free_list_slice(), vec![0, 3, 5, 7, 11]);
    let reused = map.push(100).unwrap();
    assert_eq!(map.free_list_slice(), vec![3, 5, 7, 11]);
    assert_eq!(map.get_value(&reused), Some(&100));
    assert!(!map.is_valid(&keys[0]));
}

#[test]
fn scenario_push_twenty_five() {
    let (map, _keys) = filled(100, 25);
    assert_eq!(map.len(), 25);
    assert_eq!(map.free_list_len(), 75);
}

#[test]
fn scenario_remove_first_of_twenty_five() {
    let (mut map, keys) = filled(100, 25);
    assert_eq!(map.remove(keys[0]), Some(0));
    assert_eq!(map.free_list_len(), 76);
    assert!(!map.is_valid(&keys[0]));
}

#[test]
fn scenario_free_list_after_out_of_order_removals() {
    let (mut map, keys) = filled(100, 24);
    assert_eq!(map.remove(keys[0]), Some(0));
    assert_eq!(map.remove(keys[2]), Some(2));
    assert_eq!(map.remove(keys[1]), Some(1));
    assert_eq!(map.remove(keys[4]), Some(4));
    let mut expected = vec![0, 1, 2, 4];
    expected.extend(24..100);
    assert_eq!(map.free_list_slice(), expected);
}

#[test]
fn scenario_alternate_removals_keep_survivors() {
    let (mut map, keys) = filled(32000, 32000);
    for (index, key) in keys.iter().enumerate() {
        if index % 2 == 0 {
            assert_eq!(map.remove(*key), Some(index as u32));
        }
    }
    assert_eq!(map.len(), 16000);
    for (index, key) in keys.iter().enumerate() {
        if index % 2 == 1 {
            assert_eq!(map.get_value(key), Some(&(index as u32)));
        } else {
            assert!(!map.is_valid(key));
        }
    }
}

#[test]
fn key_of_a_larger_map_is_not_valid_in_a_smaller_one() {
    let (_big, big_keys) = filled(50, 50);
    let (mut small, _small_keys) = filled(5, 5);
    assert!(!small.is_valid(&big_keys[40]));
    assert_eq!(small.get_value(&big_keys[40]), None);
    assert!(small.get_value_mut(&big_keys[40]).is_none());
    assert_eq!(small.remove(big_keys[40]), None);
    assert_eq!(small.len(), 5);
}

#[test]
fn key_used_on_an_empty_map_resolves_to_nothing() {
    let (_other, other_keys) = filled(5, 3);
    let mut empty = Slotmap::<u32>::with_capacity(5);
    assert_eq!(empty.remove(other_keys[0]), None);
    assert!(empty.is_empty());
}

#[test]
fn get_value_mut_changes_only_that_value() {
    let (mut map, keys) = filled(10, 3);
    if let Some(v) = map.get_value_mut(&keys[1]) {
        *v = 50;
    } else {
        panic!("key should be valid");
    }
    assert_eq!(map.get_value(&keys[0]), Some(&0));
    assert_eq!(map.get_value(&keys[1]), Some(&50));
    assert_eq!(map.get_value(&keys[2]), Some(&2));
    map.remove(keys[1]);
    assert!(map.get_value_mut(&keys[1]).is_none());
}

#[test]
fn iteration_follows_dense_order_after_reuse() {
    let (mut map, keys) = filled(4, 3);
    map.remove(keys[0]);
    map.push(10);
    let dense: Vec<u32> = map.get_iter().copied().collect();
    assert_eq!(dense, vec![2, 1, 10]);
}

#[test]
fn removal_splices_its_slot_into_the_free_list() {
    let (mut map, keys) = filled(8, 6);
    assert_eq!(map.free_list_slice(), vec![6, 7]);
    map.remove(keys[3]);
    assert_eq!(map.free_list_slice(), vec![3, 6, 7]);
    map.remove(keys[5]);
    assert_eq!(map.free_list_slice(), vec![3, 5, 6, 7]);
    map.remove(keys[0]);
    assert_eq!(map.free_list_slice(), vec![0, 3, 5, 6, 7]);
}
