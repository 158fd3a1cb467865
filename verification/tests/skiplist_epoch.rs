use skiplist_rs::skiplist::{next_level, Skiplist};

#[test]
fn new_skiplist() {
    let sl = Skiplist::<i32, i32, 5>::new();
    assert_eq!(sl.max_level(), 5);
    assert_eq!(sl.cur_level(), 0);
    assert_eq!(*sl.head_key(), i32::MIN);
    assert!(sl.head_value().is_none())
}

#[test]
fn skiplist_insert_and_get() {
    let mut sl = Skiplist::<i32, i32, 5>::new();
    sl.insert(0, 0);
    sl.insert(1, 1);
    sl.insert(2, 2);
    sl.insert(3, 2);
    sl.insert(4, 2);

    assert_eq!(sl.get(&0), Some(&0));
    assert_eq!(sl.get(&1), Some(&1));
    assert_eq!(sl.get(&2), Some(&2));
    assert_eq!(sl.get(&3), Some(&2));
    assert_eq!(sl.get(&4), Some(&2));
}

#[test]
fn skiplist_same_key_insert() {
    let mut sl = Skiplist::<i32, i32, 3>::new();
    sl.insert(0, 0);
    sl.insert(0, 1);
    sl.insert(0, 2);
    sl.insert(0, 3);
    for (key, value) in sl.head_entries() {
        println!("key={}; value={:?}", key, value);
    }
    assert_eq!(sl.get(&0), Some(&3));
    sl.insert(2, 0);
    sl.insert(2, 1);
    sl.insert(2, 2);
    sl.insert(2, 900);
    assert_eq!(sl.get(&2), Some(&900));
}

#[test]
fn concurrent_unique_keys() {
    for _ in 0..10 {
        let mut sl = Skiplist::<i32, i32, 8>::new();
        let threads = 4;
        let keys_per_thread = 100;
        for t in 0..threads {
            for i in 0..keys_per_thread {
                let key = t * keys_per_thread + i;
                sl.insert(key, key);
            }
        }
        for key in 0..(threads * keys_per_thread) {
            assert_eq!(sl.get(&key), Some(&key), "missing key {key}");
        }
    }
}

#[test]
fn concurrent_same_key_no_duplicates() {
    for _ in 0..50 {
        let mut sl = Skiplist::<i32, i32, 5>::new();
        for t in 0..4 {
            sl.insert(0, t);
        }
        let val = sl.get(&0);
        assert!(val.is_some(), "key 0 was lost");
    }
}

#[test]
fn insert_then_get_visibility() {
    for _ in 0..20 {
        let mut sl = Skiplist::<i32, i32, 5>::new();
        sl.insert(42, 100);
        let mut found = false;
        for _ in 0..10000 {
            if sl.get(&42).is_some() {
                found = true;
                break;
            }
        }
        assert!(
            sl.get(&42).is_some(),
            "key not visible after insert completed"
        );
        assert!(found || sl.get(&42).is_some());
    }
}

#[test]
fn head_entries_lists_the_first_node_of_each_level() {
    let mut sl = Skiplist::<u64, u64, 4>::new();
    assert!(sl.head_entries().is_empty());
    for k in 10..40 {
        sl.insert(k, k + 1);
    }
    let entries = sl.head_entries();
    assert!(!entries.is_empty());
    assert!(entries.len() <= 4);
    assert_eq!(*entries[0].0, 10);
    assert_eq!(entries[0].1, Some(&11));
    for (k, v) in entries {
        assert_eq!(*v.unwrap(), *k + 1);
    }
}

#[test]
fn zero_level_skiplist_finds_nothing() {
    let sl = Skiplist::<i32, i32, 0>::new();
    assert_eq!(sl.get(&0), None);
    assert_eq!(sl.max_level(), 0);
}

#[test]
fn skiplist_levels_stay_within_bounds() {
    let mut sl = Skiplist::<i32, i32, 3>::new();
    for k in (0..300).rev() {
        sl.insert(k, k);
        assert!(sl.cur_level() < 3);
    }
    for k in 0..300 {
        assert_eq!(sl.get(&k), Some(&k));
    }
}

#[test]
fn single_level_lists_one_entry_per_key_set() {
    let mut sl = Skiplist::<i32, i32, 1>::new();
    assert!(sl.head_entries().is_empty());
    sl.insert(1, 2);
    let entries = sl.head_entries();
    assert_eq!(entries.len(), 1);
    assert_eq!(*entries[0].0, 1);
    assert_eq!(entries[0].1, Some(&2));
}

#[test]
fn next_level_climbs_on_true_until_the_top() {
    assert_eq!(next_level(0, 4, true), 1);
    assert_eq!(next_level(2, 4, true), 3);
    assert_eq!(next_level(3, 4, true), 3);
    assert_eq!(next_level(1, 4, false), 1);
    assert_eq!(next_level(0, 1, true), 0);
}
