use skiplist_rs::sl_lock_free::SkipListNoLock;

#[test]
fn nolock_new_is_empty() {
    let sl = SkipListNoLock::<i32, i32, 4>::new();
    assert_eq!(sl.max_level(), 4);
    assert_eq!(sl.get(&0), None);
}

#[test]
fn nolock_insert_and_get() {
    let mut sl = SkipListNoLock::<i32, i32, 5>::new();
    for k in [5, 1, 9, 3, 7, -4, i32::MAX] {
        sl.insert(k, k * 10 % 1000);
    }
    for k in [5, 1, 9, 3, 7, -4, i32::MAX] {
        assert_eq!(sl.get(&k), Some(k * 10 % 1000));
    }
    assert_eq!(sl.get(&2), None);
    assert_eq!(sl.get(&100), None);
}

#[test]
fn nolock_many_distinct_keys() {
    let mut sl = SkipListNoLock::<u64, u64, 6>::new();
    for i in 0..400u64 {
        let k = (i * 97) % 400;
        sl.insert(k, k + 1);
    }
    for k in 0..400u64 {
        assert_eq!(sl.get(&k), Some(k + 1));
    }
}

#[test]
fn nolock_single_level_inserts() {
    let mut sl = SkipListNoLock::<i32, i32, 1>::new();
    for k in 0..100 {
        sl.insert(k, -k);
    }
    for k in 0..100 {
        assert_eq!(sl.get(&k), Some(-k));
    }
}

#[test]
fn nolock_repeated_key_replaces_the_value() {
    let mut sl = SkipListNoLock::<i32, i32, 4>::new();
    sl.insert(1, 10);
    sl.insert(1, 20);
    assert_eq!(sl.get(&1), Some(20));
}

#[test]
fn nolock_repeated_key_keeps_later_keys() {
    let mut sl = SkipListNoLock::<i32, i32, 1>::new();
    sl.insert(1, 10);
    sl.insert(2, 20);
    sl.insert(1, 11);
    assert_eq!(sl.get(&1), Some(11));
    assert_eq!(sl.get(&2), Some(20));
}

#[test]
fn nolock_repeated_keys_among_many() {
    let mut sl = SkipListNoLock::<u64, u64, 5>::new();
    for round in 0..3u64 {
        for k in 0..200u64 {
            sl.insert(k, k + round);
        }
    }
    for k in 0..200u64 {
        assert_eq!(sl.get(&k), Some(k + 2));
    }
}
