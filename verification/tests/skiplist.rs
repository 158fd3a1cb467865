use skiplist_rs::SkipList;

#[test]
fn skiplist_test() {
    let mut skip_list: SkipList<i32, i32> = SkipList::new(3);
    assert_eq!(skip_list.max_level(), 3);
    skip_list.insert(1, 2);
    skip_list.insert(2, 3);
    skip_list.insert(3, 4);
    assert_eq!(skip_list.get(&1), Some(2));
    assert_eq!(skip_list.get(&2), Some(3));
    assert_eq!(skip_list.get(&3), Some(4));
}

#[test]
fn skiplist_missing_key_is_none() {
    let mut skip_list: SkipList<u64, &str> = SkipList::new(4);
    assert_eq!(skip_list.get(&5), None);
    skip_list.insert(5, "five");
    skip_list.insert(1, "one");
    assert_eq!(skip_list.get(&3), None);
    assert_eq!(skip_list.get(&0), None);
    assert_eq!(skip_list.get(&6), None);
    assert_eq!(skip_list.get(&5), Some("five"));
}

#[test]
fn skiplist_insert_overwrites() {
    let mut skip_list: SkipList<i32, i32> = SkipList::new(2);
    skip_list.insert(7, 1);
    skip_list.insert(7, 2);
    skip_list.insert(i32::MIN, 3);
    skip_list.insert(i32::MAX, 4);
    assert_eq!(skip_list.get(&7), Some(2));
    assert_eq!(skip_list.get(&i32::MIN), Some(3));
    assert_eq!(skip_list.get(&i32::MAX), Some(4));
}

#[test]
fn skiplist_many_keys_in_any_order() {
    let mut skip_list: SkipList<i32, i32> = SkipList::new(6);
    for i in 0..500 {
        let k = (i * 7919) % 500;
        skip_list.insert(k, k * 2);
    }
    for k in 0..500 {
        assert_eq!(skip_list.get(&k), Some(k * 2));
    }
    assert_eq!(skip_list.get(&500), None);
    assert_eq!(skip_list.get(&-1), None);
}

#[test]
fn skiplist_single_level() {
    let mut skip_list: SkipList<i32, i32> = SkipList::new(1);
    for k in (0..50).rev() {
        skip_list.insert(k, -k);
    }
    for k in 0..50 {
        assert_eq!(skip_list.get(&k), Some(-k));
    }
}
