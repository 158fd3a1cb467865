use skiplist_rs::array::LockFreeArray;

#[test]
fn new_array_is_empty() {
    let a: LockFreeArray<i32, 4> = LockFreeArray::new();
    for i in 0..4 {
        assert!(a.ptr_at(i).is_none());
    }
}

#[test]
fn try_insert_hands_out_slots_in_order_until_full() {
    let mut a: LockFreeArray<i32, 3> = LockFreeArray::new();
    assert_eq!(a.try_insert(10), Ok(0));
    assert_eq!(a.try_insert(11), Ok(1));
    assert_eq!(a.try_insert(12), Ok(2));
    assert_eq!(a.try_insert(13), Err(13));
    assert_eq!(a.take(2), Some(12));
    assert_eq!(a.try_insert(14), Ok(2));
    assert_eq!(a.ptr_at(0), Some(&10));
    assert_eq!(a.ptr_at(1), Some(&11));
    assert_eq!(a.ptr_at(2), Some(&14));
}

#[test]
fn take_gives_the_slot_back_to_try_insert() {
    let mut a: LockFreeArray<i32, 3> = LockFreeArray::new();
    a.try_insert(10).unwrap();
    a.try_insert(11).unwrap();
    a.try_insert(12).unwrap();
    assert_eq!(a.take(1), Some(11));
    assert!(a.ptr_at(1).is_none());
    assert_eq!(a.try_insert(21), Ok(1));
    assert_eq!(a.ptr_at(1), Some(&21));
    assert_eq!(a.try_insert(22), Err(22));
}

#[test]
fn take_of_empty_or_out_of_range_slot_is_none() {
    let mut a: LockFreeArray<i32, 2> = LockFreeArray::new();
    assert_eq!(a.take(0), None);
    assert_eq!(a.take(2), None);
    assert_eq!(a.take(100), None);
    assert_eq!(a.try_insert(5), Ok(0));
}

#[test]
fn try_insert_at_replaces_and_rejects_out_of_range() {
    let mut a: LockFreeArray<String, 2> = LockFreeArray::new();
    assert_eq!(a.try_insert_at(1, String::from("x")), Ok(1));
    assert_eq!(a.try_insert_at(1, String::from("y")), Ok(1));
    assert_eq!(a.ptr_at(1).map(|s| s.as_str()), Some("y"));
    assert_eq!(
        a.try_insert_at(2, String::from("z")),
        Err(String::from("z"))
    );
    assert_eq!(a.take(1), Some(String::from("y")));
}

#[test]
fn fill_fills_every_slot_and_exhausts_the_free_list() {
    let mut a: LockFreeArray<Option<usize>, 4> = LockFreeArray::new();
    a.fill(Some(7));
    for i in 0..4 {
        assert_eq!(a.ptr_at(i), Some(&Some(7)));
    }
    assert_eq!(a.try_insert(None), Err(None));
    assert_eq!(a.take(2), Some(Some(7)));
    assert_eq!(a.try_insert(None), Ok(2));
}
