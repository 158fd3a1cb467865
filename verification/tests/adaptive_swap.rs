use skiplist_rs::adaptive_swap::AdaptiveSwap;

#[test]
fn test_pack_unpack() {
    let a = AdaptiveSwap::new(10);
    let packed = AdaptiveSwap::<i32>::pack(a.data(), true);
    let (unpacked_ptr, locked) = AdaptiveSwap::<i32>::unpack(packed);
    assert_eq!(*a.value_at(unpacked_ptr).unwrap(), 10);
    assert!(locked);
}

struct Foo {
    key: i32,
    value: i32,
    data: Vec<i32>,
}

#[test]
fn test_swap() {
    let mut a = AdaptiveSwap::new(10);
    let old_a = a.swap(20);
    assert_eq!(old_a, 10);
    assert_eq!(*a.value_at(a.data()).unwrap(), 20);
    let foo_new = Foo {
        key: 2,
        value: 4,
        data: vec![9, 10],
    };

    let mut b = AdaptiveSwap::new(Foo {
        key: 1,
        value: 2,
        data: vec![3, 4],
    });

    let c = vec![b.data(), b.data(), b.data(), b.data()];
    assert_eq!(b.value_at(c[0]).unwrap().key, 1);

    let a = b.swap(foo_new);
    assert_eq!(a.key, 1);
    assert_eq!(a.value, 2);
    assert_eq!(a.data, vec![3, 4]);
    let c = vec![b.data(), b.data(), b.data(), b.data()];
    let now = b.value_at(c[0]).unwrap();
    assert_eq!(now.key, 2);
    assert_eq!(now.value, 4);
    assert_eq!(now.data, vec![9, 10]);
    println!("done");
}

#[test]
fn test_swap_concurrent() {
    let a = AdaptiveSwap::new(10);
    assert_eq!(*a.value_at(a.data()).unwrap(), 10);
}

#[test]
fn swap_hands_back_each_previous_value() {
    let mut a = AdaptiveSwap::new(String::from("first"));
    assert_eq!(a.swap(String::from("second")), "first");
    assert_eq!(a.swap(String::from("third")), "second");
    assert_eq!(a.swap(String::from("fourth")), "third");
    assert_eq!(a.value_at(a.data()).unwrap(), "fourth");
}

#[test]
fn pack_unpack_unlocked() {
    let packed = AdaptiveSwap::<u8>::pack(16, false);
    assert_eq!(packed, 16);
    assert_eq!(AdaptiveSwap::<u8>::unpack(packed), (16, false));
    let locked = AdaptiveSwap::<u8>::pack(16, true);
    assert_eq!(locked, 17);
    assert_eq!(AdaptiveSwap::<u8>::unpack(locked), (16, true));
}

#[test]
fn data_is_unlocked_and_old_cell_is_freed() {
    let mut a = AdaptiveSwap::new(1u64);
    let before = a.data();
    assert_eq!(before % 2, 0);
    assert_ne!(before, 0);
    a.swap(2);
    let after = a.data();
    assert_ne!(before, after);
    assert!(a.value_at(before).is_none());
    assert_eq!(*a.value_at(after).unwrap(), 2);
    assert!(a.value_at(3).is_none());
}
