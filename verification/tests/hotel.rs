use hotel::Hotel;

#[test]
fn inserting() {
    let collection = 0..10000;
    let mut hotel = Hotel::new();
    collection.for_each(|v| {
        let key = hotel.put(v);
        assert_eq!(key, v as usize);
    });
}

#[test]
fn order() {
    let collection = 0..10000;
    let mut hotel = Hotel::new();
    collection.for_each(|v| {
        let key = hotel.put(v);
        assert_eq!(key, v as usize);
    });

    hotel.take(0);
    hotel.take(15);
    hotel.take(32);
    hotel.take(3189);
    hotel.take(7777);

    assert_eq!(hotel.put(0), 7777);
    assert_eq!(hotel.put(0), 3189);
    assert_eq!(hotel.put(0), 32);
    assert_eq!(hotel.put(0), 15);
    assert_eq!(hotel.put(0), 0);
}

#[test]
fn lookup_returns_inserted_values() {
    let mut hotel = Hotel::new();
    let a = hotel.put("alpha");
    let b = hotel.put("beta");
    let c = hotel.put("gamma");
    assert_eq!(hotel.get(a), Some(&"alpha"));
    assert_eq!(hotel.get(b), Some(&"beta"));
    assert_eq!(hotel.get(c), Some(&"gamma"));
}

#[test]
fn lookup_absent_is_none() {
    let mut hotel = Hotel::new();
    assert_eq!(hotel.get(0), None);
    let a = hotel.put(7);
    // a never-issued index
    assert_eq!(hotel.get(a + 1), None);
    // a removed index
    assert_eq!(hotel.take(a), Some(7));
    assert_eq!(hotel.get(a), None);
}

#[test]
fn take_is_one_shot() {
    let mut hotel = Hotel::new();
    let a = hotel.put(41);
    let b = hotel.put(42);
    assert_eq!(hotel.take(b), Some(42));
    assert_eq!(hotel.take(b), None);
    // the other slot is untouched
    assert_eq!(hotel.get(a), Some(&41));
}

#[test]
fn take_out_of_bounds_is_none() {
    let mut hotel: Hotel<u8> = Hotel::new();
    assert_eq!(hotel.take(0), None);
    assert_eq!(hotel.take(1000), None);
}

#[test]
fn remove_reports_not_found() {
    let mut hotel = Hotel::new();
    let a = hotel.put(5);
    assert_eq!(hotel.remove(a), Ok(5));
    assert_eq!(hotel.remove(a), Err(()));
    assert_eq!(hotel.remove(99), Err(()));
}

#[test]
fn reused_index_resolves_to_new_value() {
    let mut hotel = Hotel::new();
    let a = hotel.put(1);
    hotel.put(2);
    assert_eq!(hotel.take(a), Some(1));
    let b = hotel.put(3);
    assert_eq!(b, a);
    assert_eq!(hotel.get(a), Some(&3));
}

#[test]
fn values_ascend_by_index() {
    let mut hotel = Hotel::new();
    for v in [10, 20, 30, 40] {
        hotel.put(v);
    }
    hotel.take(1);
    assert_eq!(hotel.values(), vec![&10, &30, &40]);
    // non-consuming: a second call sees the same values
    assert_eq!(hotel.values(), vec![&10, &30, &40]);
}

#[test]
fn iter_pairs_ascend_by_index() {
    let mut hotel = Hotel::new();
    for v in [10, 20, 30, 40] {
        hotel.put(v);
    }
    hotel.take(0);
    hotel.take(2);
    assert_eq!(hotel.iter(), vec![(1, &20), (3, &40)]);
}

#[test]
fn consuming_iteration_drains_all_pairs() {
    let mut hotel = Hotel::new();
    for v in [10, 20, 30] {
        hotel.put(v);
    }
    hotel.take(1);
    let mut iter = hotel.into_iter();
    assert_eq!(iter.next(), Some((0, 10)));
    assert_eq!(iter.next(), Some((2, 30)));
    assert_eq!(iter.next(), None);
    assert_eq!(iter.next(), None);
}

#[test]
fn fresh_allocators_agree() {
    let mut a: Hotel<i32> = Hotel::new();
    let mut b: Hotel<i32> = Hotel::with_capacity(64);
    let mut c: Hotel<i32> = Default::default();
    assert_eq!(a.put(9), 0);
    assert_eq!(b.put(9), 0);
    assert_eq!(c.put(9), 0);
}
