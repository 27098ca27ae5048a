use hotel::HotelMap;

#[test]
fn insert_and_get_by_key() {
    let mut map = HotelMap::new();
    let a = map.insert(100, "alpha");
    let b = map.insert(200, "beta");
    assert_eq!(map.get_by_key(100), Some((a, &"alpha")));
    assert_eq!(map.get_by_key(200), Some((b, &"beta")));
    assert_eq!(map.get_by_key(300), None);
}

#[test]
fn get_by_index_bypasses_keys() {
    let mut map = HotelMap::new();
    let a = map.insert(1, 11);
    assert_eq!(map.get_by_index(a), Some(&11));
    assert_eq!(map.get_by_index(a + 1), None);
}

#[test]
fn contains_tracks_presence() {
    let mut map = HotelMap::new();
    assert!(!map.contains(5));
    map.insert(5, "x");
    assert!(map.contains(5));
    assert!(!map.contains(6));
}

#[test]
fn overwrite_keeps_index_and_replaces_value() {
    let mut map = HotelMap::new();
    let first = map.insert(7, "old");
    let second = map.insert(7, "new");
    assert_eq!(second, first);
    assert_eq!(map.get_by_key(7), Some((first, &"new")));
    // exactly one live slot
    assert_eq!(map.iter_values(), vec![(first, &"new")]);
}

#[test]
fn try_insert_rejects_present_key() {
    let mut map = HotelMap::new();
    let a = map.insert(7, "kept");
    assert_eq!(map.try_insert(7, "rejected"), None);
    // no mutation: value and index both unchanged
    assert_eq!(map.get_by_key(7), Some((a, &"kept")));
    assert_eq!(map.iter_values(), vec![(a, &"kept")]);
}

#[test]
fn try_insert_on_absent_key_matches_insert() {
    let mut by_insert = HotelMap::new();
    let mut by_try = HotelMap::new();
    let a = by_insert.insert(9, 90);
    let b = by_try.try_insert(9, 90);
    assert_eq!(b, Some(a));
    assert_eq!(by_try.get_by_key(9), by_insert.get_by_key(9));
}

#[test]
fn iter_values_ascends_by_index() {
    let mut map = HotelMap::new();
    map.insert(30, "c");
    map.insert(10, "a");
    map.insert(20, "b");
    assert_eq!(map.iter_values(), vec![(0, &"c"), (1, &"a"), (2, &"b")]);
}

#[test]
fn iter_yields_one_triple_per_key() {
    let mut map = HotelMap::new();
    map.insert(30, "c");
    map.insert(10, "a");
    map.insert(10, "a2");
    map.insert(20, "b");
    assert_eq!(
        map.iter(),
        vec![(30, 0, &"c"), (10, 1, &"a2"), (20, 2, &"b")]
    );
}

#[test]
fn consuming_iteration_drains_values() {
    let mut map = HotelMap::new();
    map.insert(1, 10);
    map.insert(2, 20);
    let mut iter = map.into_iter();
    assert_eq!(iter.next(), Some((0, 10)));
    assert_eq!(iter.next(), Some((1, 20)));
    assert_eq!(iter.next(), None);
}

#[test]
fn fresh_keyed_indices_agree() {
    let mut a: HotelMap<i32> = HotelMap::new();
    let mut b: HotelMap<i32> = HotelMap::with_capacity(16);
    let mut c: HotelMap<i32> = Default::default();
    assert_eq!(a.insert(1, 5), 0);
    assert_eq!(b.insert(1, 5), 0);
    assert_eq!(c.insert(1, 5), 0);
}
