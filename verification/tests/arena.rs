use forest_ds::arena::Entry;
use forest_ds::arena::Store;

#[test]
fn should_allocate() {
    let mut store = Store::with_capacity(2);

    assert_eq!(store.first_free(), None);

    let idx = store.allocate(42);

    assert_eq!(idx, 0);

    let idx2 = store.allocate(1);

    assert_eq!(idx2, 1);

    assert_eq!(store.free_node(idx), Some(42));

    assert_eq!(store.first_free(), Some(0));

    assert_eq!(store.allocate(42), 0);

    assert_eq!(store.len(), 2);
    assert_eq!(store.capacity(), 2);
}

#[test]
fn freed_slots_are_reused_last_in_first_out() {
    let mut store = Store::new();
    for value in 0..5 {
        assert_eq!(store.allocate(value), value as usize);
    }
    assert_eq!(store.free_node(1), Some(1));
    assert_eq!(store.free_node(3), Some(3));
    assert_eq!(store.free_node(0), Some(0));
    assert_eq!(store.len(), 5);
    assert_eq!(store.first_free(), Some(0));

    assert_eq!(store.allocate(10), 0);
    assert_eq!(store.allocate(11), 3);
    assert_eq!(store.allocate(12), 1);
    assert_eq!(store.first_free(), None);
    assert_eq!(store.allocate(13), 5);
    assert_eq!(store.len(), 6);
}

#[test]
fn free_of_a_free_or_missing_slot_changes_nothing() {
    let mut store = Store::new();
    let a = store.allocate("a");
    let b = store.allocate("b");
    assert_eq!(store.free_node(a), Some("a"));
    assert_eq!(store.free_node(a), None);
    assert_eq!(store.free_node(7), None);
    assert_eq!(store.first_free(), Some(a));
    assert_eq!(store.len(), 2);
    assert_eq!(store.get(b), Some(&"b"));
    assert_eq!(store.get(a), None);
    assert_eq!(store.get(7), None);
}

#[test]
fn store_get_mut_changes_the_value_in_place() {
    let mut store = Store::new();
    let a = store.allocate(1);
    *store.get_mut(a).unwrap() = 5;
    assert_eq!(store.get(a), Some(&5));
    assert!(store.get_mut(3).is_none());
    store.free_node(a);
    assert!(store.get_mut(a).is_none());
}

#[test]
fn store_capacity_is_at_least_what_was_asked() {
    let store: Store<u64> = Store::with_capacity(16);
    assert!(store.capacity() >= 16);
    assert_eq!(store.len(), 0);
}

#[test]
fn store_map_keeps_slots_and_free_list() {
    let mut store = Store::new();
    let a = store.allocate(1);
    let b = store.allocate(2);
    let c = store.allocate(3);
    store.free_node(b);
    let mut mapped = store.map(|value| value * 10);
    assert_eq!(mapped.get(a), Some(&10));
    assert_eq!(mapped.get(b), None);
    assert_eq!(mapped.get(c), Some(&30));
    assert_eq!(mapped.first_free(), Some(b));
    assert_eq!(mapped.allocate(7), b);
}

#[test]
fn entry_take_and_replace() {
    let mut entry = Entry::Occupied(3);
    assert!(entry.is_occupied());
    assert_eq!(entry.as_ref(), Some(&3));
    assert_eq!(*entry.expect_ref(), 3);
    *entry.expect_mut() = 4;
    *entry.as_mut().unwrap() += 1;
    assert_eq!(entry.map_ref(|value| *value + 1), Some(6));
    assert_eq!(entry.map_mut(|value| {
        *value = 9;
        1
    }), Some(1));

    let previous = entry.take(Some(8));
    assert_eq!(previous, Entry::Occupied(9));
    assert_eq!(previous.expect(), 9);
    assert!(!entry.is_occupied());
    assert_eq!(entry.expect_free(), Some(8));
    assert_eq!(entry.as_ref(), None);
    assert_eq!(entry.as_mut(), None);
    assert_eq!(entry.map_ref(|value| *value), None);
    assert_eq!(entry.some(), None);

    let previous = entry.replace(1);
    assert_eq!(previous, Entry::Free { next_free: Some(8) });
    assert_eq!(entry, Entry::Occupied(1));
    assert_eq!(entry.some(), Some(1));
}

#[test]
fn store_from_vec_fills_the_slots_in_order() {
    let mut store = Store::from_vec(vec!["a", "b", "c"]);
    assert_eq!(store.len(), 3);
    assert_eq!(store.first_free(), None);
    assert_eq!(store.get(0), Some(&"a"));
    assert_eq!(store.get(1), Some(&"b"));
    assert_eq!(store.get(2), Some(&"c"));
    assert_eq!(store.allocate("d"), 3);
    let empty: Store<u8> = Store::from_vec(Vec::new());
    assert_eq!(empty.len(), 0);
}
