use neo_riscv_vm::storage::{BuiltinStorage, INLINE_ENTRY_SLOTS, INLINE_VALUE_CAP, SMALL_ENTRY_SLOTS};

#[test]
fn small_entry_round_trip_stays_in_small_cache() {
    let mut storage = BuiltinStorage::new();
    storage.insert(&[0x01, 0x02], &[0x0a, 0x0b, 0x0c]);
    assert_eq!(storage.get(&[0x01, 0x02]), Some(&[0x0a, 0x0b, 0x0c][..]));

    storage.insert(&[0x01, 0x02], &[0x7f]);
    assert_eq!(storage.get(&[0x01, 0x02]), Some(&[0x7f][..]));
}

#[test]
fn small_inline_slots_can_hold_multiple_entries() {
    let mut storage = BuiltinStorage::new();
    for i in 0u8..6 {
        storage.insert(&[i], &[i + 10]);
    }

    for i in 0u8..6 {
        assert_eq!(storage.get(&[i]), Some(&[i + 10][..]));
    }
}

#[test]
fn large_entry_falls_back_without_breaking_small_entries() {
    let mut storage = BuiltinStorage::new();
    storage.insert(&[0x01], &[0x11]);
    storage.insert(&[0x02; 40], &[0x03; 140]);

    assert_eq!(storage.get(&[0x01]), Some(&[0x11][..]));
    assert_eq!(storage.get(&[0x02; 40]), Some(&[0x03; 140][..]));
}

#[test]
fn remove_clears_small_and_heap_entries() {
    let mut storage = BuiltinStorage::new();
    storage.insert(&[0x01], &[0x10]);
    storage.insert(&[0x02; 40], &[0x20; 140]);

    storage.remove(&[0x01]);
    storage.remove(&[0x02; 40]);

    assert_eq!(storage.get(&[0x01]), None);
    assert_eq!(storage.get(&[0x02; 40]), None);
}

#[test]
fn get_promoting_rehydrates_hot_small_from_inline_entries() {
    let mut storage = BuiltinStorage::new();
    for i in 0u8..SMALL_ENTRY_SLOTS as u8 {
        storage.insert(&[i], &[i + 1]);
    }

    storage.insert(&[0x55], &[0x66]);
    storage.insert(&[0x77], &[0x88]);
    storage.clear_hot_small();

    assert_eq!(storage.get_promoting(&[0x55]), Some(&[0x66][..]));
    assert_eq!(storage.hot_small().map(|entry| entry.key()), Some(&[0x55][..]));
    assert_eq!(storage.hot_small().map(|entry| entry.value()), Some(&[0x66][..]));
}

#[test]
fn insert_migrates_small_entries_without_returning_stale_values() {
    let mut storage = BuiltinStorage::new();
    let key = [0x01];
    let large_value = [0xAB; 12];

    storage.insert(&key, &[0x11]);
    storage.insert(&key, &large_value);

    assert_eq!(storage.get(&key), Some(large_value.as_slice()));
    assert!(storage.hot_small().is_none(), "non-small updates must evict stale hot_small entries");
}

#[test]
fn insert_migrates_inline_entries_to_heap_without_returning_stale_values() {
    let mut storage = BuiltinStorage::new();
    for i in 0u8..SMALL_ENTRY_SLOTS as u8 {
        storage.insert(&[i], &[i + 1]);
    }

    let key = [0x55];
    let inline_value = [0xBC; 12];
    let heap_value = [0xCD; INLINE_VALUE_CAP + 8];

    storage.insert(&key, &inline_value);
    storage.insert(&key, &heap_value);

    assert_eq!(storage.get(&key), Some(heap_value.as_slice()));
    assert!(
        storage.hot_small().is_none_or(|entry| !entry.matches(&key)),
        "large updates must not leave stale hot_small entries for the migrated key"
    );
}

#[test]
fn put_small_inline_refuses_when_every_small_slot_is_taken() {
    let mut storage = BuiltinStorage::new();
    for i in 0u8..SMALL_ENTRY_SLOTS as u8 {
        assert!(storage.put_small_inline(&[i], &[i]));
    }
    for i in 0u8..INLINE_ENTRY_SLOTS as u8 {
        assert!(storage.put_small_inline(&[0x40, i], &[i; 10]));
    }
    assert!(!storage.put_small_inline(&[0xF0], &[1]));
    // The refused write still refreshed the hot entry, which reads are served from first.
    assert_eq!(storage.get(&[0xF0]), Some(&[1][..]));
    storage.clear_hot_small();
    assert_eq!(storage.get(&[0xF0]), None);
    assert!(storage.put_small_inline(&[0x00], &[9]));
    assert_eq!(storage.get(&[0x00]), Some(&[9][..]));
    assert_eq!(storage.get(&[0x40, 3]), Some(&[3; 10][..]));
}

#[test]
fn read_after_remove_of_missing_key_changes_nothing() {
    let mut storage = BuiltinStorage::new();
    storage.insert(&[1, 2, 3, 4, 5], &[6]);
    storage.remove(&[9]);
    assert_eq!(storage.get(&[1, 2, 3, 4, 5]), Some(&[6][..]));
    assert_eq!(storage.get(&[9]), None);
}

#[test]
fn many_heap_entries_stay_readable() {
    let mut storage = BuiltinStorage::new();
    for i in 0u8..40 {
        storage.insert(&[i; 33], &[i; 3]);
    }
    for i in 0u8..40 {
        assert_eq!(storage.get(&[i; 33]), Some(&[i; 3][..]));
    }
}
