use vector_hash::{TableKey, VectorHash};

#[test]
fn get_missing_returns_none() {
    let map: VectorHash<String, i32> = VectorHash::new();
    assert_eq!(map.get(&"missing".to_string()), None);
}

#[test]
fn put_then_get_returns_value() {
    let mut map: VectorHash<String, i32> = VectorHash::new();
    assert_eq!(map.put("apple".to_string(), 50), None);
    assert_eq!(map.get(&"apple".to_string()).copied(), Some(50));
}

#[test]
fn put_overwrite_returns_old_and_updates_value() {
    let mut map: VectorHash<String, String> = VectorHash::new();

    assert_eq!(map.put("key".to_string(), "first".to_string()), None);
    assert_eq!(
        map.put("key".to_string(), "second".to_string()),
        Some("first".to_string())
    );
    assert_eq!(map.get(&"key".to_string()).cloned(), Some("second".to_string()));
}

#[test]
fn delete_existing_then_get_is_none_and_delete_returns_value() {
    let mut map: VectorHash<u32, String> = VectorHash::new();

    map.put(9, "nine".into());

    assert_eq!(map.delete(&9), Some("nine".into()));
    assert_eq!(map.get(&9), None);
    assert_eq!(map.delete(&9), None);
}

#[test]
fn tombstone_does_not_break_probe_chain() {
    let mut map: VectorHash<String, String> = VectorHash::new();

    for i in 0..60 {
        map.put(format!("k{i}"), format!("v{i}"));
    }

    assert_eq!(map.delete(&"k20".to_string()), Some("v20".to_string()));

    for i in 0..60 {
        let key = format!("k{i}");
        if i == 20 {
            assert_eq!(map.get(&key), None);
        } else {
            assert_eq!(map.get(&key).cloned(), Some(format!("v{i}")));
        }
    }
}

#[test]
fn reuse_deleted_slot_keeps_map_correct() {
    let mut map: VectorHash<String, String> = VectorHash::new();

    map.put("a".to_string(), "one".into());
    map.put("b".to_string(), "two".into());
    map.put("c".to_string(), "three".into());

    assert_eq!(map.delete(&"b".to_string()), Some("two".into()));
    assert_eq!(map.get(&"b".to_string()), None);

    assert_eq!(map.put("b".to_string(), "new".into()), None);
    assert_eq!(map.get(&"b".to_string()).cloned(), Some("new".into()));

    assert_eq!(map.get(&"a".to_string()).cloned(), Some("one".into()));
    assert_eq!(map.get(&"c".to_string()).cloned(), Some("three".into()));
}

#[test]
fn resize_preserves_entries() {
    let mut map: VectorHash<u32, String> = VectorHash::new();

    for i in 0..200 {
        map.put(i, format!("value{i}"));
    }

    for i in 0..200 {
        assert_eq!(map.get(&i).cloned(), Some(format!("value{i}")));
    }
}

#[test]
fn fresh_table_misses_every_key() {
    let map: VectorHash<u64, u64> = VectorHash::new();
    for k in 0..1000u64 {
        assert_eq!(map.get(&k), None);
    }
    assert_eq!(map.len(), 0);
    assert_eq!(map.capacity(), 128);
    assert_eq!(map.tombstones(), 0);
}

#[test]
fn with_capacity_rounds_up_to_power_of_two() {
    let a: VectorHash<u64, u64> = VectorHash::with_capacity(0);
    assert_eq!(a.capacity(), 128);
    let b: VectorHash<u64, u64> = VectorHash::with_capacity(128);
    assert_eq!(b.capacity(), 128);
    let c: VectorHash<u64, u64> = VectorHash::with_capacity(200);
    assert_eq!(c.capacity(), 256);
    let d: VectorHash<u64, u64> = VectorHash::with_capacity(1024);
    assert_eq!(d.capacity(), 1024);
}

#[test]
fn growth_at_half_load_quadruples_capacity() {
    let mut map: VectorHash<u64, u64> = VectorHash::new();
    for k in 0..63u64 {
        assert_eq!(map.put(k, k + 1), None);
    }
    assert_eq!(map.capacity(), 128);
    assert_eq!(map.put(63, 64), None);
    assert_eq!(map.capacity(), 512);
    assert_eq!(map.len(), 64);
    for k in 64..400u64 {
        map.put(k, k + 1);
    }
    assert_eq!(map.capacity(), 2048);
    for k in 0..400u64 {
        assert_eq!(map.get(&k).copied(), Some(k + 1));
    }
}

#[test]
fn growth_keeps_latest_values() {
    let mut map: VectorHash<u64, u64> = VectorHash::new();
    for k in 0..50u64 {
        map.put(k, 1);
    }
    for k in 0..50u64 {
        assert_eq!(map.put(k, 2), Some(1));
    }
    for k in 50..300u64 {
        map.put(k, 3);
    }
    for k in 0..50u64 {
        assert_eq!(map.get(&k).copied(), Some(2));
    }
    for k in 50..300u64 {
        assert_eq!(map.get(&k).copied(), Some(3));
    }
}

#[test]
fn compaction_clears_tombstones() {
    let mut map: VectorHash<u64, u64> = VectorHash::new();
    for k in 0..60u64 {
        map.put(k, k * 10);
    }
    for k in 0..42u64 {
        assert_eq!(map.delete(&k), Some(k * 10));
    }
    assert_eq!(map.tombstones(), 42);
    assert_eq!(map.capacity(), 128);
    assert_eq!(map.delete(&42), Some(420));
    assert_eq!(map.tombstones(), 0);
    assert_eq!(map.capacity(), 128);
    assert_eq!(map.len(), 17);
    for k in 0..43u64 {
        assert_eq!(map.get(&k), None);
    }
    for k in 43..60u64 {
        assert_eq!(map.get(&k).copied(), Some(k * 10));
    }
}

#[test]
fn delete_of_absent_key_changes_nothing() {
    let mut map: VectorHash<u64, u64> = VectorHash::new();
    map.put(1, 10);
    map.put(2, 20);
    map.delete(&1);
    assert_eq!(map.tombstones(), 1);
    assert_eq!(map.len(), 1);
    assert_eq!(map.delete(&1), None);
    assert_eq!(map.delete(&99), None);
    assert_eq!(map.tombstones(), 1);
    assert_eq!(map.len(), 1);
    assert_eq!(map.get(&2).copied(), Some(20));
}

#[test]
fn put_into_tombstone_does_not_disturb_others() {
    let mut map: VectorHash<u64, u64> = VectorHash::new();
    for k in 0..40u64 {
        map.put(k, k);
    }
    assert_eq!(map.delete(&7), Some(7));
    assert_eq!(map.put(1000, 5), None);
    assert_eq!(map.get(&1000).copied(), Some(5));
    assert_eq!(map.get(&7), None);
    for k in 0..40u64 {
        if k != 7 {
            assert_eq!(map.get(&k).copied(), Some(k));
        }
    }
}

#[test]
fn digests_follow_the_key_value() {
    assert_ne!(7u64.digest(), 7);
    assert_ne!(7u32.digest(), 7);
    assert_eq!("abc".to_string().digest(), "abc".to_string().digest());
    assert_ne!("abc".to_string().digest(), "abd".to_string().digest());
    assert!("abc".to_string().same_key(&"abc".to_string()));
    assert!(!"abc".to_string().same_key(&"abd".to_string()));
    assert!(3u64.same_key(&3));
    assert!(!3u32.same_key(&4));
}
