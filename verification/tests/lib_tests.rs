use crdt_lww::LWWElementDictionary;
use crdt_lww::Timestamp;
use std::sync::Arc;

#[test]
fn test_add_and_lookup() {
    let mut dict = LWWElementDictionary::new();
    let key = "key1".to_string();
    let value = "value1".to_string();
    let ts = Timestamp::now();

    dict.add(key.clone(), value.clone(), ts);
    assert_eq!(dict.lookup(&key), Some(Arc::new(value)));
}

#[test]
fn test_remove() {
    let mut dict = LWWElementDictionary::new();
    let key = "key1".to_string();
    let value = "value1".to_string();

    let ts_add = Timestamp::from_value(1_000);
    dict.add(key.clone(), value, ts_add);

    let ts_remove = Timestamp::from_value(2_000);
    dict.remove(&key, ts_remove);

    assert!(ts_remove >= ts_add, "ts_remove should be >= ts_add");

    assert_eq!(dict.lookup(&key), None);
}

#[test]
fn test_update() {
    let mut dict = LWWElementDictionary::new();
    let key = "key1".to_string();
    let value1 = "value1".to_string();
    let value2 = "value2".to_string();
    let ts1 = Timestamp::from_value(1_000);

    dict.add(key.clone(), value1.clone(), ts1);

    let ts2 = Timestamp::from_value(2_000);
    dict.update(key.clone(), value2.clone(), ts2);
    assert_eq!(dict.lookup(&key), Some(Arc::new(value2)));
}

#[test]
fn test_merge() {
    let mut dict1 = LWWElementDictionary::new();
    let mut dict2 = LWWElementDictionary::new();
    let key = "key1".to_string();
    let value1 = "value1".to_string();
    let value2 = "value2".to_string();

    let ts1 = Timestamp::from_value(1_000);
    dict1.add(key.clone(), value1.clone(), ts1);

    let ts2 = Timestamp::from_value(2_000);
    dict2.add(key.clone(), value2.clone(), ts2);

    dict1.merge(&dict2);
    assert_eq!(dict1.lookup(&key), Some(Arc::new(value2)));
}

#[test]
fn test_concurrent_add_and_remove() {
    let mut dict1 = LWWElementDictionary::new();
    let mut dict2 = LWWElementDictionary::new();
    let key = "key1".to_string();
    let value = "value1".to_string();
    let ts = Timestamp::from_value(1_000);

    dict1.add(key.clone(), value.clone(), ts);
    dict2.remove(&key, ts);

    dict1.merge(&dict2);
    assert_eq!(dict1.lookup(&key), Some(Arc::new(value)));

    let ts_new = Timestamp::from_value(2_000);
    dict2.remove(&key, ts_new);
    dict1.merge(&dict2);
    assert_eq!(dict1.lookup(&key), None);
}

#[test]
fn test_multiple_keys() {
    let mut dict = LWWElementDictionary::new();
    let key1 = "key1".to_string();
    let value1 = "value1".to_string();
    let key2 = "key2".to_string();
    let value2 = "value2".to_string();
    let ts = Timestamp::now();

    dict.add(key1.clone(), value1.clone(), ts);
    dict.add(key2.clone(), value2.clone(), ts);

    assert_eq!(dict.lookup(&key1), Some(Arc::new(value1)));
    assert_eq!(dict.lookup(&key2), Some(Arc::new(value2)));
}

#[test]
fn test_merge_conflicting_timestamps() {
    let mut dict1 = LWWElementDictionary::new();
    let mut dict2 = LWWElementDictionary::new();
    let key = "key1".to_string();
    let value1 = "value1".to_string();
    let value2 = "value2".to_string();

    let ts = Timestamp::now();

    dict1.add(key.clone(), value1.clone(), ts);
    dict2.add(key.clone(), value2.clone(), ts);

    dict1.merge(&dict2);

    assert_eq!(dict1.lookup(&key), Some(Arc::new(value1)));
}

#[test]
fn test_add_tie_break() {
    let mut dict = LWWElementDictionary::new();
    let key = "k".to_string();
    let t = Timestamp::from_value(7);

    dict.add(key.clone(), "first".to_string(), t);
    dict.add(key.clone(), "second".to_string(), t);

    assert_eq!(dict.lookup(&key), Some(Arc::new("first".to_string())));
}

#[test]
fn test_update_loses_tie() {
    let mut dict = LWWElementDictionary::new();
    let key = "k".to_string();
    let t = Timestamp::from_value(7);

    dict.add(key.clone(), "first".to_string(), t);
    dict.update(key.clone(), "second".to_string(), t);

    assert_eq!(dict.lookup(&key), Some(Arc::new("first".to_string())));
}

#[test]
fn test_add_wins_tie_against_remove() {
    let mut dict = LWWElementDictionary::new();
    let key = "k".to_string();
    let t = Timestamp::from_value(7);

    dict.add(key.clone(), "v".to_string(), t);
    dict.remove(&key, t);

    assert_eq!(dict.lookup(&key), Some(Arc::new("v".to_string())));
}

#[test]
fn test_remove_wins_strictly_later() {
    let mut dict = LWWElementDictionary::new();
    let key = "k".to_string();

    dict.add(key.clone(), "v".to_string(), Timestamp::from_value(1));
    dict.remove(&key, Timestamp::from_value(2));

    assert_eq!(dict.lookup(&key), None);
}

#[test]
fn test_resurrection() {
    let mut dict = LWWElementDictionary::new();
    let key = "k".to_string();

    dict.add(key.clone(), "v1".to_string(), Timestamp::from_value(1));
    dict.remove(&key, Timestamp::from_value(2));
    dict.add(key.clone(), "v2".to_string(), Timestamp::from_value(3));

    assert_eq!(dict.lookup(&key), Some(Arc::new("v2".to_string())));
}

#[test]
fn test_preemptive_tombstone() {
    let mut dict = LWWElementDictionary::new();
    let key = "k".to_string();

    dict.remove(&key, Timestamp::from_value(5));
    dict.add(key.clone(), "v".to_string(), Timestamp::from_value(4));

    assert_eq!(dict.lookup(&key), None);
}

#[test]
fn test_merge_idempotent() {
    let mut a = LWWElementDictionary::new();
    let mut b = LWWElementDictionary::new();

    a.add("k1".to_string(), "a1".to_string(), Timestamp::from_value(1));
    a.remove(&"k3".to_string(), Timestamp::from_value(9));
    b.add("k1".to_string(), "b1".to_string(), Timestamp::from_value(2));
    b.add("k2".to_string(), "b2".to_string(), Timestamp::from_value(3));
    b.remove(&"k2".to_string(), Timestamp::from_value(4));

    a.merge(&b);
    let k1_once = a.lookup(&"k1".to_string());
    let k2_once = a.lookup(&"k2".to_string());
    let k3_once = a.lookup(&"k3".to_string());
    let mut keys_once = a.keys();
    keys_once.sort();

    a.merge(&b);
    let mut keys_twice = a.keys();
    keys_twice.sort();

    assert_eq!(a.lookup(&"k1".to_string()), k1_once);
    assert_eq!(a.lookup(&"k2".to_string()), k2_once);
    assert_eq!(a.lookup(&"k3".to_string()), k3_once);
    assert_eq!(keys_once, keys_twice);
    assert_eq!(k1_once, Some(Arc::new("b1".to_string())));
    assert_eq!(k2_once, None);
    assert_eq!(k3_once, None);
}

#[test]
fn test_merge_commutes_on_distinct_timestamps() {
    let mut a = LWWElementDictionary::new();
    let mut b = LWWElementDictionary::new();
    a.add("k1".to_string(), "a1".to_string(), Timestamp::from_value(1));
    a.add("shared".to_string(), "from_a".to_string(), Timestamp::from_value(5));
    b.add("k2".to_string(), "b2".to_string(), Timestamp::from_value(2));
    b.add("shared".to_string(), "from_b".to_string(), Timestamp::from_value(6));
    b.remove(&"k1".to_string(), Timestamp::from_value(3));
    a.merge(&b);

    let mut a2 = LWWElementDictionary::new();
    let mut b2 = LWWElementDictionary::new();
    a2.add("k1".to_string(), "a1".to_string(), Timestamp::from_value(1));
    a2.add("shared".to_string(), "from_a".to_string(), Timestamp::from_value(5));
    b2.add("k2".to_string(), "b2".to_string(), Timestamp::from_value(2));
    b2.add("shared".to_string(), "from_b".to_string(), Timestamp::from_value(6));
    b2.remove(&"k1".to_string(), Timestamp::from_value(3));
    b2.merge(&a2);

    for key in ["k1", "k2", "shared"] {
        assert_eq!(a.lookup(&key.to_string()), b2.lookup(&key.to_string()));
    }
    let mut keys_ab = a.keys();
    keys_ab.sort();
    let mut keys_ba = b2.keys();
    keys_ba.sort();
    assert_eq!(keys_ab, keys_ba);
    assert_eq!(a.lookup(&"shared".to_string()), Some(Arc::new("from_b".to_string())));
}

#[test]
fn test_merge_tie_asymmetry_both_directions() {
    let t = Timestamp::from_value(10);

    let mut a = LWWElementDictionary::new();
    let mut b = LWWElementDictionary::new();
    a.add("k".to_string(), "v1".to_string(), t);
    b.add("k".to_string(), "v2".to_string(), t);
    a.merge(&b);
    assert_eq!(a.lookup(&"k".to_string()), Some(Arc::new("v1".to_string())));

    let mut a2 = LWWElementDictionary::new();
    let mut b2 = LWWElementDictionary::new();
    a2.add("k".to_string(), "v1".to_string(), t);
    b2.add("k".to_string(), "v2".to_string(), t);
    b2.merge(&a2);
    assert_eq!(b2.lookup(&"k".to_string()), Some(Arc::new("v2".to_string())));
}

#[test]
fn test_race_outcome_matches_timestamp_order() {
    let key = "shared_key".to_string();

    // One arrival order: adds first, removes last.
    let mut dict1 = LWWElementDictionary::new();
    for i in 0..5u64 {
        dict1.add(key.clone(), format!("value_{}", i), Timestamp::from_value(2 * i));
    }
    for i in 0..5u64 {
        dict1.remove(&key, Timestamp::from_value(2 * i + 1));
    }

    // The reverse arrival order: removes first, adds last.
    let mut dict2 = LWWElementDictionary::new();
    for i in (0..5u64).rev() {
        dict2.remove(&key, Timestamp::from_value(2 * i + 1));
    }
    for i in (0..5u64).rev() {
        dict2.add(key.clone(), format!("value_{}", i), Timestamp::from_value(2 * i));
    }

    // The maximum timestamp (9) belongs to a remove, so the key is absent,
    // whichever order the operations arrived in.
    assert_eq!(dict1.lookup(&key), None);
    assert_eq!(dict2.lookup(&key), None);

    // Now race in one more add that outbids every remove: present everywhere.
    dict1.add(key.clone(), "winner".to_string(), Timestamp::from_value(100));
    dict2.add(key.clone(), "winner".to_string(), Timestamp::from_value(100));
    assert_eq!(dict1.lookup(&key), Some(Arc::new("winner".to_string())));
    assert_eq!(dict2.lookup(&key), Some(Arc::new("winner".to_string())));
}

#[test]
fn test_keys_reflects_add_set_membership() {
    let mut dict = LWWElementDictionary::new();
    dict.add("kept".to_string(), "v".to_string(), Timestamp::from_value(1));
    dict.add("removed".to_string(), "v".to_string(), Timestamp::from_value(1));
    dict.remove(&"removed".to_string(), Timestamp::from_value(2));
    dict.remove(&"never_added".to_string(), Timestamp::from_value(3));

    let mut keys = dict.keys();
    keys.sort();
    assert_eq!(keys, vec!["kept".to_string(), "removed".to_string()]);

    // Logically removed but still an add-set member; never-added keys are
    // absent even though they carry a tombstone.
    assert_eq!(dict.lookup(&"removed".to_string()), None);
    assert!(keys.contains(&"removed".to_string()));
    assert!(!keys.contains(&"never_added".to_string()));
}

#[test]
fn test_timestamp_value_roundtrip() {
    let t = Timestamp::from_value(42);
    assert_eq!(t.value(), 42);

    let earlier = Timestamp::from_value(1);
    let later = Timestamp::from_value(2);
    assert!(earlier < later);

    let now = Timestamp::now();
    let _ = now.value();
}

#[test]
fn test_default_is_empty() {
    let dict = LWWElementDictionary::default();
    assert_eq!(dict.lookup(&"anything".to_string()), None);
    assert_eq!(dict.keys(), Vec::<String>::new());
}
