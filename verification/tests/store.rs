use sortsynth::store::{is_stale, should_record, MemoryStore};

#[test]
fn put_keeps_the_smaller_length() {
    let mut store = MemoryStore::new();
    let key = vec![1u8, 2, 3];
    assert_eq!(store.get(&key), None);
    assert!(store.put(key.clone(), 7));
    assert_eq!(store.get(&key), Some(7));
    // an equal length is a duplicate
    assert!(!store.put(key.clone(), 7));
    assert_eq!(store.get(&key), Some(7));
    // a larger length is a duplicate
    assert!(!store.put(key.clone(), 9));
    assert_eq!(store.get(&key), Some(7));
    // a smaller length replaces
    assert!(store.put(key.clone(), 4));
    assert_eq!(store.get(&key), Some(4));
    assert!(!store.put(key.clone(), 5));
    assert_eq!(store.get(&key), Some(4));
    assert!(store.put(key.clone(), 0));
    assert_eq!(store.get(&key), Some(0));
}

#[test]
fn keys_are_kept_apart() {
    let mut store = MemoryStore::new();
    store.insert(vec![], 1);
    store.insert(vec![0], 2);
    store.insert(vec![0, 0], 3);
    store.insert(vec![1], 4);
    store.insert(vec![255, 255, 255, 255, 255, 255, 255, 255], 5);
    assert_eq!(store.get(&vec![]), Some(1));
    assert_eq!(store.get(&vec![0]), Some(2));
    assert_eq!(store.get(&vec![0, 0]), Some(3));
    assert_eq!(store.get(&vec![1]), Some(4));
    assert_eq!(store.get(&vec![255, 255, 255, 255, 255, 255, 255, 255]), Some(5));
    assert_eq!(store.get(&vec![0, 0, 0]), None);
    assert_eq!(store.get(&vec![2]), None);
    // insert overwrites whatever was there
    store.insert(vec![0], 200);
    assert_eq!(store.get(&vec![0]), Some(200));
    assert_eq!(store.get(&vec![0, 0]), Some(3));
}

#[test]
fn many_keys() {
    let mut store = MemoryStore::new();
    for a in 0..40u8 {
        for b in 0..40u8 {
            assert!(store.put(vec![a, b, a ^ b], a.wrapping_add(b)));
        }
    }
    for a in 0..40u8 {
        for b in 0..40u8 {
            assert_eq!(store.get(&vec![a, b, a ^ b]), Some(a.wrapping_add(b)));
            assert_eq!(store.get(&vec![a, b, 200]), None);
        }
    }
}

#[test]
fn the_rules_of_the_store() {
    assert!(should_record(None, 0));
    assert!(should_record(None, 255));
    assert!(should_record(Some(5), 4));
    assert!(!should_record(Some(5), 5));
    assert!(!should_record(Some(5), 6));
    assert!(!should_record(Some(0), 0));
    assert!(!is_stale(None, 3));
    assert!(!is_stale(Some(3), 3));
    assert!(!is_stale(Some(4), 3));
    assert!(is_stale(Some(2), 3));
}

#[test]
fn a_smaller_length_that_is_there_already_stays() {
    let mut store = MemoryStore::new();
    let key = vec![4u8, 2];
    store.insert(key.clone(), 1);
    assert!(!store.put(key.clone(), 3));
    assert!(!store.put(key.clone(), 5));
    assert_eq!(store.get(&key), Some(1));
    assert!(!store.put(key.clone(), 3));
    assert!(!store.put(key.clone(), 2));
    assert_eq!(store.get(&key), Some(1));
}
