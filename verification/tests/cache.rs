use linked_hash_map::LinkedHashMap;
use rendezvous::cache::{cache_touch, CACHE_SIZE};

fn keys_of(cache: &LinkedHashMap<u64, ()>) -> Vec<u64> {
    cache.keys().copied().collect()
}

#[test]
fn touch_reports_miss_then_hit() {
    let mut cache: LinkedHashMap<u64, ()> = LinkedHashMap::new();
    assert!(!cache_touch(&mut cache, 42));
    assert!(cache_touch(&mut cache, 42));
    assert!(!cache_touch(&mut cache, 7));
    assert!(cache_touch(&mut cache, 42));
    assert_eq!(cache.len(), 2);
}

#[test]
fn touch_keeps_keys_in_order_of_use() {
    let mut cache: LinkedHashMap<u64, ()> = LinkedHashMap::new();
    for key in [10u64, 20, 30, 40] {
        cache_touch(&mut cache, key);
    }
    assert_eq!(keys_of(&cache), vec![10, 20, 30, 40]);
    assert!(cache_touch(&mut cache, 20));
    assert_eq!(keys_of(&cache), vec![10, 30, 40, 20]);
    assert!(cache_touch(&mut cache, 10));
    assert_eq!(keys_of(&cache), vec![30, 40, 20, 10]);
    assert!(cache_touch(&mut cache, 10));
    assert_eq!(keys_of(&cache), vec![30, 40, 20, 10]);
}

#[test]
fn one_key_too_many_evicts_the_oldest() {
    let mut cache: LinkedHashMap<u64, ()> = LinkedHashMap::new();
    for key in 0..(CACHE_SIZE as u64 + 1) {
        assert!(!cache_touch(&mut cache, key));
    }
    assert_eq!(cache.len(), CACHE_SIZE);
    assert!(!cache.contains_key(&0));
    for key in 1..(CACHE_SIZE as u64 + 1) {
        assert!(cache.contains_key(&key));
    }
    let expected: Vec<u64> = (1..(CACHE_SIZE as u64 + 1)).collect();
    assert_eq!(keys_of(&cache), expected);
}

#[test]
fn refreshed_key_survives_the_next_eviction() {
    let mut cache: LinkedHashMap<u64, ()> = LinkedHashMap::new();
    for key in 0..(CACHE_SIZE as u64) {
        cache_touch(&mut cache, key);
    }
    assert!(cache_touch(&mut cache, 0));
    assert!(!cache_touch(&mut cache, 5000));
    assert_eq!(cache.len(), CACHE_SIZE);
    assert!(cache.contains_key(&0));
    assert!(!cache.contains_key(&1));
    assert!(cache.contains_key(&2));
    assert!(cache.contains_key(&5000));
}

#[test]
fn cache_below_capacity_evicts_nothing() {
    let mut cache: LinkedHashMap<u64, ()> = LinkedHashMap::new();
    for key in 0..(CACHE_SIZE as u64 - 1) {
        cache_touch(&mut cache, key);
    }
    assert_eq!(cache.len(), CACHE_SIZE - 1);
    assert!(!cache_touch(&mut cache, 9999));
    assert_eq!(cache.len(), CACHE_SIZE);
    assert!(cache.contains_key(&0));
}

#[test]
fn many_distinct_keys_leave_the_latest() {
    let mut cache: LinkedHashMap<u64, ()> = LinkedHashMap::new();
    let n = 3 * CACHE_SIZE as u64 + 17;
    for key in 0..n {
        cache_touch(&mut cache, key * 3);
    }
    let expected: Vec<u64> = ((n - CACHE_SIZE as u64)..n).map(|key| key * 3).collect();
    assert_eq!(keys_of(&cache), expected);
}
