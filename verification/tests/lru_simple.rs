use lru_simple::Cache;
use lru_simple::Entry;
use lru_simple::Lru;
use lru_simple::LruCache1;
use lru_simple::LruCache2;

#[test]
fn lru_double_list_capacity() {
    let mut cache = LruCache2::new(2);
    assert_eq!(cache.len(), 0);
    let v0 = cache.put("first".to_string(), 1);
    assert!(v0 == None && cache.len() == 1);

    let v1 = cache.put("second".to_string(), 2);
    assert!(v1 == None && cache.len() == 2);

    cache.put("third".to_string(), 3);
    assert_eq!(cache.len(), 2);

    cache.clear();
    assert_eq!(cache.len(), 0);
}

#[test]
fn lru_double_list_put() {
    let mut cache = LruCache2::new(3);
    let v0 = cache.put("first".to_string(), 1);
    let v1 = cache.put("second".to_string(), 2);
    let v2 = cache.put("third".to_string(), 3);
    assert!(v0 == None && v1 == None && v2 == None);
    let v = cache.put("first".to_string(), 11);
    assert_eq!(v, Some(1));
}

#[test]
fn lru_double_list_get() {
    let mut cache = LruCache2::new(3);
    let v0 = cache.put("first".to_string(), 1);
    let v1 = cache.put("second".to_string(), 2);
    let v2 = cache.put("third".to_string(), 3);
    assert!(v0 == None && v1 == None && v2 == None);

    let g0 = cache.get(&"first".to_string());
    assert_eq!(g0.unwrap(), &1);

    let v3 = cache.put("four".to_string(), 4);
    assert_eq!(v3, None);
    let g1 = cache.get(&"second".to_string());
    assert_eq!(g1, None);
}

#[test]
fn lru_time_capacity() {
    let mut cache = LruCache1::new(2);
    assert_eq!(cache.len(), 0);
    let v0 = cache.put("first".to_string(), 1);
    assert!(v0 == None && cache.len() == 1);

    let v1 = cache.put("second".to_string(), 2);
    assert!(v1 == None && cache.len() == 2);

    cache.put("third".to_string(), 3);
    assert_eq!(cache.len(), 2);

    cache.clear();
    assert_eq!(cache.len(), 0);
}

#[test]
fn lru_time_put() {
    let mut cache = LruCache1::new(3);
    let v0 = cache.put("first".to_string(), 1);
    let v1 = cache.put("second".to_string(), 2);
    let v2 = cache.put("third".to_string(), 3);
    assert!(v0 == None && v1 == None && v2 == None);
    let v = cache.put("first".to_string(), 11);
    assert_eq!(v, Some(1));
}

#[test]
fn lru_time_get() {
    let mut cache = LruCache1::new(3);
    let v0 = cache.put("first".to_string(), 1);
    let v1 = cache.put("second".to_string(), 2);
    let v2 = cache.put("third".to_string(), 3);
    assert!(v0 == None && v1 == None && v2 == None);

    let g0 = cache.get(&"first".to_string());
    assert_eq!(g0.unwrap(), &1);

    let v3 = cache.put("four".to_string(), 4);
    assert_eq!(v3, None);
    let g1 = cache.get(&"second".to_string());
    assert_eq!(g1, None);
}

#[test]
fn eviction_scenario_indexed_list() {
    // capacity 2: the third distinct key evicts the first one
    let mut cache = LruCache2::new(2);
    cache.put("a".to_string(), 1);
    cache.put("b".to_string(), 2);
    cache.put("c".to_string(), 3);
    assert_eq!(cache.get(&"a".to_string()), None);
    assert_eq!(cache.get(&"b".to_string()), Some(&2));
    assert_eq!(cache.get(&"c".to_string()), Some(&3));
}

#[test]
fn eviction_scenario_timestamp() {
    let mut cache = LruCache1::new(2);
    cache.put("a".to_string(), 1);
    cache.put("b".to_string(), 2);
    cache.put("c".to_string(), 3);
    assert_eq!(cache.get(&"a".to_string()), None);
    assert_eq!(cache.get(&"b".to_string()), Some(&2));
    assert_eq!(cache.get(&"c".to_string()), Some(&3));
}

#[test]
fn get_refreshes_recency_indexed_list() {
    // a hit on "first" leaves "second" as the eviction victim
    let mut cache = LruCache2::new(3);
    cache.put("first".to_string(), 1);
    cache.put("second".to_string(), 2);
    cache.put("third".to_string(), 3);
    cache.get(&"first".to_string());
    cache.put("four".to_string(), 4);
    assert_eq!(cache.get(&"second".to_string()), None);
    assert_eq!(cache.get(&"first".to_string()), Some(&1));
    assert_eq!(cache.get(&"four".to_string()), Some(&4));
}

#[test]
fn get_refreshes_recency_timestamp() {
    let mut cache = LruCache1::new(3);
    cache.put("first".to_string(), 1);
    cache.put("second".to_string(), 2);
    cache.put("third".to_string(), 3);
    cache.get(&"first".to_string());
    cache.put("four".to_string(), 4);
    assert_eq!(cache.get(&"second".to_string()), None);
    assert_eq!(cache.get(&"first".to_string()), Some(&1));
    assert_eq!(cache.get(&"four".to_string()), Some(&4));
}

#[test]
fn update_returns_previous_value() {
    let mut cache = LruCache2::new(3);
    cache.put("first".to_string(), 1);
    let prev = cache.put("first".to_string(), 11);
    assert_eq!(prev, Some(1));
    assert_eq!(cache.get(&"first".to_string()), Some(&11));
    assert_eq!(cache.len(), 1);

    let mut cache1 = LruCache1::new(3);
    cache1.put("first".to_string(), 1);
    let prev1 = cache1.put("first".to_string(), 11);
    assert_eq!(prev1, Some(1));
    assert_eq!(cache1.get(&"first".to_string()), Some(&11));
    assert_eq!(cache1.len(), 1);
}

#[test]
fn update_at_full_capacity_evicts_nothing() {
    let mut cache = LruCache2::new(2);
    cache.put("a".to_string(), 1);
    cache.put("b".to_string(), 2);
    // updating "a" must not evict anyone, and makes "b" the LRU entry
    assert_eq!(cache.put("a".to_string(), 10), Some(1));
    assert_eq!(cache.len(), 2);
    cache.put("c".to_string(), 3);
    assert_eq!(cache.get(&"b".to_string()), None);
    assert_eq!(cache.get(&"a".to_string()), Some(&10));
}

#[test]
fn capacity_one_always_keeps_latest() {
    let mut cache = LruCache2::new(1);
    cache.put("a".to_string(), 1);
    cache.put("b".to_string(), 2);
    assert_eq!(cache.len(), 1);
    assert_eq!(cache.get(&"a".to_string()), None);
    assert_eq!(cache.get(&"b".to_string()), Some(&2));

    let mut cache1 = LruCache1::new(1);
    cache1.put("a".to_string(), 1);
    cache1.put("b".to_string(), 2);
    assert_eq!(cache1.len(), 1);
    assert_eq!(cache1.get(&"a".to_string()), None);
    assert_eq!(cache1.get(&"b".to_string()), Some(&2));
}

#[test]
fn capacity_bound_over_many_puts() {
    let mut cache = LruCache2::new(3);
    let mut cache1 = LruCache1::new(3);
    for i in 0..10 {
        cache.put(format!("key{}", i), i);
        assert!(cache.len() <= 3);
        cache1.put(format!("key{}", i), i);
        assert!(cache1.len() <= 3);
    }
    assert_eq!(cache.len(), 3);
    assert_eq!(cache1.len(), 3);
}

#[test]
fn clear_twice_and_reuse() {
    let mut cache = LruCache2::new(2);
    cache.put("a".to_string(), 1);
    cache.put("b".to_string(), 2);
    cache.clear();
    assert_eq!(cache.len(), 0);
    cache.clear();
    assert_eq!(cache.len(), 0);
    assert_eq!(cache.get(&"a".to_string()), None);
    assert_eq!(cache.get(&"b".to_string()), None);
    cache.put("c".to_string(), 3);
    assert_eq!(cache.len(), 1);
    assert_eq!(cache.get(&"c".to_string()), Some(&3));

    let mut cache1 = LruCache1::new(2);
    cache1.put("a".to_string(), 1);
    cache1.clear();
    cache1.clear();
    assert_eq!(cache1.len(), 0);
    assert_eq!(cache1.get(&"a".to_string()), None);
    cache1.put("c".to_string(), 3);
    assert_eq!(cache1.get(&"c".to_string()), Some(&3));
}

#[test]
fn facade_delegates() {
    let mut cache = Cache::new(3);
    cache.put(1.to_string(), "one");
    cache.put(2.to_string(), "two");
    cache.put(3.to_string(), "three");
    cache.put(4.to_string(), "four");
    assert_eq!(cache.len(), 3);
    assert_eq!(cache.get(&1.to_string()), None);
    assert_eq!(cache.get(&2.to_string()), Some(&"two"));
    cache.put(5.to_string(), "five");
    assert_eq!(cache.get(&3.to_string()), None);
    cache.clear();
    assert_eq!(cache.len(), 0);
}

#[test]
fn entry_construction() {
    let _e = Entry::new("first".to_string(), 1);
    let _f: Entry<&str> = Entry::new("second".to_string(), "two");
}
