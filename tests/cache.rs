use russdns::cache::DnsCache;

#[test]
fn get_returns_what_put_stored() {
    let mut cache = DnsCache::new(2);
    assert_eq!(cache.get("a"), None);
    cache.put("a".to_string(), vec![1, 2, 3]);
    assert_eq!(cache.get("a"), Some(vec![1, 2, 3]));
    cache.put("a".to_string(), vec![4]);
    assert_eq!(cache.get("a"), Some(vec![4]));
}

#[test]
fn inserting_past_capacity_evicts_least_recently_used() {
    let mut cache = DnsCache::new(3);
    cache.put("k0".to_string(), vec![0]);
    cache.put("k1".to_string(), vec![1]);
    cache.put("k2".to_string(), vec![2]);
    cache.put("k3".to_string(), vec![3]);
    assert_eq!(cache.get("k0"), None);
    assert_eq!(cache.get("k1"), Some(vec![1]));
    assert_eq!(cache.get("k2"), Some(vec![2]));
    assert_eq!(cache.get("k3"), Some(vec![3]));
}

#[test]
fn visited_entry_outlives_unvisited_peer() {
    let mut cache = DnsCache::new(2);
    cache.put("a".to_string(), vec![1]);
    cache.put("b".to_string(), vec![2]);
    assert_eq!(cache.get("a"), Some(vec![1]));
    cache.put("c".to_string(), vec![3]);
    assert_eq!(cache.get("b"), None);
    assert_eq!(cache.get("a"), Some(vec![1]));
    cache.put("d".to_string(), vec![4]);
    cache.put("e".to_string(), vec![5]);
    assert_eq!(cache.get("a"), None);
    assert_eq!(cache.get("e"), Some(vec![5]));
}

#[test]
fn capacity_one_keeps_only_the_latest() {
    let mut cache = DnsCache::new(1);
    cache.put("x".to_string(), vec![1]);
    cache.put("y".to_string(), vec![2]);
    assert_eq!(cache.get("x"), None);
    assert_eq!(cache.get("y"), Some(vec![2]));
}
