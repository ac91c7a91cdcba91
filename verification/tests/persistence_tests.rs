use nexus_db::storage::persistence::{CacheLayer, InMemoryBackend, PersistentTable, RocksDbBackend, StorageBackend};

fn json(text: &str) -> serde_json::Value {
    serde_json::from_str(text).unwrap()
}

#[test]
fn test_in_memory_backend() {
    let mut backend = InMemoryBackend::new();
    backend.put("key1", b"value1").ok();
    let result = backend.get("key1").ok().flatten();
    assert_eq!(result, Some(b"value1".to_vec()));
    backend.delete("key1").ok();
    let result = backend.get("key1").ok().flatten();
    assert_eq!(result, None);
}

#[test]
fn test_persistent_table() {
    let backend = InMemoryBackend::new();
    let mut table = PersistentTable::new(backend, "users".to_string());
    let user = json(r#"{"name": "Alice", "age": 30}"#);
    table.put("1", &user).ok();
    let retrieved = table.get("1").ok().flatten();
    assert_eq!(retrieved, Some(user));
}

#[test]
fn test_scan_table() {
    let backend = InMemoryBackend::new();
    let mut table = PersistentTable::new(backend, "products".to_string());
    let records = vec![
        ("1".to_string(), json(r#"{"name": "Product A"}"#)),
        ("2".to_string(), json(r#"{"name": "Product B"}"#)),
        ("3".to_string(), json(r#"{"name": "Product C"}"#)),
    ];
    table.batch_insert(records).ok();
    let all = table.scan_all().ok().unwrap();
    assert_eq!(all.len(), 3);
}

#[test]
fn test_cache_layer() {
    let mut cache = CacheLayer::new(2);
    cache.put("k1".to_string(), json(r#"{"v": 1}"#));
    cache.put("k2".to_string(), json(r#"{"v": 2}"#));
    assert_eq!(cache.get("k1"), Some(json(r#"{"v": 1}"#)));
    cache.put("k3".to_string(), json(r#"{"v": 3}"#));
    assert_eq!(cache.get("k3"), Some(json(r#"{"v": 3}"#)));
}

#[test]
fn test_rocks_db_backend() {
    let backend = RocksDbBackend::new("/tmp/nexus_test").ok();
    assert!(backend.is_some());
}

#[test]
fn scan_lists_only_keys_under_the_prefix() {
    let mut backend = InMemoryBackend::new();
    backend.put("a:1", b"x").unwrap();
    backend.put("b:1", b"y").unwrap();
    backend.put("a:2", b"z").unwrap();
    let mut keys: Vec<String> = backend.scan("a:").unwrap().into_iter().map(|(k, _)| k).collect();
    keys.sort();
    assert_eq!(keys, vec!["a:1", "a:2"]);
    assert_eq!(backend.get_size(), 3);
    backend.clear();
    assert_eq!(backend.get_size(), 0);
}

#[test]
fn tables_share_a_backend_without_mixing_records() {
    let mut backend = InMemoryBackend::new();
    backend.put("users:9", b"not json").unwrap();
    let mut table = PersistentTable::new(backend, "users".to_string());
    table.put("1", &json("[1, 2]")).unwrap();
    assert!(table.get("9").is_err());
    assert_eq!(table.count().unwrap(), 1);
    let all = table.scan_all().unwrap();
    assert_eq!(all[0].0, "1");
    table.delete("1").unwrap();
    assert_eq!(table.get("1").unwrap(), None);
    assert_eq!(table.count().unwrap(), 0);
}

#[test]
fn full_cache_evicts_its_oldest_key() {
    let mut cache = CacheLayer::new(2);
    cache.put("k1".to_string(), json("1"));
    cache.put("k2".to_string(), json("2"));
    cache.put("k1".to_string(), json("10"));
    assert_eq!(cache.len(), 2);
    cache.put("k3".to_string(), json("3"));
    assert_eq!(cache.get("k1"), None);
    assert_eq!(cache.get("k2"), Some(json("2")));
    cache.invalidate("k2");
    assert_eq!(cache.len(), 1);
    cache.clear();
    assert_eq!(cache.len(), 0);
}
