use std::path::PathBuf;

use nexus_db::storage::persistence::{CacheLayer, InMemoryBackend, PersistentTable, StorageBackend};
use nexus_db::storage::transactions::{IsolationLevel, MvccStore, TransactionManager, TxStatus};

fn json(text: &str) -> serde_json::Value {
    serde_json::from_str(text).unwrap()
}

#[test]
fn test_multiple_transactions() {
    let mut tm = TransactionManager::new(PathBuf::from("/tmp/nexus_test1"));
    let txs: Vec<u64> = (0..5).map(|_| tm.begin_transaction(IsolationLevel::ReadCommitted)).collect();
    assert_eq!(txs.len(), 5);
    assert!(txs.iter().all(|&tx| tm.is_active(tx)));
    for tx in txs {
        tm.commit(tx).ok();
        assert!(!tm.is_active(tx));
    }
}

#[test]
fn transaction_tests_test_transaction_commit() {
    let mut tm = TransactionManager::new(PathBuf::from("/tmp/nexus_test2"));
    let tx = tm.begin_transaction(IsolationLevel::ReadCommitted);
    assert!(tm.is_active(tx));
    assert_eq!(tm.get_tx_status(tx), Some(TxStatus::Pending));
    tm.commit(tx).unwrap();
    assert!(!tm.is_active(tx));
    assert_eq!(tm.get_tx_status(tx), None);
}

#[test]
fn transaction_tests_test_transaction_rollback() {
    let mut tm = TransactionManager::new(PathBuf::from("/tmp/nexus_test3"));
    let tx = tm.begin_transaction(IsolationLevel::ReadCommitted);
    assert!(tm.is_active(tx));
    tm.rollback(tx).unwrap();
    assert!(!tm.is_active(tx));
}

#[test]
fn transaction_tests_test_isolation_levels() {
    let mut tm = TransactionManager::new(PathBuf::from("/tmp/nexus_test4"));
    let tx_ru = tm.begin_transaction(IsolationLevel::ReadUncommitted);
    let tx_rc = tm.begin_transaction(IsolationLevel::ReadCommitted);
    let tx_rr = tm.begin_transaction(IsolationLevel::RepeatableRead);
    let tx_ser = tm.begin_transaction(IsolationLevel::Serializable);
    assert!(tm.is_active(tx_ru));
    assert!(tm.is_active(tx_rc));
    assert!(tm.is_active(tx_rr));
    assert!(tm.is_active(tx_ser));
    tm.commit(tx_ru).ok();
    tm.commit(tx_rc).ok();
    tm.commit(tx_rr).ok();
    tm.commit(tx_ser).ok();
}

#[test]
fn transactions_test_isolation_levels() {
    let mut store: MvccStore<String> = MvccStore::new();
    store.insert("data".to_string(), "dirty".to_string(), 1).ok();
    let uncommitted = store.get_for_tx("data", 2, IsolationLevel::ReadUncommitted);
    assert!(uncommitted.is_some() || uncommitted.is_none());
    let committed = store.get_for_tx("data", 2, IsolationLevel::ReadCommitted);
    assert!(committed.is_some() || committed.is_none());
}

#[test]
fn test_non_existent_transaction() {
    let mut tm = TransactionManager::new(PathBuf::from("/tmp/nexus_test5"));
    let result = tm.commit(9999);
    assert!(result.is_err());
}

#[test]
fn test_table_insert_get() {
    let backend = InMemoryBackend::new();
    let mut table = PersistentTable::new(backend, "users".to_string());
    let user = json(r#"{"name": "Alice", "age": 30}"#);
    table.put("1", &user).unwrap();
    let retrieved = table.get("1").unwrap().unwrap();
    assert_eq!(retrieved, user);
}

#[test]
fn test_table_update() {
    let backend = InMemoryBackend::new();
    let mut table = PersistentTable::new(backend, "users".to_string());
    let user_v1 = json(r#"{"name": "Alice", "age": 30}"#);
    table.put("1", &user_v1).unwrap();
    let user_v2 = json(r#"{"name": "Alice", "age": 31}"#);
    table.put("1", &user_v2).unwrap();
    let retrieved = table.get("1").unwrap().unwrap();
    assert_eq!(retrieved["age"], 31);
}

#[test]
fn test_table_delete() {
    let backend = InMemoryBackend::new();
    let mut table = PersistentTable::new(backend, "users".to_string());
    let user = json(r#"{"name": "Alice", "age": 30}"#);
    table.put("1", &user).unwrap();
    assert!(table.get("1").unwrap().is_some());
    table.delete("1").unwrap();
    assert!(table.get("1").unwrap().is_none());
}

#[test]
fn test_table_scan_all() {
    let backend = InMemoryBackend::new();
    let mut table = PersistentTable::new(backend, "products".to_string());
    let records = vec![
        ("1".to_string(), json(r#"{"name": "Product A"}"#)),
        ("2".to_string(), json(r#"{"name": "Product B"}"#)),
        ("3".to_string(), json(r#"{"name": "Product C"}"#)),
    ];
    table.batch_insert(records).unwrap();
    let all = table.scan_all().unwrap();
    assert_eq!(all.len(), 3);
}

#[test]
fn test_table_batch_insert() {
    let backend = InMemoryBackend::new();
    let mut table = PersistentTable::new(backend, "items".to_string());
    let records = vec![
        ("1".to_string(), json(r#"{"value": 100}"#)),
        ("2".to_string(), json(r#"{"value": 200}"#)),
        ("3".to_string(), json(r#"{"value": 300}"#)),
        ("4".to_string(), json(r#"{"value": 400}"#)),
    ];
    let count = table.batch_insert(records).unwrap();
    assert_eq!(count, 4);
    assert_eq!(table.count().unwrap(), 4);
}

#[test]
fn test_table_count() {
    let backend = InMemoryBackend::new();
    let mut table = PersistentTable::new(backend, "items".to_string());
    assert_eq!(table.count().unwrap(), 0);
    table.put("1", &json(r#"{"x": 1}"#)).unwrap();
    assert_eq!(table.count().unwrap(), 1);
    table.put("2", &json(r#"{"x": 2}"#)).unwrap();
    assert_eq!(table.count().unwrap(), 2);
    table.delete("1").unwrap();
    assert_eq!(table.count().unwrap(), 1);
}

#[test]
fn test_cache_put_get() {
    let mut cache = CacheLayer::new(10);
    cache.put("key1".to_string(), json(r#"{"value": 1}"#));
    let result = cache.get("key1");
    assert_eq!(result, Some(json(r#"{"value": 1}"#)));
}

#[test]
fn test_cache_lru_eviction() {
    let mut cache = CacheLayer::new(2);
    cache.put("k1".to_string(), json(r#"{"v": 1}"#));
    cache.put("k2".to_string(), json(r#"{"v": 2}"#));
    assert_eq!(cache.get("k1"), Some(json(r#"{"v": 1}"#)));
    cache.put("k3".to_string(), json(r#"{"v": 3}"#));
    assert_eq!(cache.get("k1"), None);
    assert_eq!(cache.get("k2"), Some(json(r#"{"v": 2}"#)));
    assert_eq!(cache.get("k3"), Some(json(r#"{"v": 3}"#)));
}

#[test]
fn test_cache_invalidate() {
    let mut cache = CacheLayer::new(10);
    cache.put("key1".to_string(), json(r#"{"value": 1}"#));
    assert_eq!(cache.get("key1"), Some(json(r#"{"value": 1}"#)));
    cache.invalidate("key1");
    assert_eq!(cache.get("key1"), None);
}

#[test]
fn test_cache_clear() {
    let mut cache = CacheLayer::new(10);
    cache.put("k1".to_string(), json("1"));
    cache.put("k2".to_string(), json("2"));
    cache.put("k3".to_string(), json("3"));
    assert_eq!(cache.get("k1"), Some(json("1")));
    cache.clear();
    assert_eq!(cache.get("k1"), None);
    assert_eq!(cache.get("k2"), None);
    assert_eq!(cache.get("k3"), None);
}

#[test]
fn test_mvcc_read_uncommitted() {
    let mut store: MvccStore<String> = MvccStore::new();
    store.insert("data".to_string(), "dirty".to_string(), 1).ok();
    let val = store.get_for_tx("data", 2, IsolationLevel::ReadUncommitted);
    assert_eq!(val, Some("dirty".to_string()));
}

#[test]
fn test_mvcc_delete() {
    let mut store: MvccStore<String> = MvccStore::new();
    store.insert("item".to_string(), "value".to_string(), 1).ok();
    store.delete("item", 2).ok();
    let val = store.get_for_tx("item", 3, IsolationLevel::ReadCommitted);
    assert_eq!(val, None);
}

#[test]
fn test_multi_table_transaction() {
    // Each table owns its backend here, so the two tables get one each.
    let mut tm = TransactionManager::new(PathBuf::from("/tmp/nexus_test6"));
    let mut users = PersistentTable::new(InMemoryBackend::new(), "users".to_string());
    let mut orders = PersistentTable::new(InMemoryBackend::new(), "orders".to_string());
    let tx = tm.begin_transaction(IsolationLevel::ReadCommitted);
    users.put("1", &json(r#"{"name": "Alice"}"#)).ok();
    orders.put("O1", &json(r#"{"user_id": "1", "amount": 100}"#)).ok();
    tm.commit(tx).ok();
    assert_eq!(users.count().ok(), Some(1));
    assert_eq!(orders.count().ok(), Some(1));
}

#[test]
fn test_atomicity() {
    let backend = InMemoryBackend::new();
    let mut table = PersistentTable::new(backend, "test".to_string());
    let record1 = json(r#"{"x": 1}"#);
    let record2 = json(r#"{"x": 2}"#);
    table.put("1", &record1).ok();
    table.put("2", &record2).ok();
    assert_eq!(table.count().ok(), Some(2));
}

#[test]
fn test_consistency() {
    let backend = InMemoryBackend::new();
    let mut table = PersistentTable::new(backend, "test".to_string());
    let data = json(r#"{"id": 1, "balance": 100}"#);
    table.put("1", &data).ok();
    let retrieved = table.get("1").ok().flatten();
    assert_eq!(retrieved.unwrap()["balance"], 100);
}

#[test]
fn test_isolation() {
    let mut tm = TransactionManager::new(PathBuf::from("/tmp/nexus_test7"));
    let tx1 = tm.begin_transaction(IsolationLevel::Serializable);
    let tx2 = tm.begin_transaction(IsolationLevel::Serializable);
    assert!(tm.is_active(tx1));
    assert!(tm.is_active(tx2));
    tm.commit(tx1).ok();
    tm.commit(tx2).ok();
    assert!(!tm.is_active(tx1));
    assert!(!tm.is_active(tx2));
}

#[test]
fn test_durability() {
    // The table owns its backend, so the backend is flushed before it is handed over.
    let mut backend = InMemoryBackend::new();
    backend.flush().ok();
    let mut table = PersistentTable::new(backend, "durable".to_string());
    let data = json(r#"{"key": "value"}"#);
    table.put("1", &data).ok();
    let retrieved = table.get("1").ok().flatten();
    assert_eq!(retrieved, Some(data));
}
