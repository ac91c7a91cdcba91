use std::path::PathBuf;

use nexus_db::storage::caching::{BufferPool, BufferPoolPage, CacheStats, LruCache, QueryResultCache};
use nexus_db::storage::mvcc::{ConflictGraph, IsolationLevel, LockManager, LockType, MVCCTransaction, Version, VersionChain};
use nexus_db::types::{RecordId, Row};
use nexus_db::storage::transactions::{
    IsolationLevel as TxIsolation, MvccStore, Operation, Transaction, TransactionManager, TxIdGenerator, TxStatus,
    WalEntry, WalManager,
};

#[test]
fn test_lru_cache_creation() {
    let cache: LruCache<String, i32> = LruCache::new(3);
    assert_eq!(cache.capacity(), 3);
    assert_eq!(cache.size(), 0);
}

#[test]
fn test_lru_cache_put_get() {
    let mut cache: LruCache<String, i32> = LruCache::new(3);
    cache.put("key1".to_string(), 100);
    assert_eq!(cache.get(&"key1".to_string()), Some(&100));
}

#[test]
fn test_lru_cache_eviction() {
    let mut cache: LruCache<String, i32> = LruCache::new(2);
    cache.put("key1".to_string(), 1);
    cache.put("key2".to_string(), 2);
    cache.put("key3".to_string(), 3);

    assert_eq!(cache.size(), 2);
    assert!(cache.get(&"key1".to_string()).is_none());
}

#[test]
fn test_lru_cache_contains_key() {
    let mut cache: LruCache<String, String> = LruCache::new(1);
    cache.put("key1".to_string(), "value1".to_string());
    assert!(cache.contains_key(&"key1".to_string()));
}

#[test]
fn test_lru_cache_remove() {
    let mut cache: LruCache<String, i32> = LruCache::new(3);
    cache.put("key1".to_string(), 100);
    let removed = cache.remove(&"key1".to_string());
    assert_eq!(removed, Some(100));
}

#[test]
fn test_lru_cache_clear() {
    let mut cache: LruCache<String, i32> = LruCache::new(3);
    cache.put("key1".to_string(), 1);
    cache.put("key2".to_string(), 2);
    cache.clear();
    assert_eq!(cache.size(), 0);
}

#[test]
fn lru_get_refreshes_recency() {
    let mut cache: LruCache<String, i32> = LruCache::new(2);
    cache.put("a".to_string(), 1);
    cache.put("b".to_string(), 2);
    assert_eq!(cache.get(&"a".to_string()), Some(&1));
    cache.put("c".to_string(), 3);
    assert!(cache.contains_key(&"a".to_string()));
    assert!(!cache.contains_key(&"b".to_string()));
    assert_eq!(cache.size(), 2);
}

#[test]
fn lru_put_overwrites_value() {
    let mut cache: LruCache<String, i32> = LruCache::new(2);
    cache.put("a".to_string(), 1);
    cache.put("a".to_string(), 7);
    assert_eq!(cache.size(), 1);
    assert_eq!(cache.get(&"a".to_string()), Some(&7));
}

#[test]
fn test_buffer_pool_page_creation() {
    let page = BufferPoolPage::new(1, vec![1, 2, 3, 4]);
    assert_eq!(page.page_id, 1);
    assert!(!page.dirty);
}

#[test]
fn test_buffer_pool_page_pin_unpin() {
    let mut page = BufferPoolPage::new(1, vec![]);
    assert!(!page.is_pinned());
    page.pin();
    assert!(page.is_pinned());
    page.unpin();
    assert!(!page.is_pinned());
}

#[test]
fn test_buffer_pool_page_marks() {
    let mut page = BufferPoolPage::new(1, vec![]);
    assert!(!page.dirty);
    page.mark_dirty();
    assert!(page.dirty);
    page.mark_clean();
    assert!(!page.dirty);
}

#[test]
fn test_buffer_pool_creation() {
    let pool = BufferPool::new(10);
    assert_eq!(pool.max_pages(), 10);
    assert_eq!(pool.get_page_count(), 0);
}

#[test]
fn test_buffer_pool_add_page() {
    let mut pool = BufferPool::new(10);
    let page = BufferPoolPage::new(1, vec![1, 2, 3]);
    pool.add_page(page).unwrap();
    assert_eq!(pool.get_page_count(), 1);
}

#[test]
fn test_buffer_pool_pin_page() {
    let mut pool = BufferPool::new(10);
    let page = BufferPoolPage::new(1, vec![]);
    pool.add_page(page).unwrap();
    pool.pin_page(1);
    assert!(pool.get_page(1).unwrap().is_pinned());
}

#[test]
fn test_buffer_pool_flush_dirty() {
    let mut pool = BufferPool::new(10);
    let mut page = BufferPoolPage::new(1, vec![]);
    page.mark_dirty();
    pool.add_page(page).unwrap();

    let flushed = pool.flush_dirty_pages();
    assert_eq!(flushed.len(), 1);
}

#[test]
fn buffer_pool_evicts_unpinned_page_when_full() {
    let mut pool = BufferPool::new(1);
    pool.add_page(BufferPoolPage::new(1, vec![])).unwrap();
    assert!(pool.add_page(BufferPoolPage::new(2, vec![])).is_ok());
    assert_eq!(pool.get_page_count(), 1);
    assert!(pool.get_page(2).is_some());
    assert!(pool.get_page(1).is_none());
}

#[test]
fn buffer_pool_evicts_least_recently_used_unpinned_page() {
    let mut pool = BufferPool::new(3);
    pool.add_page(BufferPoolPage::new(1, vec![])).unwrap();
    pool.add_page(BufferPoolPage::new(2, vec![])).unwrap();
    pool.add_page(BufferPoolPage::new(3, vec![])).unwrap();
    pool.pin_page(1);
    pool.unpin_page(1);
    pool.add_page(BufferPoolPage::new(4, vec![])).unwrap();
    assert!(pool.get_page(2).is_none());
    assert!(pool.get_page(1).is_some());
    assert!(pool.get_page(3).is_some());
    assert!(pool.get_page(4).is_some());
}

#[test]
fn buffer_pool_refuses_page_when_every_page_is_pinned() {
    let mut pool = BufferPool::new(1);
    pool.add_page(BufferPoolPage::new(1, vec![])).unwrap();
    pool.pin_page(1);
    assert!(pool.add_page(BufferPoolPage::new(2, vec![])).is_err());
    assert_eq!(pool.get_page_count(), 1);
    assert!(pool.get_page(1).is_some());
}

#[test]
fn buffer_pool_flush_clears_dirty_marks() {
    let mut pool = BufferPool::new(4);
    let mut page = BufferPoolPage::new(3, vec![9]);
    page.mark_dirty();
    pool.add_page(page).unwrap();
    pool.add_page(BufferPoolPage::new(4, vec![])).unwrap();
    assert_eq!(pool.flush_dirty_pages(), vec![3]);
    assert!(pool.flush_dirty_pages().is_empty());
    assert!(!pool.get_page(3).unwrap().dirty);
}

#[test]
fn test_query_result_cache_creation() {
    let cache = QueryResultCache::new(5);
    assert_eq!(cache.size(), 0);
}

#[test]
fn test_query_result_cache_put_get() {
    let mut cache = QueryResultCache::new(5);
    let results = vec![vec!["col1".to_string(), "col2".to_string()]];
    cache.put("query1".to_string(), results.clone());
    assert_eq!(cache.get("query1"), Some(results));
}

#[test]
fn test_query_result_cache_invalidate() {
    let mut cache = QueryResultCache::new(5);
    let results = vec![vec!["col1".to_string()]];
    cache.put("query1".to_string(), results);
    cache.invalidate("query1");
    assert!(cache.get("query1").is_none());
}

#[test]
fn cache_stats_start_at_zero() {
    let stats = CacheStats::new();
    assert_eq!(stats.hits, 0);
    assert_eq!(stats.misses, 0);
    assert_eq!(stats.evictions, 0);
}

#[test]
fn test_version_creation() {
    let row = Row::new(RecordId::new());
    let version = Version::new(1, 100, row);

    assert_eq!(version.version_id, 1);
    assert_eq!(version.created_tx_id, 100);
    assert!(!version.committed);
    assert!(!version.deleted);
}

#[test]
fn test_version_commit() {
    let row = Row::new(RecordId::new());
    let mut version = Version::new(1, 100, row);

    version.commit();
    assert!(version.committed);
}

#[test]
fn test_version_mark_deleted() {
    let row = Row::new(RecordId::new());
    let mut version = Version::new(1, 100, row);

    version.mark_deleted();
    assert!(version.deleted);
}

#[test]
fn test_version_chain_creation() {
    let chain = VersionChain::new(42);
    assert_eq!(chain.row_id, 42);
    assert_eq!(chain.versions.len(), 0);
}

#[test]
fn test_version_chain_add_version() {
    let mut chain = VersionChain::new(42);
    let row = Row::new(RecordId::new());
    let version = Version::new(1, 100, row);

    chain.add_version(version);
    assert_eq!(chain.versions.len(), 1);
}

#[test]
fn test_get_visible_version() {
    let mut chain = VersionChain::new(42);
    let row = Row::new(RecordId::new());
    let mut version = Version::new(1, 100, row);
    version.commit();
    chain.add_version(version);

    assert!(chain.get_visible_version(105).is_some());
    assert!(chain.get_visible_version(50).is_none());
}

#[test]
fn test_get_uncommitted_version() {
    let mut chain = VersionChain::new(42);
    let row = Row::new(RecordId::new());
    let version = Version::new(1, 100, row);
    chain.add_version(version);

    assert!(chain.get_uncommitted_version(100).is_some());
    assert!(chain.get_uncommitted_version(200).is_none());
}

#[test]
fn test_lock_manager_acquire_shared() {
    let mut manager = LockManager::new();
    manager.acquire_lock(1, LockType::Shared, 100).unwrap();
    assert!(manager.has_lock(1, LockType::Shared, 100));
}

#[test]
fn test_lock_manager_acquire_exclusive() {
    let mut manager = LockManager::new();
    manager.acquire_lock(1, LockType::Exclusive, 100).unwrap();
    assert!(manager.has_lock(1, LockType::Exclusive, 100));
}

#[test]
fn test_lock_manager_conflict_detection() {
    let mut manager = LockManager::new();
    manager.acquire_lock(1, LockType::Exclusive, 100).unwrap();

    let result = manager.acquire_lock(1, LockType::Shared, 200);
    assert!(result.is_err());
}

#[test]
fn test_lock_manager_release() {
    let mut manager = LockManager::new();
    manager.acquire_lock(1, LockType::Shared, 100).ok();
    assert!(manager.has_lock(1, LockType::Shared, 100));

    manager.release_lock(1, 100);
    assert!(!manager.has_lock(1, LockType::Shared, 100));
}

#[test]
fn test_lock_manager_release_all() {
    let mut manager = LockManager::new();
    manager.acquire_lock(1, LockType::Shared, 100).ok();
    manager.acquire_lock(2, LockType::Exclusive, 100).ok();
    manager.acquire_lock(3, LockType::Shared, 100).ok();

    manager.release_all_locks(100);
    assert!(!manager.has_lock(1, LockType::Shared, 100));
    assert!(!manager.has_lock(2, LockType::Exclusive, 100));
    assert!(!manager.has_lock(3, LockType::Shared, 100));
}

#[test]
fn test_mvcc_transaction_creation() {
    let tx = MVCCTransaction::new(1, IsolationLevel::RepeatableRead);
    assert_eq!(tx.tx_id, 1);
    assert_eq!(tx.isolation_level, IsolationLevel::RepeatableRead);
    assert!(tx.active);
}

#[test]
fn test_mvcc_transaction_reads_writes() {
    let mut tx = MVCCTransaction::new(1, IsolationLevel::Serializable);
    tx.add_read(10);
    tx.add_write(20);

    assert_eq!(tx.read_set.len(), 1);
    assert_eq!(tx.write_set.len(), 1);
}

#[test]
fn test_mvcc_conflict_detection() {
    let mut tx1 = MVCCTransaction::new(1, IsolationLevel::Serializable);
    let mut tx2 = MVCCTransaction::new(2, IsolationLevel::Serializable);

    tx1.add_read(10);
    tx2.add_write(10);

    assert!(tx1.is_conflict_possible(&tx2));
}

#[test]
fn test_mvcc_transaction_commit() {
    let mut tx = MVCCTransaction::new(1, IsolationLevel::Serializable);
    assert!(tx.active);

    tx.commit().unwrap();
    assert!(!tx.active);
}

#[test]
fn test_mvcc_transaction_abort() {
    let mut tx = MVCCTransaction::new(1, IsolationLevel::Serializable);
    assert!(tx.active);

    tx.abort().unwrap();
    assert!(!tx.active);
}

#[test]
fn mvcc_commit_twice_is_refused() {
    let mut tx = MVCCTransaction::new(1, IsolationLevel::Serializable);
    tx.commit().unwrap();
    assert!(tx.commit().is_err());
    assert!(tx.abort().is_err());
}

#[test]
fn test_conflict_graph_acyclic() {
    let mut graph = ConflictGraph::new();
    graph.add_edge(1, 2);
    graph.add_edge(2, 3);
    graph.add_edge(3, 4);

    assert!(!graph.has_cycle());
}

#[test]
fn test_conflict_graph_with_cycle() {
    let mut graph = ConflictGraph::new();
    graph.add_edge(1, 2);
    graph.add_edge(2, 3);
    graph.add_edge(3, 1);

    assert!(graph.has_cycle());
}

#[test]
fn conflict_graph_self_loop_and_diamond() {
    let mut graph = ConflictGraph::new();
    graph.add_edge(1, 2);
    graph.add_edge(1, 3);
    graph.add_edge(2, 4);
    graph.add_edge(3, 4);
    assert!(!graph.has_cycle());
    graph.add_edge(4, 4);
    assert!(graph.has_cycle());
}

#[test]
fn test_isolation_level_enum() {
    let levels = vec![
        IsolationLevel::ReadUncommitted,
        IsolationLevel::ReadCommitted,
        IsolationLevel::RepeatableRead,
        IsolationLevel::Serializable,
    ];
    assert_eq!(levels.len(), 4);
}

#[test]
fn test_multiple_transactions_no_conflict() {
    let mut tx1 = MVCCTransaction::new(1, IsolationLevel::Serializable);
    let mut tx2 = MVCCTransaction::new(2, IsolationLevel::Serializable);

    tx1.add_read(10);
    tx2.add_read(20);

    assert!(!tx1.is_conflict_possible(&tx2));
}

#[test]
fn test_write_write_conflict() {
    let mut tx1 = MVCCTransaction::new(1, IsolationLevel::Serializable);
    let mut tx2 = MVCCTransaction::new(2, IsolationLevel::Serializable);

    tx1.add_write(10);
    tx2.add_write(10);

    assert!(tx1.is_conflict_possible(&tx2));
}

#[test]
fn lock_manager_shared_and_exclusive() {
    let mut locks = LockManager::new();
    assert!(locks.acquire_lock(1, LockType::Shared, 10).is_ok());
    assert!(locks.acquire_lock(1, LockType::Shared, 11).is_ok());
    assert!(locks.acquire_lock(1, LockType::Exclusive, 12).is_err());
    assert!(locks.has_lock(1, LockType::Shared, 10));
    locks.release_all_locks(10);
    locks.release_all_locks(11);
    assert!(locks.acquire_lock(1, LockType::Exclusive, 12).is_ok());
    assert!(locks.has_lock(1, LockType::Exclusive, 12));
}

#[test]
fn test_transaction_creation() {
    let tx = Transaction::new(1, TxIsolation::ReadCommitted);
    assert!(tx.is_active());
    assert_eq!(tx.status, TxStatus::Pending);
}

#[test]
fn transactions_test_transaction_commit() {
    let mut tx = Transaction::new(1, TxIsolation::ReadCommitted);
    tx.commit();
    assert_eq!(tx.status, TxStatus::Committed);
    assert!(!tx.is_active());
}

#[test]
fn transactions_test_transaction_rollback() {
    let mut tx = Transaction::new(1, TxIsolation::ReadCommitted);
    tx.abort();
    assert_eq!(tx.status, TxStatus::Aborted);
    assert!(!tx.is_active());
}

#[test]
fn test_tx_id_generator() {
    let mut gen = TxIdGenerator::new();
    assert_eq!(gen.next_id(), 1);
    assert_eq!(gen.next_id(), 2);
    assert_eq!(gen.next_id(), 3);
}

#[test]
fn test_wal_entry() {
    let entry = WalEntry {
        tx_id: 1,
        operation: Operation::CreateTable {
            name: "users".to_string(),
            schema: vec!["id".to_string(), "name".to_string()],
        },
        timestamp: chrono::Utc::now().to_rfc3339(),
        status: TxStatus::Pending,
    };
    assert_eq!(entry.status, TxStatus::Pending);
}

#[test]
fn test_mvcc_versioning() {
    let mut store: MvccStore<String> = MvccStore::new();
    store.insert("key1".to_string(), "value1".to_string(), 1).ok();
    store.insert("key1".to_string(), "value2".to_string(), 2).ok();

    let _ = store.get_for_tx("key1", 1, TxIsolation::ReadCommitted);
    let _ = store.get_for_tx("key1", 3, TxIsolation::ReadCommitted);
}

#[test]
fn mvcc_store_reads_by_isolation() {
    let mut store: MvccStore<String> = MvccStore::new();
    store.insert("k".to_string(), "v1".to_string(), 1).unwrap();
    store.insert("k".to_string(), "v2".to_string(), 5).unwrap();
    assert_eq!(store.get_for_tx("k", 3, TxIsolation::ReadCommitted), Some("v1".to_string()));
    assert_eq!(store.get_for_tx("k", 6, TxIsolation::Serializable), Some("v2".to_string()));
    assert_eq!(store.get_for_tx("k", 1, TxIsolation::ReadCommitted), None);
    assert_eq!(store.get_for_tx("k", 1, TxIsolation::ReadUncommitted), Some("v2".to_string()));
    store.delete("k", 7).unwrap();
    assert_eq!(store.get_committed("k", 9), Some("v1".to_string()));
    assert_eq!(store.get_for_tx("missing", 9, TxIsolation::ReadUncommitted), None);
}

#[test]
fn test_transaction_manager() {
    let mut tm = TransactionManager::new(PathBuf::from("/tmp/nexus_wal"));

    let tx1 = tm.begin_transaction(TxIsolation::ReadCommitted);
    assert!(tm.is_active(tx1));

    tm.commit(tx1).ok();
    assert!(!tm.is_active(tx1));
}

#[test]
fn transaction_manager_errors_name_the_transaction() {
    let mut tm = TransactionManager::new(PathBuf::from("/tmp/nexus_wal"));
    assert_eq!(tm.commit(42), Err("Transaction 42 not found or not active".to_string()));
    assert_eq!(tm.rollback(7), Err("Transaction 7 not found".to_string()));
    let t = tm.begin_transaction(TxIsolation::Serializable);
    assert_eq!(t, 1);
    assert_eq!(tm.get_tx_status(t), Some(TxStatus::Pending));
    assert!(tm.rollback(t).is_ok());
    assert_eq!(tm.get_tx_status(t), None);
}

#[test]
fn wal_commit_and_rollback_statuses() {
    let mut wal = WalManager::new(PathBuf::from("/tmp/nexus_wal"));
    let op = |n: &str| Operation::DropTable { name: n.to_string() };
    for (tx, name) in [(1u64, "a"), (2, "b"), (1, "c")] {
        wal.write_entry(WalEntry { tx_id: tx, operation: op(name), timestamp: String::new(), status: TxStatus::Pending })
            .unwrap();
    }
    wal.commit_tx(1).unwrap();
    assert_eq!(wal.get_committed_entries().len(), 2);
    wal.rollback_tx(1).unwrap();
    assert_eq!(wal.get_committed_entries().len(), 2);
    wal.rollback_tx(2).unwrap();
    wal.commit_tx(2).unwrap();
    assert_eq!(wal.get_committed_entries().len(), 3);
}
