use nexus_db::engine::indexing::{BTreeIndex, BloomFilter, HashIndex, IndexingManager};
use nexus_db::engine::query_cache::QueryCache;
use nexus_db::types::RecordId;

fn bloom_for(estimated_items: usize, false_positive_rate: f64) -> BloomFilter {
    let ln2_squared = 0.4804530139592104;
    let size = (((estimated_items as f64) * false_positive_rate.ln().abs()) / ln2_squared) as usize;
    let size = size.max(8);
    let hashes = ((size as f64 / estimated_items as f64) * 2.0_f64.ln()).ceil() as usize;
    BloomFilter::with_parameters(size, hashes)
}

#[test]
fn test_btree_index() {
    let mut idx = BTreeIndex::new("age".to_string());
    idx.insert("25".to_string(), RecordId::new());
    idx.insert("30".to_string(), RecordId::new());
    idx.insert("35".to_string(), RecordId::new());
    let results = idx.lookup("30");
    assert_eq!(results.len(), 1);
    let range = idx.range_query("25", "35");
    assert_eq!(range.len(), 3);
}

#[test]
fn test_hash_index() {
    let mut idx = HashIndex::new("email".to_string());
    let id = RecordId::new();
    idx.insert("user@example.com".to_string(), id);
    let results = idx.lookup("user@example.com");
    assert_eq!(results.len(), 1);
    assert_eq!(results[0], id);
}

#[test]
fn test_bloom_filter() {
    let mut bf = bloom_for(100, 0.01);
    bf.insert("apple");
    bf.insert("banana");
    bf.insert("cherry");
    assert!(bf.might_contain("apple"));
    assert!(bf.might_contain("banana"));
    assert!(bf.might_contain("cherry"));
}

#[test]
fn test_indexing_manager() {
    let mut manager = IndexingManager::new();
    manager.create_btree_index("users".to_string(), "name".to_string()).unwrap();
    manager.create_hash_index("users".to_string(), "id".to_string()).unwrap();
    let indices = manager.list_indices("users");
    assert_eq!(indices.len(), 2);
    assert_eq!(indices[0], ("name".to_string(), "btree".to_string()));
    assert_eq!(indices[1], ("id".to_string(), "hash".to_string()));
}

#[test]
fn range_query_walks_keys_in_order_and_includes_both_ends() {
    let mut idx = BTreeIndex::new("name".to_string());
    let ids: Vec<RecordId> = (0..5).map(|_| RecordId::new()).collect();
    idx.insert("delta".to_string(), ids[0]);
    idx.insert("alpha".to_string(), ids[1]);
    idx.insert("charlie".to_string(), ids[2]);
    idx.insert("bravo".to_string(), ids[3]);
    idx.insert("alpha".to_string(), ids[4]);
    assert_eq!(idx.range_query("alpha", "charlie"), vec![ids[1], ids[4], ids[3], ids[2]]);
    assert_eq!(idx.range_query("b", "c"), vec![ids[3]]);
    assert_eq!(idx.all_records(), vec![ids[1], ids[4], ids[3], ids[2], ids[0]]);
    assert!(idx.lookup("echo").is_empty());
}

#[test]
fn hash_index_remove_reports_an_emptied_key() {
    let mut idx = HashIndex::new("k".to_string());
    let a = RecordId::new();
    let b = RecordId::new();
    idx.insert("x".to_string(), a);
    idx.insert("x".to_string(), b);
    assert!(!idx.remove("x", a));
    assert_eq!(idx.lookup("x"), vec![b]);
    assert!(idx.remove("x", b));
    assert!(idx.lookup("x").is_empty());
    assert!(!idx.remove("missing", a));
}

#[test]
fn marked_texts_stay_found_as_others_are_marked() {
    let mut bf = BloomFilter::with_parameters(64, 3);
    bf.insert("first");
    for i in 0..50 {
        bf.insert(&format!("item{}", i));
        assert!(bf.might_contain("first"));
    }
    let empty = BloomFilter::with_parameters(16, 2);
    assert!(!empty.might_contain("anything"));
    assert_eq!(empty.bit_count(), 16);
}

#[test]
fn manager_replaces_an_index_and_keeps_its_place() {
    let mut manager = IndexingManager::new();
    manager.create_btree_index("t".to_string(), "a".to_string()).unwrap();
    manager.create_btree_index("t".to_string(), "b".to_string()).unwrap();
    manager.create_btree_index("t".to_string(), "a".to_string()).unwrap();
    let cols: Vec<String> = manager.list_indices("t").into_iter().map(|(c, _)| c).collect();
    assert_eq!(cols, vec!["a", "b"]);
    assert!(manager.get_btree_index("t", "a").is_some());
    assert!(manager.get_hash_index("t", "a").is_none());
    assert!(manager.list_indices("other").is_empty());
    manager.create_bloom_filter("t".to_string(), "a".to_string(), BloomFilter::with_parameters(8, 1)).unwrap();
    assert!(manager.get_bloom_filter("t", "a").is_some());
}

#[derive(Clone, Debug, PartialEq)]
struct QueryResult {
    row_count: usize,
}

impl QueryResult {
    fn new() -> Self {
        QueryResult { row_count: 0 }
    }
}

#[test]
fn test_query_cache() {
    let mut cache = QueryCache::new(10, 60);
    let mut result = QueryResult::new();
    result.row_count = 5;
    cache.put("SELECT * FROM users".to_string(), result.clone());
    let cached = cache.get("SELECT * FROM users");
    assert!(cached.is_some());
    assert_eq!(cached.unwrap().row_count, 5);
}

#[test]
fn query_cache_drops_stale_results() {
    let mut cache = QueryCache::new(10, 60);
    cache.put_at("q".to_string(), QueryResult { row_count: 1 }, 1_000_000);
    cache.put_at("q".to_string(), QueryResult { row_count: 2 }, 1_030_000);
    // The first entry of the query answers while it is fresh.
    assert_eq!(cache.get_at("q", 1_059_999), Some(QueryResult { row_count: 1 }));
    // Once it is 60 seconds old, every entry of the query goes.
    assert_eq!(cache.get_at("q", 1_060_000), None);
    assert_eq!(cache.stats(), (0, 10));
    // A time before the store counts as very old.
    cache.put_at("r".to_string(), QueryResult { row_count: 3 }, 5_000);
    assert_eq!(cache.get_at("r", 3_000), None);
}

#[test]
fn query_cache_evicts_the_oldest_when_full() {
    let mut cache = QueryCache::new(2, 300);
    cache.put_at("a".to_string(), QueryResult { row_count: 1 }, 0);
    cache.put_at("b".to_string(), QueryResult { row_count: 2 }, 0);
    cache.put_at("c".to_string(), QueryResult { row_count: 3 }, 0);
    assert_eq!(cache.stats(), (2, 2));
    assert_eq!(cache.get_at("a", 1), None);
    assert_eq!(cache.get_at("c", 1), Some(QueryResult { row_count: 3 }));
    cache.clear();
    assert_eq!(cache.stats(), (0, 2));
}
