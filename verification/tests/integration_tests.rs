use nexus_db::engine::indexing::{BloomFilter, IndexingManager};
use nexus_db::engine::multimodel::{DocumentStore, GraphStore, TableStore};
use nexus_db::types::{ColumnDef, ColumnType, Document, GraphEdge, GraphNode, RecordId, Row, Value};

fn bloom_for(estimated_items: usize, false_positive_rate: f64) -> BloomFilter {
    let ln2_squared = 0.4804530139592104;
    let size = (((estimated_items as f64) * false_positive_rate.ln().abs()) / ln2_squared) as usize;
    let size = size.max(8);
    let hashes = ((size as f64 / estimated_items as f64) * 2.0_f64.ln()).ceil() as usize;
    BloomFilter::with_parameters(size, hashes)
}

#[test]
fn test_phase1_table_storage() {
    let mut tables = TableStore::new();
    let schema = vec![
        ColumnDef { name: "id".to_string(), column_type: ColumnType::Integer, nullable: false, default: None },
        ColumnDef { name: "name".to_string(), column_type: ColumnType::String, nullable: false, default: None },
    ];
    assert!(tables.create_table("users".to_string(), schema).is_ok());
    let mut row = Row::new(RecordId::new());
    row.insert("name".to_string(), Value::String("Alice".to_string()));
    let result = tables.insert_row("users", row);
    assert!(result.is_ok());
    let names = tables.list_tables();
    assert_eq!(names.len(), 1);
    assert!(names.contains(&"users".to_string()));
}

#[test]
fn test_phase1_document_storage() {
    let mut documents = DocumentStore::new();
    assert!(documents.create_collection("posts".to_string()).is_ok());
    let data: serde_json::Value = serde_json::from_str(r#"{"title": "Test Post", "author": "Alice"}"#).unwrap();
    let doc = Document::new(RecordId::new(), data.to_string());
    let result = documents.insert_document("posts", doc);
    assert!(result.is_ok());
    let collections = documents.list_collections();
    assert_eq!(collections.len(), 1);
    assert!(collections.contains(&"posts".to_string()));
}

#[test]
fn test_phase1_graph_storage() {
    let mut graphs = GraphStore::new();
    assert!(graphs.create_graph("social".to_string()).is_ok());
    let mut node1 = GraphNode::new(RecordId::new(), "User".to_string());
    node1.properties.insert("name".to_string(), Value::String("Alice".to_string()));
    let mut node2 = GraphNode::new(RecordId::new(), "User".to_string());
    node2.properties.insert("name".to_string(), Value::String("Bob".to_string()));
    let id1 = graphs.add_node("social", node1).unwrap();
    let id2 = graphs.add_node("social", node2).unwrap();
    let edge = GraphEdge::new(id1, id2, "FOLLOWS".to_string());
    assert!(graphs.add_edge("social", edge).is_ok());
    let names = graphs.list_graphs();
    assert_eq!(names.len(), 1);
    assert!(names.contains(&"social".to_string()));
}

#[test]
fn test_phase3_btree_index() {
    let mut indexing = IndexingManager::new();
    let result = indexing.create_btree_index("users".to_string(), "name".to_string());
    assert!(result.is_ok());
    let index = indexing.get_btree_index("users", "name");
    assert!(index.is_some());
}

#[test]
fn test_phase3_hash_index() {
    let mut indexing = IndexingManager::new();
    let result = indexing.create_hash_index("users".to_string(), "email".to_string());
    assert!(result.is_ok());
    let index = indexing.get_hash_index("users", "email");
    assert!(index.is_some());
}

#[test]
fn test_phase3_bloom_filter() {
    let mut indexing = IndexingManager::new();
    let result = indexing.create_bloom_filter("users".to_string(), "status".to_string(), bloom_for(1000, 0.01));
    assert!(result.is_ok());
    let bloom = indexing.get_bloom_filter("users", "status");
    assert!(bloom.is_some());
}

#[test]
fn test_phase3_indexing_integration() {
    let mut indexing = IndexingManager::new();
    indexing.create_btree_index("users".to_string(), "name".to_string()).ok();
    indexing.create_hash_index("users".to_string(), "email".to_string()).ok();
    indexing.create_bloom_filter("users".to_string(), "status".to_string(), bloom_for(1000, 0.01)).ok();
    let btree_exists = indexing.get_btree_index("users", "name").is_some();
    let hash_exists = indexing.get_hash_index("users", "email").is_some();
    let bloom_exists = indexing.get_bloom_filter("users", "status").is_some();
    assert!(btree_exists);
    assert!(hash_exists);
    assert!(bloom_exists);
}

#[test]
fn test_document_json_flexibility() {
    let mut documents = DocumentStore::new();
    documents.create_collection("flexible".to_string()).ok();
    let first: serde_json::Value = serde_json::from_str(r#"{"name": "Alice", "age": 30}"#).unwrap();
    let second: serde_json::Value =
        serde_json::from_str(r#"{"name": "Bob", "country": "USA", "nested": {"city": "New York"}}"#).unwrap();
    let doc1 = Document::new(RecordId::new(), first.to_string());
    let doc2 = Document::new(RecordId::new(), second.to_string());
    assert!(documents.insert_document("flexible", doc1).is_ok());
    assert!(documents.insert_document("flexible", doc2).is_ok());
}

#[test]
#[allow(non_snake_case)]
fn test_graph_traversal() {
    let mut graphs = GraphStore::new();
    graphs.create_graph("traverse".to_string()).ok();
    let mut nodeA = GraphNode::new(RecordId::new(), "Node".to_string());
    nodeA.properties.insert("name".to_string(), Value::String("A".to_string()));
    let mut nodeB = GraphNode::new(RecordId::new(), "Node".to_string());
    nodeB.properties.insert("name".to_string(), Value::String("B".to_string()));
    let mut nodeC = GraphNode::new(RecordId::new(), "Node".to_string());
    nodeC.properties.insert("name".to_string(), Value::String("C".to_string()));
    let idA = graphs.add_node("traverse", nodeA).unwrap();
    let idB = graphs.add_node("traverse", nodeB).unwrap();
    let idC = graphs.add_node("traverse", nodeC).unwrap();
    graphs.add_edge("traverse", GraphEdge::new(idA, idB, "links".to_string())).ok();
    graphs.add_edge("traverse", GraphEdge::new(idB, idC, "links".to_string())).ok();
    let neighbors = graphs.get_neighbors("traverse", idB).unwrap_or_default();
    assert!(neighbors.len() >= 1);
}

#[test]
fn test_metadata_preservation() {
    let mut tables = TableStore::new();
    let schema = vec![ColumnDef {
        name: "data".to_string(),
        column_type: ColumnType::String,
        nullable: false,
        default: Some(Value::String("default_value".to_string())),
    }];
    assert!(tables.create_table("metadata_test".to_string(), schema).is_ok());
    let names = tables.list_tables();
    assert!(names.contains(&"metadata_test".to_string()));
}

#[test]
fn test_value_type_names() {
    assert_eq!(Value::Null.value_type_name(), "null");
    assert_eq!(Value::Boolean(true).value_type_name(), "boolean");
    assert_eq!(Value::Integer(42).value_type_name(), "integer");
    assert_eq!(Value::String("hello".to_string()).value_type_name(), "string");
}

#[test]
fn test_row_creation() {
    let mut row = Row::new(RecordId::new());
    row.insert("name".to_string(), Value::String("Alice".to_string()));
    row.insert("age".to_string(), Value::Integer(30));
    assert_eq!(row.get("name"), Some(&Value::String("Alice".to_string())));
    assert_eq!(row.get("age"), Some(&Value::Integer(30)));
}

#[test]
fn test_graph_creation() {
    let node1 = GraphNode::new(RecordId::new(), "User".to_string());
    let node2 = GraphNode::new(RecordId::new(), "Post".to_string());
    let edge = GraphEdge::new(node1.id, node2.id, "WROTE".to_string());
    assert_eq!(edge.from_node, node1.id);
    assert_eq!(edge.to_node, node2.id);
    assert_eq!(edge.relation_type, "WROTE");
}

#[test]
fn column_types_display_their_names() {
    assert_eq!(ColumnType::Integer.display_text(), "INTEGER");
    assert_eq!(ColumnType::Vector(384).display_text(), "VECTOR(384)");
    assert_eq!(ColumnType::Timestamp.display_text(), "TIMESTAMP");
}
