use nexus_db::collections::StrMap;
use nexus_db::engine::multimodel::{DocumentStore, GraphStore, StoreError, TableStore};
use nexus_db::types::{ColumnDef, ColumnType, Document, GraphEdge, GraphNode, RecordId, Row, Value};

fn column(name: &str, column_type: ColumnType) -> ColumnDef {
    ColumnDef { name: name.to_string(), column_type, nullable: false, default: None }
}

#[test]
fn test_table_operations() {
    let mut tables = TableStore::new();
    let columns = vec![column("id", ColumnType::Integer), column("name", ColumnType::String)];
    tables.create_table("users".to_string(), columns).unwrap();
    let mut row = Row::new(RecordId::new());
    row.insert("name".to_string(), Value::String("Alice".to_string()));
    let row_id = tables.insert_row("users", row).unwrap();
    let retrieved = tables.get_row("users", row_id).unwrap();
    assert!(retrieved.is_some());
}

#[test]
fn test_document_operations() {
    let mut documents = DocumentStore::new();
    documents.create_collection("posts".to_string()).unwrap();
    let doc = Document::new(RecordId::new(), r#"{"title": "Hello", "content": "World", "likes": 42}"#.to_string());
    let doc_id = documents.insert_document("posts", doc).unwrap();
    let retrieved = documents.get_document("posts", doc_id).unwrap();
    assert!(retrieved.is_some());
    let data: serde_json::Value = serde_json::from_str(&retrieved.unwrap().data).unwrap();
    assert_eq!(data["title"], "Hello");
}

#[test]
fn test_graph_operations() {
    let mut graphs = GraphStore::new();
    graphs.create_graph("social".to_string()).unwrap();
    let node1 = GraphNode::new(RecordId::new(), "User".to_string());
    let node2 = GraphNode::new(RecordId::new(), "User".to_string());
    let (id1, id2) = (node1.id, node2.id);
    graphs.add_node("social", node1).unwrap();
    graphs.add_node("social", node2).unwrap();
    let edge = GraphEdge::new(id1, id2, "FOLLOWS".to_string());
    graphs.add_edge("social", edge).unwrap();
    let neighbors = graphs.get_neighbors("social", id1).unwrap();
    assert_eq!(neighbors.len(), 1);
    assert_eq!(neighbors[0], id2);
}

#[test]
fn table_store_refuses_duplicates_and_missing_tables() {
    let mut tables = TableStore::new();
    tables.create_table("t".to_string(), vec![column("id", ColumnType::Integer)]).unwrap();
    assert_eq!(
        tables.create_table("t".to_string(), vec![column("id", ColumnType::Integer)]),
        Err(StoreError::TableExists("t".to_string()))
    );
    assert_eq!(tables.create_table("u".to_string(), vec![]), Err(StoreError::NoColumns));
    assert_eq!(tables.insert_row("nope", Row::new(RecordId::new())), Err(StoreError::TableMissing("nope".to_string())));
    assert!(tables.get_all_rows("nope").is_err());
    let meta = tables.get_table_metadata("t").unwrap();
    assert_eq!(meta.primary_key, "id");
    assert_eq!(tables.list_tables(), vec!["t".to_string()]);
}

#[test]
fn table_rows_are_counted_updated_and_deleted() {
    let mut tables = TableStore::new();
    tables.create_table("t".to_string(), vec![column("id", ColumnType::Integer)]).unwrap();
    let mut row = Row::new(RecordId::new());
    row.insert("id".to_string(), Value::Integer(1));
    let id = tables.insert_row("t", row).unwrap();
    tables.insert_row("t", Row::new(RecordId::new())).unwrap();
    assert_eq!(tables.get_table_metadata("t").unwrap().row_count, 2);
    let mut updates = StrMap::new();
    updates.insert("name".to_string(), Value::String("Bob".to_string()));
    updates.insert("id".to_string(), Value::Integer(7));
    tables.update_row("t", id, &updates).unwrap();
    let row = tables.get_row("t", id).unwrap().unwrap();
    assert_eq!(row.get("id"), Some(&Value::Integer(7)));
    assert_eq!(row.get("name"), Some(&Value::String("Bob".to_string())));
    assert_eq!(tables.get_all_rows("t").unwrap()[0].id, id);
    assert!(tables.delete_row("t", id).unwrap());
    assert!(!tables.delete_row("t", id).unwrap());
    assert_eq!(tables.get_table_metadata("t").unwrap().row_count, 1);
    assert!(tables.get_row("t", id).unwrap().is_none());
}

#[test]
fn documents_are_updated_and_deleted() {
    let mut documents = DocumentStore::new();
    documents.create_collection("c".to_string()).unwrap();
    assert_eq!(documents.create_collection("c".to_string()), Err(StoreError::CollectionExists("c".to_string())));
    let id = documents.insert_document("c", Document::new(RecordId::new(), "{}".to_string())).unwrap();
    documents.update_document("c", id, "[1]".to_string()).unwrap();
    assert_eq!(documents.get_document("c", id).unwrap().unwrap().data, "[1]");
    assert_eq!(documents.get_all_documents("c").unwrap().len(), 1);
    assert!(documents.delete_document("c", id).unwrap());
    assert!(documents.get_document("c", id).unwrap().is_none());
    assert_eq!(documents.list_collections(), vec!["c".to_string()]);
    assert!(documents.get_all_documents("missing").is_err());
}

#[test]
fn graph_neighbours_follow_edges_in_order() {
    let mut graphs = GraphStore::new();
    graphs.create_graph("g".to_string()).unwrap();
    assert_eq!(graphs.create_graph("g".to_string()), Err(StoreError::GraphExists("g".to_string())));
    let a = RecordId::new();
    let b = RecordId::new();
    let c = RecordId::new();
    for id in [a, b, c] {
        graphs.add_node("g", GraphNode::new(id, "N".to_string())).unwrap();
    }
    graphs.add_edge("g", GraphEdge::new(a, c, "E".to_string())).unwrap();
    graphs.add_edge("g", GraphEdge::new(a, b, "E".to_string())).unwrap();
    assert_eq!(graphs.get_neighbors("g", a).unwrap(), vec![c, b]);
    assert!(graphs.get_neighbors("g", b).unwrap().is_empty());
    assert_eq!(graphs.get_all_nodes("g").unwrap().len(), 3);
    assert_eq!(graphs.get_all_edges("g").unwrap().len(), 2);
    assert!(graphs.get_node("g", b).unwrap().is_some());
    assert_eq!(graphs.list_graphs(), vec!["g".to_string()]);
    assert!(graphs.add_node("missing", GraphNode::new(a, "N".to_string())).is_err());
}
