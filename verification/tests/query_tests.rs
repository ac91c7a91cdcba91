use nexus_db::query::aggregates::{AggregateAccumulator, AggregateFunction, GroupByProcessor};
use nexus_db::query::cte::{CommonTableExpression, CteError, CteMaterializer, Subquery, SubqueryExecutor, SubqueryType};
use nexus_db::query::dml::{
    parse_delete, parse_insert_parts, parse_update_parts, DeleteStatement, DmlError, InsertStatement, UpdateStatement,
};
use nexus_db::query::fulltext::{Document, InvertedIndex, Posting, Token, Tokenizer};
use nexus_db::query::joins::{JoinCondition, JoinError, JoinExecutor, JoinType};
use nexus_db::query::optimization::{is_id_column, Histogram, HistogramBucket, PredicateType};
use nexus_db::query::planning::{ColumnStats, PlanError, PlanType, QueryPlanner, TableStats};
use nexus_db::query::window_functions::{
    apply_dense_rank, apply_first_value, apply_lag, apply_last_value, apply_lead, apply_rank,
    apply_row_number, process_partitions, FrameBound, FrameType, WindowError, WindowFrame, WindowFunctionContext,
    WindowFunctionType, WindowSpec,
};
use nexus_db::types::{RecordId, Row, Table, Value};

fn user_row(id: i64, name: &str) -> Row {
    let mut row = Row::new(RecordId::new());
    row.insert("id".to_string(), Value::Integer(id));
    row.insert("name".to_string(), Value::String(name.to_string()));
    row
}

fn order_row(id: i64, user_id: i64, total: i64) -> Row {
    let mut row = Row::new(RecordId::new());
    row.insert("id".to_string(), Value::Integer(id));
    row.insert("user_id".to_string(), Value::Integer(user_id));
    row.insert("total".to_string(), Value::Integer(total));
    row
}

fn int_of(v: &Value) -> i64 {
    match v {
        Value::Integer(n) => *n,
        other => panic!("expected an integer, got {:?}", other),
    }
}

// ---------------------------------------------------------------- cte

#[test]
fn test_cte_creation() {
    let cte = CommonTableExpression::new(
        "sales_data".to_string(),
        vec!["id".to_string(), "amount".to_string()],
        "SELECT id, amount FROM sales".to_string(),
        false,
    );
    assert_eq!(cte.name, "sales_data");
    assert_eq!(cte.get_column_count(), 2);
    assert!(!cte.is_recursive);
}

#[test]
fn test_cte_columns() {
    let cte = CommonTableExpression::new(
        "test".to_string(),
        vec!["col1".to_string(), "col2".to_string(), "col3".to_string()],
        "SELECT 1, 2, 3".to_string(),
        false,
    );
    assert_eq!(cte.get_column_count(), 3);
    assert_eq!(cte.get_columns().len(), 3);
}

#[test]
fn test_subquery_type_string() {
    assert_eq!(SubqueryType::Scalar.as_str(), "Scalar");
    assert_eq!(SubqueryType::Correlated.as_str(), "Correlated");
    assert_eq!(SubqueryType::Exists.as_str(), "Exists");
}

#[test]
fn test_subquery_creation() {
    let subquery = Subquery::new(
        "SELECT * FROM employees WHERE salary > 50000".to_string(),
        SubqueryType::Uncorrelated,
    );
    assert_eq!(subquery.subquery_type, SubqueryType::Uncorrelated);
    assert!(!subquery.is_correlated());
}

#[test]
fn test_subquery_correlation() {
    let subquery = Subquery::new(
        "SELECT COUNT(*) FROM orders WHERE customer_id = outer.id".to_string(),
        SubqueryType::Correlated,
    )
    .with_correlation(vec!["customer_id".to_string()]);
    assert!(subquery.is_correlated());
    assert_eq!(subquery.correlation_columns.len(), 1);
}

#[test]
fn test_cte_materializer_creation() {
    let materializer = CteMaterializer::new();
    assert_eq!(materializer.get_cte_count(), 0);
    assert_eq!(materializer.get_cache_size(), 0);
}

#[test]
fn test_cte_materializer_register() {
    let mut materializer = CteMaterializer::new();
    let cte = CommonTableExpression::new(
        "users".to_string(),
        vec!["id".to_string(), "name".to_string()],
        "SELECT id, name FROM users".to_string(),
        false,
    );
    materializer.register_cte(cte).unwrap();
    assert_eq!(materializer.get_cte_count(), 1);
}

#[test]
fn test_cte_materializer_get_cte() {
    let mut materializer = CteMaterializer::new();
    let cte = CommonTableExpression::new(
        "test_cte".to_string(),
        vec!["col1".to_string()],
        "SELECT 1".to_string(),
        false,
    );
    materializer.register_cte(cte.clone()).unwrap();
    let retrieved = materializer.get_cte("test_cte");
    assert!(retrieved.is_some());
    assert_eq!(retrieved.unwrap().name, "test_cte");
}

#[test]
fn test_cte_materializer_duplicate_error() {
    let mut materializer = CteMaterializer::new();
    let cte1 = CommonTableExpression::new("dup_cte".to_string(), vec!["id".to_string()], "SELECT 1".to_string(), false);
    let cte2 = CommonTableExpression::new("dup_cte".to_string(), vec!["id".to_string()], "SELECT 2".to_string(), false);
    materializer.register_cte(cte1).unwrap();
    assert!(materializer.register_cte(cte2).is_err());
}

#[test]
fn test_cte_materializer_cache() {
    let mut materializer = CteMaterializer::new();
    let mut row = Row::new(RecordId::new());
    row.insert("id".to_string(), Value::Integer(1));
    materializer.cache_results("test".to_string(), vec![row]).unwrap();
    assert_eq!(materializer.get_cache_size(), 1);
    assert!(materializer.get_cached_rows("test").is_some());
}

#[test]
fn test_cte_materializer_clear_cache() {
    let mut materializer = CteMaterializer::new();
    let mut row = Row::new(RecordId::new());
    row.insert("id".to_string(), Value::Integer(1));
    materializer.cache_results("test1".to_string(), vec![row.duplicate()]).unwrap();
    materializer.cache_results("test2".to_string(), vec![row]).unwrap();
    materializer.clear_cache(Some("test1"));
    assert_eq!(materializer.get_cache_size(), 1);
    materializer.clear_cache(None);
    assert_eq!(materializer.get_cache_size(), 0);
}

#[test]
fn test_cte_list_names() {
    let mut materializer = CteMaterializer::new();
    for i in 0..3 {
        let cte = CommonTableExpression::new(format!("cte_{}", i), vec!["col".to_string()], "SELECT 1".to_string(), false);
        materializer.register_cte(cte).unwrap();
    }
    let names = materializer.list_cte_names();
    assert_eq!(names.len(), 3);
}

#[test]
fn cte_execution_order_of_independent_ctes_is_registration_order() {
    let mut materializer = CteMaterializer::new();
    for name in ["a", "b", "c"] {
        let cte = CommonTableExpression::new(name.to_string(), vec![], "SELECT 1".to_string(), false);
        materializer.register_cte(cte).unwrap();
    }
    let order = materializer.build_execution_order().unwrap();
    assert_eq!(order.len(), 3);
    for name in ["a", "b", "c"] {
        assert!(order.iter().any(|n| n == name));
    }
}

#[test]
fn cte_get_unknown_is_none() {
    let materializer = CteMaterializer::new();
    assert!(materializer.get_cte("missing").is_none());
    assert!(materializer.get_cached_rows("missing").is_none());
}

#[test]
fn test_subquery_executor_creation() {
    let executor = SubqueryExecutor::new();
    assert_eq!(executor.get_subquery_count(), 0);
}

#[test]
fn test_subquery_executor_add() {
    let mut executor = SubqueryExecutor::new();
    let subquery = Subquery::new("SELECT * FROM t".to_string(), SubqueryType::Uncorrelated);
    executor.add_subquery("sq1".to_string(), subquery).unwrap();
    assert_eq!(executor.get_subquery_count(), 1);
}

#[test]
fn subquery_executor_duplicate_id_is_refused() {
    let mut executor = SubqueryExecutor::new();
    executor.add_subquery("sq".to_string(), Subquery::new("SELECT 1".to_string(), SubqueryType::Scalar)).unwrap();
    let second = executor.add_subquery("sq".to_string(), Subquery::new("SELECT 2".to_string(), SubqueryType::Scalar));
    assert!(matches!(second, Err(CteError::SubqueryExists(_))));
    assert_eq!(executor.get_subquery_count(), 1);
    assert_eq!(executor.get_subquery("sq").unwrap().query, "SELECT 1");
}

#[test]
fn test_subquery_executor_exists() {
    let executor = SubqueryExecutor::new();
    let mut row = Row::new(RecordId::new());
    row.insert("id".to_string(), Value::Integer(1));
    assert!(executor.eval_exists(&vec![row]));
    assert!(!executor.eval_exists(&vec![]));
}

#[test]
fn test_subquery_executor_scalar() {
    let executor = SubqueryExecutor::new();
    let mut row = Row::new(RecordId::new());
    row.insert("value".to_string(), Value::Integer(42));
    let result = executor.eval_scalar(&vec![row], "value").unwrap();
    match result {
        Value::Integer(n) => assert_eq!(n, 42),
        _ => panic!("Expected integer"),
    }
}

#[test]
fn test_subquery_executor_scalar_empty() {
    let executor = SubqueryExecutor::new();
    let result = executor.eval_scalar(&vec![], "value").unwrap();
    assert_eq!(result, Value::Null);
}

#[test]
fn test_subquery_executor_in() {
    let executor = SubqueryExecutor::new();
    let mut rows = Vec::new();
    for i in 1..=3 {
        let mut row = Row::new(RecordId::new());
        row.insert("id".to_string(), Value::Integer(i));
        rows.push(row);
    }
    let result = executor.eval_in(&rows, "id").unwrap();
    assert_eq!(result.len(), 3);
    assert_eq!(result[0], Value::Integer(1));
    assert_eq!(result[2], Value::Integer(3));
}

#[test]
fn subquery_scalar_of_missing_column_is_null_and_of_two_rows_an_error() {
    let executor = SubqueryExecutor::new();
    let mut row = Row::new(RecordId::new());
    row.insert("id".to_string(), Value::Integer(1));
    assert_eq!(executor.eval_scalar(&vec![row.duplicate()], "other").unwrap(), Value::Null);
    assert!(executor.eval_scalar(&vec![row.duplicate(), row], "id").is_err());
}

#[test]
fn test_subquery_executor_list_ids() {
    let mut executor = SubqueryExecutor::new();
    for i in 0..3 {
        let subquery = Subquery::new(format!("SELECT {}", i), SubqueryType::Scalar);
        executor.add_subquery(format!("sq_{}", i), subquery).unwrap();
    }
    let ids = executor.list_subquery_ids();
    assert_eq!(ids.len(), 3);
}

// ---------------------------------------------------------------- fulltext

#[test]
fn test_token_creation() {
    let token = Token::new("hello".to_string(), 0);
    assert_eq!(token.term, "hello");
    assert_eq!(token.position, 0);
    assert_eq!(token.frequency, 1);
}

#[test]
fn test_posting_creation() {
    let posting = Posting::new(1);
    assert_eq!(posting.doc_id, 1);
    assert_eq!(posting.term_frequency, 0);
}

#[test]
fn test_posting_add_position() {
    let mut posting = Posting::new(1);
    posting.add_position(0);
    posting.add_position(5);
    assert_eq!(posting.positions.len(), 2);
    assert_eq!(posting.term_frequency, 2);
}

#[test]
fn test_document_creation() {
    let doc = Document::new(1, "Title".to_string(), "The quick brown fox".to_string());
    assert_eq!(doc.doc_id, 1);
    assert_eq!(doc.title, "Title");
    assert_eq!(doc.length, 4);
}

#[test]
fn test_inverted_index_creation() {
    let index = InvertedIndex::new();
    assert_eq!(index.get_term_count(), 0);
    assert_eq!(index.get_document_count(), 0);
}

#[test]
fn test_inverted_index_add_document() {
    let mut index = InvertedIndex::new();
    let mut doc = Document::new(1, "Test".to_string(), "hello world".to_string());
    doc.set_tokens(vec![Token::new("hello".to_string(), 0), Token::new("world".to_string(), 1)]);
    index.add_document(&doc);
    assert_eq!(index.get_document_count(), 1);
    assert_eq!(index.get_term_count(), 2);
}

#[test]
fn inverted_index_keeps_one_posting_per_document_with_positions() {
    let mut index = InvertedIndex::new();
    let mut doc = Document::new(1, "t".to_string(), "database x database".to_string());
    doc.set_tokens(vec![Token::new("database".to_string(), 1), Token::new("database".to_string(), 5)]);
    index.add_document(&doc);
    let postings = index.search_term("database").unwrap();
    assert_eq!(postings.len(), 1);
    assert_eq!(postings[0].doc_id, 1);
    assert_eq!(postings[0].positions, vec![1, 5]);
    assert_eq!(postings[0].term_frequency, 2);
    assert_eq!(index.get_document_count(), 1);
}

#[test]
fn test_inverted_index_search_term() {
    let mut index = InvertedIndex::new();
    let mut doc = Document::new(1, "Test".to_string(), "hello world".to_string());
    doc.set_tokens(vec![Token::new("hello".to_string(), 0)]);
    index.add_document(&doc);
    assert!(index.search_term("hello").is_some());
    assert!(index.search_term("goodbye").is_none());
}

#[test]
fn test_inverted_index_search_and() {
    let mut index = InvertedIndex::new();
    let mut doc1 = Document::new(1, "Test1".to_string(), "hello world".to_string());
    doc1.set_tokens(vec![Token::new("hello".to_string(), 0), Token::new("world".to_string(), 1)]);
    let mut doc2 = Document::new(2, "Test2".to_string(), "hello there".to_string());
    doc2.set_tokens(vec![Token::new("hello".to_string(), 0)]);
    index.add_document(&doc1);
    index.add_document(&doc2);
    let results = index.search_and(&["hello", "world"]);
    assert_eq!(results.len(), 1);
    assert_eq!(results[0], 1);
}

#[test]
fn test_inverted_index_search_or() {
    let mut index = InvertedIndex::new();
    let mut doc1 = Document::new(1, "Test1".to_string(), "hello".to_string());
    doc1.set_tokens(vec![Token::new("hello".to_string(), 0)]);
    let mut doc2 = Document::new(2, "Test2".to_string(), "world".to_string());
    doc2.set_tokens(vec![Token::new("world".to_string(), 0)]);
    index.add_document(&doc1);
    index.add_document(&doc2);
    let results = index.search_or(&["hello", "world"]);
    assert_eq!(results.len(), 2);
}

#[test]
fn search_or_is_sorted_without_duplicates() {
    let mut index = InvertedIndex::new();
    for id in [5u32, 2, 9] {
        let mut doc = Document::new(id, "d".to_string(), "x".to_string());
        doc.set_tokens(vec![Token::new("alpha".to_string(), 0), Token::new("beta".to_string(), 1)]);
        index.add_document(&doc);
    }
    assert_eq!(index.search_or(&["alpha", "beta", "gamma"]), vec![2, 5, 9]);
    assert!(index.search_and(&["alpha", "gamma"]).is_empty());
    assert!(index.search_and(&[]).is_empty());
}

#[test]
fn test_tokenizer_tokenize() {
    let text = "Hello world example text";
    let tokens = Tokenizer::tokenize(text);
    assert!(tokens.len() > 0);
    assert_eq!(tokens[0].term, "hello");
}

#[test]
fn tokenizer_strips_punctuation_and_numbers_positions() {
    let tokens = Tokenizer::tokenize("  Rust, is FAST!  ... ok");
    let terms: Vec<&str> = tokens.iter().map(|t| t.term.as_str()).collect();
    assert_eq!(terms, vec!["rust", "is", "fast", "ok"]);
    let positions: Vec<u32> = tokens.iter().map(|t| t.position).collect();
    assert_eq!(positions, vec![0, 1, 2, 3]);
}

#[test]
fn test_tokenizer_remove_stopwords() {
    let tokens = vec![
        Token::new("hello".to_string(), 0),
        Token::new("the".to_string(), 1),
        Token::new("world".to_string(), 2),
    ];
    let filtered = Tokenizer::remove_stopwords(&tokens);
    assert_eq!(filtered.len(), 2);
    assert_eq!(filtered[0].term, "hello");
    assert_eq!(filtered[1].term, "world");
}

#[test]
fn test_tokenizer_stem() {
    assert_eq!(Tokenizer::stem_token("running"), "runn");
    assert_eq!(Tokenizer::stem_token("books"), "book");
    assert_eq!(Tokenizer::stem_token("walked"), "walk");
}

#[test]
fn stemming_strips_every_trailing_suffix() {
    assert_eq!(Tokenizer::stem_token("is"), "i");
    assert_eq!(Tokenizer::stem_token("ing"), "");
    assert_eq!(Tokenizer::stem_token("dress"), "dre");
    assert_eq!(Tokenizer::stem_token("seeded"), "se");
    let stemmed = Tokenizer::stem_tokens(&[Token::new("cats".to_string(), 7)]);
    assert_eq!(stemmed[0].term, "cat");
    assert_eq!(stemmed[0].position, 7);
}

// ---------------------------------------------------------------- joins

#[test]
fn test_join_type_parsing() {
    assert_eq!(JoinType::from_str("INNER"), Some(JoinType::Inner));
    assert_eq!(JoinType::from_str("LEFT"), Some(JoinType::Left));
    assert_eq!(JoinType::from_str("RIGHT"), Some(JoinType::Right));
    assert_eq!(JoinType::from_str("FULL"), Some(JoinType::Full));
    assert_eq!(JoinType::from_str("INVALID"), None);
}

#[test]
fn test_join_condition_parsing() {
    let cond = JoinCondition::from_string("users.id = orders.user_id").unwrap();
    assert_eq!(cond.left_table, "users");
    assert_eq!(cond.left_column, "id");
    assert_eq!(cond.right_table, "orders");
    assert_eq!(cond.right_column, "user_id");
}

#[test]
fn join_condition_without_equals_or_dots_is_refused() {
    assert!(matches!(JoinCondition::from_string("users.id"), Err(JoinError::InvalidFormat)));
    assert!(matches!(JoinCondition::from_string("id = user_id"), Err(JoinError::NotTableColumn)));
}

#[test]
fn test_join_condition_matching() {
    let cond = JoinCondition::from_string("users.id = orders.user_id").unwrap();
    let user = user_row(1, "Alice");
    let order = order_row(10, 1, 100);
    assert!(cond.matches(&user, &order).unwrap());
    let order_no_match = order_row(10, 2, 100);
    assert!(!cond.matches(&user, &order_no_match).unwrap());
}

#[test]
fn join_condition_on_missing_column_is_an_error() {
    let cond = JoinCondition::from_string("users.missing = orders.user_id").unwrap();
    assert!(cond.matches(&user_row(1, "A"), &order_row(1, 1, 1)).is_err());
}

#[test]
fn test_inner_join() {
    let left_rows = vec![user_row(1, "Alice"), user_row(2, "Bob")];
    let right_rows = vec![order_row(10, 1, 100), order_row(20, 1, 200), order_row(30, 2, 150)];
    let cond = JoinCondition::from_string("users.id = orders.user_id").unwrap();
    let result = JoinExecutor::join(JoinType::Inner, left_rows, right_rows, &cond, "users", "orders").unwrap();
    assert_eq!(result.len(), 3);
    assert_eq!(result[0].get("users.name"), Some(&Value::String("Alice".to_string())));
    assert_eq!(result[0].get("orders.total"), Some(&Value::Integer(100)));
}

#[test]
fn test_inner_join_no_matches() {
    let left_rows = vec![user_row(1, "Alice")];
    let right_rows = vec![order_row(10, 99, 100)];
    let cond = JoinCondition::from_string("users.id = orders.user_id").unwrap();
    let result = JoinExecutor::join(JoinType::Inner, left_rows, right_rows, &cond, "users", "orders").unwrap();
    assert_eq!(result.len(), 0);
}

#[test]
fn test_left_join_all_left_preserved() {
    let left_rows = vec![user_row(1, "Alice"), user_row(2, "Bob"), user_row(3, "Charlie")];
    let right_rows = vec![order_row(10, 1, 100), order_row(20, 2, 200)];
    let cond = JoinCondition::from_string("users.id = orders.user_id").unwrap();
    let result = JoinExecutor::join(JoinType::Left, left_rows, right_rows, &cond, "users", "orders").unwrap();
    assert_eq!(result.len(), 3);
    let ids: Vec<i64> = result
        .iter()
        .filter_map(|r| if let Some(Value::Integer(id)) = r.values.get("users.id") { Some(*id) } else { None })
        .collect();
    assert_eq!(ids.len(), 3);
    assert_eq!(result[2].get("orders.total"), Some(&Value::Null));
}

#[test]
fn test_right_join_all_right_preserved() {
    let left_rows = vec![user_row(1, "Alice")];
    let right_rows = vec![order_row(10, 1, 100), order_row(20, 2, 200), order_row(30, 3, 300)];
    let cond = JoinCondition::from_string("users.id = orders.user_id").unwrap();
    let result = JoinExecutor::join(JoinType::Right, left_rows, right_rows, &cond, "users", "orders").unwrap();
    assert_eq!(result.len(), 3);
    let order_ids: Vec<i64> = result
        .iter()
        .filter_map(|r| if let Some(Value::Integer(id)) = r.values.get("orders.id") { Some(*id) } else { None })
        .collect();
    assert_eq!(order_ids.len(), 3);
}

#[test]
fn test_full_join_combines_all() {
    let left_rows = vec![user_row(1, "Alice"), user_row(2, "Bob"), user_row(3, "Charlie")];
    let right_rows = vec![order_row(10, 1, 100), order_row(20, 4, 200)];
    let cond = JoinCondition::from_string("users.id = orders.user_id").unwrap();
    let result = JoinExecutor::join(JoinType::Full, left_rows, right_rows, &cond, "users", "orders").unwrap();
    assert_eq!(result.len(), 4);
}

#[test]
fn test_full_join_empty_left() {
    let left_rows = vec![];
    let right_rows = vec![order_row(10, 1, 100), order_row(20, 2, 200)];
    let cond = JoinCondition::from_string("users.id = orders.user_id").unwrap();
    let result = JoinExecutor::join(JoinType::Full, left_rows, right_rows, &cond, "users", "orders").unwrap();
    assert_eq!(result.len(), 2);
}

#[test]
fn test_full_join_empty_right() {
    let left_rows = vec![user_row(1, "Alice"), user_row(2, "Bob")];
    let right_rows = vec![];
    let cond = JoinCondition::from_string("users.id = orders.user_id").unwrap();
    let result = JoinExecutor::join(JoinType::Full, left_rows, right_rows, &cond, "users", "orders").unwrap();
    assert_eq!(result.len(), 2);
}

#[test]
fn test_multiple_matches_expanded() {
    let left_rows = vec![user_row(1, "Alice")];
    let right_rows = vec![order_row(10, 1, 100), order_row(11, 1, 200), order_row(12, 1, 300)];
    let cond = JoinCondition::from_string("users.id = orders.user_id").unwrap();
    let result = JoinExecutor::join(JoinType::Inner, left_rows, right_rows, &cond, "users", "orders").unwrap();
    assert_eq!(result.len(), 3);
}

// ---------------------------------------------------------------- aggregates

#[test]
fn test_aggregate_function_from_str() {
    assert_eq!(AggregateFunction::from_str("COUNT"), Some(AggregateFunction::Count));
    assert_eq!(AggregateFunction::from_str("SUM"), Some(AggregateFunction::Sum));
    assert_eq!(AggregateFunction::from_str("AVG"), Some(AggregateFunction::Avg));
    assert_eq!(AggregateFunction::from_str("MIN"), Some(AggregateFunction::Min));
    assert_eq!(AggregateFunction::from_str("MAX"), Some(AggregateFunction::Max));
    assert_eq!(AggregateFunction::from_str("INVALID"), None);
}

#[test]
fn aggregate_names_are_case_insensitive() {
    assert_eq!(AggregateFunction::from_str("count"), Some(AggregateFunction::Count));
    assert_eq!(AggregateFunction::from_str("Avg"), Some(AggregateFunction::Avg));
}

#[test]
fn test_count_aggregate() {
    let mut acc = AggregateAccumulator::new(AggregateFunction::Count);
    acc.add(Value::Integer(1));
    acc.add(Value::Integer(2));
    acc.add(Value::Integer(3));
    assert_eq!(acc.compute_count(), Value::Integer(3));
}

#[test]
fn test_sum_aggregate() {
    let mut acc = AggregateAccumulator::new(AggregateFunction::Sum);
    acc.add(Value::Integer(10));
    acc.add(Value::Integer(20));
    acc.add(Value::Integer(30));
    assert_eq!(acc.integer_sum(), Some(Value::Integer(60)));
}

#[test]
fn test_min_aggregate() {
    let mut acc = AggregateAccumulator::new(AggregateFunction::Min);
    acc.add(Value::Integer(30));
    acc.add(Value::Integer(10));
    acc.add(Value::Integer(20));
    assert_eq!(acc.compute_min(), Value::Integer(10));
}

#[test]
fn test_max_aggregate() {
    let mut acc = AggregateAccumulator::new(AggregateFunction::Max);
    acc.add(Value::Integer(30));
    acc.add(Value::Integer(10));
    acc.add(Value::Integer(20));
    assert_eq!(acc.compute_max(), Value::Integer(30));
}

#[test]
fn test_empty_aggregate() {
    let acc = AggregateAccumulator::new(AggregateFunction::Count);
    assert_eq!(acc.compute_count(), Value::Integer(0));
}

#[test]
fn test_min_aggregate_zero() {
    let mut acc = AggregateAccumulator::new(AggregateFunction::Min);
    acc.add(Value::Integer(30));
    acc.add(Value::Integer(0));
    acc.add(Value::Integer(20));
    assert_eq!(acc.compute_min(), Value::Integer(0));
}

#[test]
fn test_string_min_max() {
    let mut acc_min = AggregateAccumulator::new(AggregateFunction::Min);
    acc_min.add(Value::String("zebra".to_string()));
    acc_min.add(Value::String("apple".to_string()));
    acc_min.add(Value::String("mango".to_string()));
    assert_eq!(acc_min.compute_min(), Value::String("apple".to_string()));
    let mut acc_max = AggregateAccumulator::new(AggregateFunction::Max);
    acc_max.add(Value::String("zebra".to_string()));
    acc_max.add(Value::String("apple".to_string()));
    acc_max.add(Value::String("mango".to_string()));
    assert_eq!(acc_max.compute_max(), Value::String("zebra".to_string()));
}

#[test]
fn min_and_max_of_nothing_are_null_and_sum_with_a_float_is_left_to_floats() {
    let acc = AggregateAccumulator::new(AggregateFunction::Min);
    assert_eq!(acc.compute_min(), Value::Null);
    assert_eq!(acc.compute_max(), Value::Null);
    let mut sum = AggregateAccumulator::new(AggregateFunction::Sum);
    sum.add(Value::Integer(10));
    sum.add(Value::Float(5.5f64.to_bits()));
    assert_eq!(sum.integer_sum(), None);
}

#[test]
fn test_group_by_processor() {
    let mut processor = GroupByProcessor::new(vec!["category".to_string()]);
    let mut row1 = Row::new(RecordId::new());
    row1.insert("category".to_string(), Value::String("A".to_string()));
    row1.insert("amount".to_string(), Value::Integer(10));
    let mut row2 = Row::new(RecordId::new());
    row2.insert("category".to_string(), Value::String("A".to_string()));
    row2.insert("amount".to_string(), Value::Integer(20));
    processor.add_row(&row1, vec![("total".to_string(), AggregateFunction::Sum, "amount".to_string())]).unwrap();
    processor.add_row(&row2, vec![("total".to_string(), AggregateFunction::Sum, "amount".to_string())]).unwrap();
    assert_eq!(processor.group_count(), 1);
    let (key, accs) = processor.group_at(0);
    assert_eq!(key, &vec![Value::String("A".to_string())]);
    assert_eq!(accs.get("total").unwrap().integer_sum(), Some(Value::Integer(30)));
}

#[test]
fn group_by_missing_key_column_is_an_error() {
    let processor = GroupByProcessor::new(vec!["category".to_string()]);
    let row = order_row(1, 1, 1);
    assert!(processor.extract_group_key(&row).is_err());
}

// ---------------------------------------------------------------- planning

#[test]
fn test_plan_type_string() {
    assert_eq!(PlanType::FullTableScan.as_str(), "FullTableScan");
    assert_eq!(PlanType::IndexSeek.as_str(), "IndexSeek");
    assert_eq!(PlanType::HashJoin.as_str(), "HashJoin");
}

#[test]
fn test_column_stats_creation() {
    let stats = ColumnStats::new("id".to_string());
    assert_eq!(stats.column_name, "id");
    assert_eq!(stats.distinct_count, 1);
}

#[test]
fn test_table_stats_creation() {
    let stats = TableStats::new("users".to_string(), 10000);
    assert_eq!(stats.table_name, "users");
    assert_eq!(stats.row_count, 10000);
    assert_eq!(stats.columns.len(), 0);
}

#[test]
fn test_table_stats_column_addition() {
    let mut stats = TableStats::new("users".to_string(), 10000);
    let col_stats = ColumnStats::new("id".to_string());
    stats.add_column_stats(col_stats);
    assert_eq!(stats.columns.len(), 1);
}

#[test]
fn test_query_planner_creation() {
    let planner = QueryPlanner::new();
    assert_eq!(planner.table_count(), 0);
}

#[test]
fn test_query_planner_register_table() {
    let mut planner = QueryPlanner::new();
    let stats = TableStats::new("products".to_string(), 5000);
    planner.register_table_stats(stats);
    assert_eq!(planner.table_count(), 1);
}

#[test]
fn test_query_planner_register_index() {
    let mut planner = QueryPlanner::new();
    let mut stats = TableStats::new("users".to_string(), 50000);
    let col_stat = ColumnStats::new("id".to_string());
    stats.add_column_stats(col_stat);
    planner.register_table_stats(stats);
    planner.register_index_info("users", "id", true).unwrap();
}

#[test]
fn planner_refuses_unknown_tables_and_columns() {
    let mut planner = QueryPlanner::new();
    planner.register_table_stats(TableStats::new("users".to_string(), 10));
    assert!(matches!(planner.register_index_info("orders", "id", true), Err(PlanError::TableNotFound(_))));
    assert!(planner.register_index_info("users", "missing", true).is_ok());
    assert!(planner.set_distinct_count("users", "missing", 4).is_ok());
}

#[test]
fn planner_distinct_count_is_recorded() {
    let mut planner = QueryPlanner::new();
    let mut stats = TableStats::new("products".to_string(), 1000);
    stats.add_column_stats(ColumnStats::new("category".to_string()));
    planner.register_table_stats(stats);
    planner.set_distinct_count("products", "category", 50).unwrap();
    let table = planner.get_table_stats("products").unwrap();
    assert_eq!(table.columns.get("category").unwrap().distinct_count, 50);
}

#[test]
fn join_estimate_multiplies_row_counts() {
    let mut planner = QueryPlanner::new();
    planner.register_table_stats(TableStats::new("a".to_string(), 100));
    planner.register_table_stats(TableStats::new("b".to_string(), 30));
    let est = planner.estimate_join("a", "b").unwrap();
    assert_eq!(est.plan_type, PlanType::HashJoin);
    assert!(planner.estimate_join("a", "zzz").is_err());
}

// ---------------------------------------------------------------- optimization

#[test]
fn test_predicate_type_string() {
    assert_eq!(PredicateType::Equality.as_str(), "Equality");
    assert_eq!(PredicateType::Range.as_str(), "Range");
    assert_eq!(PredicateType::IsNull.as_str(), "IsNull");
}

#[test]
fn test_histogram_creation() {
    let buckets = vec![
        HistogramBucket::new(Value::Integer(1), Value::Integer(50), 100, 50),
        HistogramBucket::new(Value::Integer(51), Value::Integer(100), 100, 50),
    ];
    let hist = Histogram::new("age".to_string(), buckets);
    assert_eq!(hist.total_rows, 200);
    assert_eq!(hist.get_bucket_count(), 2);
}

#[test]
fn histogram_cardinality_is_bucket_rows_over_distinct() {
    let buckets = vec![
        HistogramBucket::new(Value::Integer(1), Value::Integer(50), 100, 50),
        HistogramBucket::new(Value::Integer(51), Value::Integer(100), 300, 10),
    ];
    let hist = Histogram::new("age".to_string(), buckets);
    assert_eq!(hist.estimate_cardinality(&Value::Integer(10)), 2);
    assert_eq!(hist.estimate_cardinality(&Value::Integer(60)), 30);
    assert_eq!(hist.estimate_cardinality(&Value::Integer(500)), 0);
    assert_eq!(hist.estimate_cardinality(&Value::String("x".to_string())), 0);
}

#[test]
fn id_columns_are_recognised() {
    assert!(is_id_column("id"));
    assert!(is_id_column("user_id"));
    assert!(!is_id_column("name"));
}

// ---------------------------------------------------------------- dml

#[test]
fn test_delete_parse_with_where() {
    let sql = "DELETE FROM users WHERE id=1";
    let stmt = DeleteStatement::from_sql(sql).unwrap();
    assert_eq!(stmt.table_name, "users");
    assert!(stmt.where_condition.is_some());
}

#[test]
fn test_delete_parse_without_where() {
    let sql = "DELETE FROM users";
    let stmt = DeleteStatement::from_sql(sql).unwrap();
    assert_eq!(stmt.table_name, "users");
    assert!(stmt.where_condition.is_none());
}

#[test]
fn delete_parse_keeps_the_condition_text_and_lowercases_the_table() {
    let stmt = DeleteStatement::from_sql("  delete from Users where id = 7  ").unwrap();
    assert_eq!(stmt.table_name, "users");
    assert_eq!(stmt.where_condition.as_deref(), Some(" id = 7"));
}

#[test]
fn delete_parse_refuses_other_statements() {
    assert!(matches!(DeleteStatement::from_sql("SELECT * FROM users"), Err(DmlError::NotDelete)));
}

#[test]
fn test_delete_execute() {
    let mut table = Table::new("test".to_string());
    table.insert(Row::new(RecordId::new()));
    table.insert(Row::new(RecordId::new()));
    assert_eq!(table.rows.len(), 2);
    let stmt = DeleteStatement::from_sql("DELETE FROM test").unwrap();
    let count = stmt.execute(&mut table).unwrap();
    assert_eq!(count, 2);
    assert_eq!(table.rows.len(), 0);
}

// ---------------------------------------------------------------- window functions

fn salary_rows() -> Vec<Row> {
    let salaries = [100i64, 200, 200, 300];
    salaries
        .iter()
        .map(|s| {
            let mut row = Row::new(RecordId::new());
            row.insert("salary".to_string(), Value::Integer(*s));
            row
        })
        .collect()
}

#[test]
fn test_window_frame_creation() {
    let frame = WindowFrame::new(FrameType::Rows, FrameBound::UnboundedPreceding, FrameBound::CurrentRow);
    assert_eq!(frame.frame_type, FrameType::Rows);
}

#[test]
fn test_window_frame_default() {
    let frame = WindowFrame::default_range();
    assert_eq!(frame.frame_type, FrameType::Range);
}

#[test]
fn test_window_spec_creation() {
    let spec = WindowSpec::new(vec!["dept".to_string()], vec![("salary".to_string(), true)]);
    assert_eq!(spec.partition_by.len(), 1);
    assert_eq!(spec.order_by.len(), 1);
}

#[test]
fn test_window_function_type_string() {
    assert_eq!(WindowFunctionType::RowNumber.as_str(), "ROW_NUMBER");
    assert_eq!(WindowFunctionType::Rank.as_str(), "RANK");
    assert_eq!(WindowFunctionType::Lead.as_str(), "LEAD");
}

#[test]
fn test_window_function_context_creation() {
    let spec = WindowSpec::new(vec![], vec![]);
    let ctx = WindowFunctionContext::new(WindowFunctionType::RowNumber, None, spec);
    assert_eq!(ctx.function, WindowFunctionType::RowNumber);
}

#[test]
fn test_window_frame_bound_types() {
    assert_eq!(FrameBound::CurrentRow, FrameBound::CurrentRow);
    assert_eq!(FrameBound::UnboundedPreceding, FrameBound::UnboundedPreceding);
}

#[test]
fn row_number_counts_from_one() {
    let r = apply_row_number(&salary_rows());
    assert_eq!(r.iter().map(int_of).collect::<Vec<_>>(), vec![1, 2, 3, 4]);
}

#[test]
fn rank_and_dense_rank_share_ties() {
    let order = vec![("salary".to_string(), true)];
    let rows = salary_rows();
    assert_eq!(apply_rank(&rows, &order).iter().map(int_of).collect::<Vec<_>>(), vec![1, 2, 2, 4]);
    assert_eq!(apply_dense_rank(&rows, &order).iter().map(int_of).collect::<Vec<_>>(), vec![1, 2, 2, 3]);
}

#[test]
fn lag_and_lead_shift_with_nulls_at_the_edges() {
    let rows = salary_rows();
    let lag = apply_lag(&rows, "salary", 1);
    assert_eq!(lag, vec![Value::Null, Value::Integer(100), Value::Integer(200), Value::Integer(200)]);
    let lead = apply_lead(&rows, "salary", 2);
    assert_eq!(lead, vec![Value::Integer(200), Value::Integer(300), Value::Null, Value::Null]);
}

#[test]
fn first_and_last_value_fill_the_partition() {
    let rows = salary_rows();
    assert_eq!(apply_first_value(&rows, "salary"), vec![Value::Integer(100); 4]);
    assert_eq!(apply_last_value(&rows, "salary"), vec![Value::Integer(300); 4]);
}

#[test]
fn checked_delete_parse_declines_cuts_inside_a_character() {
    let ok = parse_delete("DELETE FROM users WHERE id=1").unwrap().unwrap();
    assert_eq!(ok.table_name, "users");
    assert_eq!(ok.where_condition.as_deref(), Some(" id=1"));
    assert!(parse_delete("DELETE FROM \u{FB00}\u{FB00} WHERE x").is_none());
    assert!(matches!(parse_delete("UPDATE t SET a=1"), Some(Err(DmlError::NotDelete))));
}

fn float_bits_of(text: &str) -> Option<u64> {
    text.trim().parse::<f64>().ok().map(|f| f.to_bits())
}

fn insert_from_sql(sql: &str) -> Result<InsertStatement, DmlError> {
    let parts = parse_insert_parts(sql).expect("cut inside the text")?;
    let bits: Vec<Vec<Option<u64>>> =
        parts.rows.iter().map(|r| r.iter().map(|t| float_bits_of(t)).collect()).collect();
    Ok(InsertStatement::from_parts(parts, &bits))
}

fn update_from_sql(sql: &str) -> Result<UpdateStatement, DmlError> {
    let parts = parse_update_parts(sql).expect("cut inside the text")?;
    let bits: Vec<Option<u64>> = parts.assignments.iter().map(|(_, t)| float_bits_of(t)).collect();
    Ok(UpdateStatement::from_parts(parts, &bits))
}

#[test]
fn test_parse_insert_single_row() {
    let stmt = insert_from_sql("INSERT INTO users (id, name) VALUES (1, 'Alice')").unwrap();
    assert_eq!(stmt.table_name, "users");
    assert_eq!(stmt.columns, vec!["id", "name"]);
    assert_eq!(stmt.values.len(), 1);
    assert_eq!(stmt.values[0].len(), 2);
}

#[test]
fn test_parse_insert_multiple_rows() {
    let stmt = insert_from_sql("INSERT INTO users (id, name) VALUES (1, 'Alice'), (2, 'Bob')").unwrap();
    assert_eq!(stmt.values.len(), 2);
}

#[test]
fn test_parse_insert_with_null() {
    let stmt = insert_from_sql("INSERT INTO users (id, name, email) VALUES (1, 'Alice', NULL)").unwrap();
    assert_eq!(stmt.values[0].len(), 3);
    assert_eq!(stmt.values[0][2], Value::Null);
}

#[test]
fn test_parse_insert_mixed_types() {
    let stmt = insert_from_sql("INSERT INTO records (id, name, score, active) VALUES (1, 'Test', 95.5, TRUE)").unwrap();
    let row = &stmt.values[0];
    assert!(matches!(row[0], Value::Integer(1)));
    assert!(matches!(row[1], Value::String(_)));
    assert!(matches!(row[2], Value::Float(_)));
    assert_eq!(row[3], Value::Boolean(true));
}

#[test]
fn test_update_parse_simple() {
    let stmt = update_from_sql("UPDATE users SET name='Bob', age=30 WHERE id=1").unwrap();
    assert_eq!(stmt.table_name, "users");
    assert_eq!(stmt.set_clauses.len(), 2);
    assert!(stmt.where_condition.is_some());
}

#[test]
fn test_update_parse_single_column() {
    let stmt = update_from_sql("UPDATE products SET price=99.99").unwrap();
    assert_eq!(stmt.table_name, "products");
    assert_eq!(stmt.set_clauses.len(), 1);
    assert!(stmt.where_condition.is_none());
}

#[test]
fn test_insert_execute() {
    let stmt = insert_from_sql("INSERT INTO test (id, name) VALUES (1, 'Alice'), (2, 'Bob')").unwrap();
    let mut table = Table::new("test".to_string());
    let count = stmt.execute(&mut table).unwrap();
    assert_eq!(count, 2);
    assert_eq!(table.rows.len(), 2);
}

#[test]
fn test_insert_execute_mixed_types() {
    let stmt = insert_from_sql("INSERT INTO records (id, score, active) VALUES (1, 95.5, TRUE)").unwrap();
    let mut table = Table::new("records".to_string());
    let count = stmt.execute(&mut table).unwrap();
    assert_eq!(count, 1);
    assert_eq!(table.rows[0].values.get("id"), Some(&Value::Integer(1)));
    assert_eq!(table.rows[0].values.get("active"), Some(&Value::Boolean(true)));
}

#[test]
fn test_update_execute() {
    let mut table = Table::new("users".to_string());
    let mut row = Row::new(RecordId::new());
    row.insert("name".to_string(), Value::String("Alice".to_string()));
    table.insert(row);
    let stmt = update_from_sql("UPDATE users SET name='Bob'").unwrap();
    let count = stmt.execute(&mut table, None).unwrap();
    assert_eq!(count, 1);
    assert_eq!(table.rows[0].values.get("name"), Some(&Value::String("Bob".to_string())));
}

#[test]
fn test_insert_parse_complex_strings() {
    let stmt = insert_from_sql("INSERT INTO logs (id, message) VALUES (1, 'Error: Connection failed')").unwrap();
    assert_eq!(stmt.values.len(), 1);
    assert_eq!(stmt.values[0].len(), 2);
}

#[test]
fn test_value_parsing_floats() {
    let stmt = insert_from_sql("INSERT INTO metrics (value) VALUES (3.14159)").unwrap();
    assert!(matches!(stmt.values[0][0], Value::Float(_)));
}

#[test]
fn test_value_parsing_negative_numbers() {
    let stmt = insert_from_sql("INSERT INTO temps (celsius) VALUES (-40)").unwrap();
    assert_eq!(stmt.values[0][0], Value::Integer(-40));
}

#[test]
fn test_insert_execute_preserves_column_order() {
    let stmt = insert_from_sql("INSERT INTO test (col_a, col_b, col_c) VALUES ('a', 'b', 'c')").unwrap();
    let mut table = Table::new("test".to_string());
    stmt.execute(&mut table).unwrap();
    let row = &table.rows[0];
    assert_eq!(row.values.get("col_a"), Some(&Value::String("a".to_string())));
    assert_eq!(row.values.get("col_b"), Some(&Value::String("b".to_string())));
    assert_eq!(row.values.get("col_c"), Some(&Value::String("c".to_string())));
}

#[test]
fn insert_errors_name_the_missing_part() {
    assert!(matches!(insert_from_sql("SELECT 1"), Err(DmlError::NotInsert)));
    assert!(matches!(insert_from_sql("INSERT INTO t (a) (1)"), Err(DmlError::MissingValues)));
    assert!(matches!(insert_from_sql("INSERT INTO t a VALUES (1)"), Err(DmlError::MissingColumnList)));
    assert!(matches!(insert_from_sql("INSERT INTO t (a VALUES (1)"), Err(DmlError::MissingClosingParen)));
    assert!(parse_insert_parts("INSERT INTO t )a( VALUES (1)").is_none());
}

#[test]
fn insert_with_a_short_tuple_stops_there() {
    let stmt = insert_from_sql("INSERT INTO t (a, b) VALUES (1, 2), (3), (4, 5)").unwrap();
    let mut table = Table::new("t".to_string());
    let r = stmt.execute(&mut table);
    assert!(matches!(r, Err(DmlError::ColumnCountMismatch { expected: 2, got: 1 })));
    assert_eq!(table.rows.len(), 1);
}

#[test]
fn quoted_commas_and_escapes_stay_in_the_value() {
    let stmt = insert_from_sql(r"INSERT INTO t (a, b) VALUES ('x, (y)', 'it\'s')").unwrap();
    assert_eq!(stmt.values[0][0], Value::String("x, (y)".to_string()));
    assert_eq!(stmt.values[0][1], Value::String(r"it\'s".to_string()));
}

#[test]
fn literal_values_follow_their_text() {
    use_literals();
}

fn use_literals() {
    use_literal("  null ", Value::Null);
    use_literal("TRUE", Value::Boolean(true));
    use_literal("false", Value::Boolean(false));
    use_literal("+17", Value::Integer(17));
    use_literal("-9223372036854775808", Value::Integer(i64::MIN));
    use_literal("9223372036854775808", Value::Float(9223372036854775808f64.to_bits()));
    use_literal("hello", Value::String("hello".to_string()));
    use_literal("''", Value::String(String::new()));
}

fn use_literal(text: &str, expected: Value) {
    let v = nexus_db::query::dml::literal_value(text, float_bits_of(text));
    assert_eq!(v, expected, "for {:?}", text);
}

#[test]
fn integers_are_read_as_i64_from_str_reads_them() {
    let chars = |s: &str| s.chars().collect::<Vec<char>>();
    assert_eq!(nexus_db::query::dml::parse_i64(&chars("42")), Some(42));
    assert_eq!(nexus_db::query::dml::parse_i64(&chars("-0")), Some(0));
    assert_eq!(nexus_db::query::dml::parse_i64(&chars("9223372036854775807")), Some(i64::MAX));
    assert_eq!(nexus_db::query::dml::parse_i64(&chars("9223372036854775808")), None);
    assert_eq!(nexus_db::query::dml::parse_i64(&chars("-")), None);
    assert_eq!(nexus_db::query::dml::parse_i64(&chars("1a")), None);
    assert_eq!(nexus_db::query::dml::parse_i64(&chars("")), None);
}

#[test]
fn update_errors_name_the_missing_part() {
    assert!(matches!(update_from_sql("DELETE FROM t"), Err(DmlError::NotUpdate)));
    assert!(matches!(update_from_sql("UPDATE t"), Err(DmlError::MissingSet)));
    assert!(matches!(update_from_sql("UPDATE t SET a=1, b"), Err(DmlError::InvalidSetClause)));
    assert!(parse_update_parts("UPDATE t WHERE x SET a=1").is_none());
}

#[test]
fn window_processing_concatenates_partitions() {
    let parts = vec![vec![user_row(1, "a"), user_row(2, "b")], vec![user_row(3, "c")]];
    let spec = WindowSpec::new(vec![], vec![]);
    let numbers = WindowFunctionContext::new(WindowFunctionType::RowNumber, None, spec.clone());
    assert_eq!(
        process_partitions(&parts, &numbers).unwrap(),
        vec![Value::Integer(1), Value::Integer(2), Value::Integer(1)]
    );
    let lag = WindowFunctionContext::new(WindowFunctionType::Lag, Some("name".to_string()), spec.clone());
    assert_eq!(
        process_partitions(&parts, &lag).unwrap(),
        vec![Value::Null, Value::String("a".to_string()), Value::Null]
    );
    let no_target = WindowFunctionContext::new(WindowFunctionType::Lead, None, spec);
    assert_eq!(process_partitions(&parts, &no_target), Err(WindowError::MissingTarget(WindowFunctionType::Lead)));
}

#[test]
fn joined_rows_keep_the_left_row_id() {
    let alice = user_row(1, "Alice");
    let bob = user_row(2, "Bob");
    let (alice_id, bob_id) = (alice.id, bob.id);
    let right_rows = vec![order_row(10, 1, 100), order_row(20, 1, 200)];
    let cond = JoinCondition::from_string("users.id = orders.user_id").unwrap();
    let result = JoinExecutor::join(JoinType::Left, vec![alice, bob], right_rows, &cond, "users", "orders").unwrap();
    assert_eq!(result.len(), 3);
    assert_eq!(result[0].id, alice_id);
    assert_eq!(result[1].id, alice_id);
    assert_eq!(result[2].id, bob_id);
}
