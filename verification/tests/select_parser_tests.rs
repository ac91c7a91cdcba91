use nexus_db::types::ColumnType;
use nexus_db::query::parser::{AdvancedSqlParser, FilterOp, JoinType, ParseError};

#[test]
fn test_parse_simple_select() {
    let parser = AdvancedSqlParser::new();
    let result = parser.parse_select("SELECT id, name FROM users");
    assert!(result.is_ok());
}

#[test]
fn test_parse_select_with_where() {
    let parser = AdvancedSqlParser::new();
    let result = parser.parse_select("SELECT * FROM users WHERE age > 30");
    assert!(result.is_ok());
    if let Ok(parsed) = result {
        assert!(!parsed.filters.is_empty());
    }
}

#[test]
fn test_parse_select_with_order_by() {
    let parser = AdvancedSqlParser::new();
    let result = parser.parse_select("SELECT * FROM users ORDER BY name ASC LIMIT 10");
    assert!(result.is_ok());
    if let Ok(parsed) = result {
        assert!(parsed.limit == Some(10));
    }
}

#[test]
fn select_reads_columns_filters_and_joins() {
    let parser = AdvancedSqlParser::new();
    let parsed = parser
        .parse_select(
            "SELECT DISTINCT u.name, o.total AS t FROM users u LEFT JOIN orders o ON u.id = o.user_id \
             WHERE u.age >= 18 AND u.name <> 'x' GROUP BY u.name ORDER BY u.name DESC LIMIT 5 OFFSET 2",
        )
        .unwrap();
    assert_eq!(parsed.table, "users AS u");
    assert_eq!(parsed.columns, vec!["u.name".to_string(), "o.total AS t".to_string()]);
    assert_eq!(parsed.filters.len(), 2);
    assert_eq!(parsed.filters[0].column, "u.age");
    assert_eq!(parsed.filters[0].op, FilterOp::GreaterThanOrEqual);
    assert_eq!(parsed.filters[0].value, "18");
    assert_eq!(parsed.filters[1].op, FilterOp::NotEqual);
    assert_eq!(parsed.joins.len(), 1);
    assert_eq!(parsed.joins[0].join_type, JoinType::Left);
    assert_eq!(parsed.joins[0].on_condition.column, "u.id");
    assert_eq!(parsed.joins[0].on_condition.value, "o.user_id");
    assert_eq!(parsed.group_by, vec!["u.name".to_string()]);
    assert_eq!(parsed.order_by, vec![("u.name".to_string(), false)]);
    assert_eq!(parsed.offset, Some(2));
    assert!(parsed.distinct);
}

#[test]
fn select_errors() {
    let parser = AdvancedSqlParser::new();
    assert!(matches!(parser.parse_select("SELEC x"), Err(ParseError::Syntax(_))));
    assert_eq!(parser.parse_select("").unwrap_err(), ParseError::NoStatement);
    assert_eq!(parser.parse_select("DELETE FROM t").unwrap_err(), ParseError::NotSelect);
    assert_eq!(parser.parse_select("SELECT 1").unwrap_err(), ParseError::NoFrom);
    let star = parser.parse_select("SELECT * FROM t").unwrap();
    assert_eq!(star.columns, vec!["*".to_string()]);
    assert!(star.filters.is_empty());
}

#[test]
fn test_parse_simple_insert() {
    let parser = AdvancedSqlParser::new();
    let result = parser.parse_insert("INSERT INTO users (name, age) VALUES ('Alice', 30)");
    assert!(result.is_ok());
}

#[test]
fn test_parse_simple_update() {
    let parser = AdvancedSqlParser::new();
    let result = parser.parse_update("UPDATE users SET age = 31 WHERE id = 1");
    assert!(result.is_ok());
}

#[test]
fn test_parse_simple_delete() {
    let parser = AdvancedSqlParser::new();
    let result = parser.parse_delete("DELETE FROM users WHERE age < 18");
    assert!(result.is_ok());
}

#[test]
fn insert_update_delete_parts() {
    let parser = AdvancedSqlParser::new();
    let (table, columns, values) = parser.parse_insert("INSERT INTO users (name, age) VALUES ('Alice', 30), ('Bob', 4)").unwrap();
    assert_eq!(table, "users");
    assert_eq!(columns, vec!["name".to_string(), "age".to_string()]);
    assert_eq!(values, vec!["'Alice'".to_string(), "30".to_string(), "'Bob'".to_string(), "4".to_string()]);
    let (table, sets, filters) = parser.parse_update("UPDATE users SET age = 31 WHERE id = 1").unwrap();
    assert_eq!(table, "users");
    assert_eq!(sets, vec![("age".to_string(), "31".to_string())]);
    assert_eq!(filters[0].column, "id");
    let (table, filters) = parser.parse_delete("DELETE FROM users WHERE age < 18").unwrap();
    assert_eq!(table, "users");
    assert_eq!(filters[0].op, FilterOp::LessThan);
    assert_eq!(parser.parse_delete("SELECT 1 FROM t").unwrap_err(), ParseError::NotDelete);
}

#[test]
fn create_table_columns() {
    let parser = AdvancedSqlParser::new();
    let (name, cols) = parser.parse_create_table("CREATE TABLE t (id INT NOT NULL, name TEXT, at TIMESTAMP, x BLOB)").unwrap();
    assert_eq!(name, "t");
    assert_eq!(cols.len(), 4);
    assert_eq!(cols[0].name, "id");
    assert_eq!(cols[0].column_type, ColumnType::Integer);
    assert!(!cols[0].nullable);
    assert_eq!(cols[1].column_type, ColumnType::String);
    assert!(cols[1].nullable);
    assert_eq!(cols[2].column_type, ColumnType::Timestamp);
    assert_eq!(cols[3].column_type, ColumnType::String);
    assert_eq!(parser.parse_create_table("SELECT 1").unwrap_err(), ParseError::NotCreateTable);
}
