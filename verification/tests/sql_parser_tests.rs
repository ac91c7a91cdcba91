use nexus_db::sql::parser::{QueryType, SqlError, SqlParser};

#[test]
fn test_parser_creation() {
    let parser = SqlParser::new();
    assert!(parser.parse("SELECT 1").is_ok());
}

#[test]
fn parser_test_parse_simple_select() {
    let parser = SqlParser::new();
    let result = parser.parse("SELECT * FROM users");
    assert!(result.is_ok());
    let parsed = result.unwrap();
    assert_eq!(parsed.query_type, QueryType::Select);
    assert!(parsed.tables.contains(&"users".to_string()));
}

#[test]
fn parser_test_parse_select_with_where() {
    let parser = SqlParser::new();
    let result = parser.parse("SELECT id, name FROM users WHERE age > 18");
    assert!(result.is_ok());
    let parsed = result.unwrap();
    assert_eq!(parsed.query_type, QueryType::Select);
}

#[test]
fn test_parse_insert() {
    let parser = SqlParser::new();
    let result = parser.parse("INSERT INTO users (id, name) VALUES (1, 'John')");
    assert!(result.is_ok());
    let parsed = result.unwrap();
    assert_eq!(parsed.query_type, QueryType::Insert);
}

#[test]
fn test_parse_update() {
    let parser = SqlParser::new();
    let result = parser.parse("UPDATE users SET name = 'Jane' WHERE id = 1");
    assert!(result.is_ok());
    let parsed = result.unwrap();
    assert_eq!(parsed.query_type, QueryType::Update);
}

#[test]
fn test_parse_delete() {
    let parser = SqlParser::new();
    let result = parser.parse("DELETE FROM users WHERE id = 1");
    assert!(result.is_ok());
    let parsed = result.unwrap();
    assert_eq!(parsed.query_type, QueryType::Delete);
}

#[test]
fn test_parse_select_with_join() {
    let parser = SqlParser::new();
    let result = parser.parse("SELECT u.id, o.total FROM users u JOIN orders o ON u.id = o.user_id");
    assert!(result.is_ok());
    let parsed = result.unwrap();
    assert_eq!(parsed.query_type, QueryType::Select);
}

#[test]
fn test_parse_select_with_group_by() {
    let parser = SqlParser::new();
    let result = parser.parse("SELECT user_id, COUNT(*) FROM orders GROUP BY user_id");
    assert!(result.is_ok());
    let parsed = result.unwrap();
    assert_eq!(parsed.query_type, QueryType::Select);
}

#[test]
fn parser_test_parse_select_with_order_by() {
    let parser = SqlParser::new();
    let result = parser.parse("SELECT * FROM users ORDER BY name ASC");
    assert!(result.is_ok());
}

#[test]
fn test_parse_select_with_limit() {
    let parser = SqlParser::new();
    let result = parser.parse("SELECT * FROM users LIMIT 10");
    assert!(result.is_ok());
}

#[test]
fn test_parse_invalid_sql() {
    let parser = SqlParser::new();
    let result = parser.parse("SELEC * FROM users");
    assert!(result.is_err());
}

#[test]
fn parse_reports_an_empty_text_as_no_statement() {
    let parser = SqlParser::new();
    assert!(matches!(parser.parse("   "), Err(SqlError::NoStatement)));
}

#[test]
fn parse_names_the_tables_of_inserts_and_updates() {
    let parser = SqlParser::new();
    let insert = parser.parse("  INSERT INTO orders (id) VALUES (1)  ").unwrap();
    assert_eq!(insert.tables, vec!["orders".to_string()]);
    let update = parser.parse("UPDATE items SET x = 1").unwrap();
    assert_eq!(update.tables, vec!["items".to_string()]);
    let create = parser.parse("CREATE TABLE t (id INT)").unwrap();
    assert_eq!(create.query_type, QueryType::CreateTable);
    assert!(create.tables.is_empty());
}
