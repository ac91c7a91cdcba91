use nexus_db::collections::StrMap;
use nexus_db::engine::multimodel::{StoreError, TableStore};
use nexus_db::query::executor::{parse_create_table, CompareOp, ExecError, QueryExecutor, WhereExpr};
use nexus_db::sql::parser::ExecutableExpr;
use nexus_db::types::{ColumnDef, ColumnType, RecordId, Row, Value};

fn executor() -> QueryExecutor {
    QueryExecutor::new()
}

fn number(text: &str) -> WhereExpr {
    let float_bits = text.parse::<f64>().ok().map(|f| f.to_bits());
    WhereExpr::Number { text: text.to_string(), float_bits }
}

fn text(s: &str) -> WhereExpr {
    WhereExpr::SingleQuotedString(s.to_string())
}

fn binary(left: WhereExpr, op: CompareOp, right: WhereExpr) -> WhereExpr {
    WhereExpr::BinaryOp { left: Box::new(left), op, right: Box::new(right) }
}

#[test]
fn test_executor() {
    let executor = executor();
    let mut tables = TableStore::new();
    assert!(executor.execute(&mut tables, "CREATE TABLE users (id INT)").is_ok());
}

#[test]
fn test_evaluate_integer_comparison_gt() {
    let executor = executor();
    let expr = binary(number("10"), CompareOp::Gt, number("5"));
    let row = Row::new(RecordId::new());
    let result = executor.evaluate_where_expr(&expr, &row);
    assert!(result.is_ok());
    assert!(result.unwrap());
}

#[test]
fn test_evaluate_integer_comparison_lt() {
    let executor = executor();
    let expr = binary(number("5"), CompareOp::Lt, number("10"));
    let row = Row::new(RecordId::new());
    let result = executor.evaluate_where_expr(&expr, &row);
    assert!(result.is_ok());
    assert!(result.unwrap());
}

#[test]
fn test_evaluate_equality() {
    let executor = executor();
    let expr = binary(number("5"), CompareOp::Eq, number("5"));
    let row = Row::new(RecordId::new());
    let result = executor.evaluate_where_expr(&expr, &row);
    assert!(result.is_ok());
    assert!(result.unwrap());
}

#[test]
fn test_evaluate_inequality() {
    let executor = executor();
    let expr = binary(number("5"), CompareOp::NotEq, number("10"));
    let row = Row::new(RecordId::new());
    let result = executor.evaluate_where_expr(&expr, &row);
    assert!(result.is_ok());
    assert!(result.unwrap());
}

#[test]
fn test_evaluate_and_operator() {
    let executor = executor();
    let expr = binary(WhereExpr::Boolean(true), CompareOp::And, WhereExpr::Boolean(true));
    let row = Row::new(RecordId::new());
    let result = executor.evaluate_where_expr(&expr, &row);
    let _ = result;
}

#[test]
fn test_evaluate_or_operator() {
    let executor = executor();
    let expr = binary(WhereExpr::Boolean(false), CompareOp::Or, WhereExpr::Boolean(true));
    let row = Row::new(RecordId::new());
    let result = executor.evaluate_where_expr(&expr, &row);
    let _ = result;
}

#[test]
fn test_evaluate_is_null() {
    let executor = executor();
    let expr = WhereExpr::IsNull(Box::new(WhereExpr::Null));
    let row = Row::new(RecordId::new());
    let result = executor.evaluate_where_expr(&expr, &row);
    assert!(result.is_ok());
    assert!(result.unwrap());
}

#[test]
fn test_evaluate_is_not_null() {
    let executor = executor();
    let expr = WhereExpr::IsNotNull(Box::new(number("5")));
    let row = Row::new(RecordId::new());
    let result = executor.evaluate_where_expr(&expr, &row);
    assert!(result.is_ok());
    assert!(result.unwrap());
}

#[test]
fn test_evaluate_string_value() {
    let executor = executor();
    let expr = binary(text("hello"), CompareOp::Eq, text("hello"));
    let row = Row::new(RecordId::new());
    let result = executor.evaluate_where_expr(&expr, &row);
    assert!(result.is_ok());
    assert!(result.unwrap());
}

#[test]
fn test_evaluate_boolean_value() {
    let executor = executor();
    let expr = binary(WhereExpr::Boolean(true), CompareOp::Eq, WhereExpr::Boolean(true));
    let row = Row::new(RecordId::new());
    let result = executor.evaluate_where_expr(&expr, &row);
    assert!(result.is_ok());
    assert!(result.unwrap());
}

#[test]
fn test_evaluate_numeric_comparison_with_decimals() {
    let executor = executor();
    let expr = binary(number("10.5"), CompareOp::Gt, number("5.2"));
    let row = Row::new(RecordId::new());
    let result = executor.evaluate_where_expr(&expr, &row);
    assert!(result.is_ok());
    assert!(result.unwrap());
}

#[test]
fn test_evaluate_string_comparison() {
    let executor = executor();
    let expr = binary(text("alice"), CompareOp::Lt, text("bob"));
    let row = Row::new(RecordId::new());
    let result = executor.evaluate_where_expr(&expr, &row);
    assert!(result.is_ok());
    assert!(result.unwrap());
}

#[test]
fn test_phase2_sql_executor() {
    let mut tables = TableStore::new();
    let schema = vec![
        ColumnDef { name: "id".to_string(), column_type: ColumnType::Integer, nullable: false, default: None },
        ColumnDef { name: "name".to_string(), column_type: ColumnType::String, nullable: false, default: None },
    ];
    tables.create_table("test_table".to_string(), schema).ok();
    let executor = QueryExecutor::new();
    let sql = "SELECT * FROM test_table";
    let result = executor.execute(&mut tables, sql);
    assert!(result.is_ok());
}

#[test]
fn and_of_comparisons_is_refused_as_in_the_engine() {
    // Both sides of AND are first evaluated as values, which a comparison is not.
    let executor = executor();
    let expr = binary(
        binary(number("3"), CompareOp::Gt, number("2")),
        CompareOp::And,
        binary(number("4"), CompareOp::Gt, number("3")),
    );
    let row = Row::new(RecordId::new());
    assert!(matches!(executor.evaluate_where_expr(&expr, &row), Err(ExecError::UnsupportedExpression)));
    let expr = binary(WhereExpr::Boolean(true), CompareOp::And, WhereExpr::Boolean(true));
    assert!(matches!(executor.evaluate_where_expr(&expr, &row), Err(ExecError::UnsupportedWhere)));
}

#[test]
fn columns_are_looked_up_lower_cased() {
    let executor = executor();
    let mut row = Row::new(RecordId::new());
    row.insert("age".to_string(), Value::Integer(30));
    let expr = binary(WhereExpr::Identifier("AGE".to_string()), CompareOp::GtEq, number("18"));
    assert_eq!(executor.evaluate_where_expr(&expr, &row).unwrap(), true);
    let missing = binary(WhereExpr::Identifier("Height".to_string()), CompareOp::Eq, number("1"));
    match executor.evaluate_where_expr(&missing, &row) {
        Err(ExecError::ColumnNotFound(c)) => assert_eq!(c, "height"),
        other => panic!("unexpected {:?}", other),
    }
}

#[test]
fn comparison_errors() {
    let executor = executor();
    let row = Row::new(RecordId::new());
    let mixed = binary(number("1"), CompareOp::Lt, text("a"));
    assert!(matches!(executor.evaluate_where_expr(&mixed, &row), Err(ExecError::TypeMismatch)));
    let other = binary(number("1"), CompareOp::Other, number("2"));
    assert!(matches!(executor.evaluate_where_expr(&other, &row), Err(ExecError::UnsupportedOperator)));
    let bad = binary(WhereExpr::Number { text: "1x".to_string(), float_bits: None }, CompareOp::Eq, number("1"));
    assert!(matches!(executor.evaluate_where_expr(&bad, &row), Err(ExecError::InvalidNumber(_))));
    let func = WhereExpr::IsNull(Box::new(WhereExpr::Function));
    assert!(matches!(executor.evaluate_where_expr(&func, &row), Err(ExecError::FunctionUnsupported)));
    let lit = WhereExpr::IsNull(Box::new(WhereExpr::OtherValue));
    assert!(matches!(executor.evaluate_where_expr(&lit, &row), Err(ExecError::UnsupportedValue)));
}

#[test]
fn float_comparisons_follow_ieee() {
    let executor = executor();
    let row = Row::new(RecordId::new());
    let nan = WhereExpr::Number { text: "NaN".to_string(), float_bits: Some(f64::NAN.to_bits()) };
    let e = binary(nan, CompareOp::GtEq, number("1.5"));
    assert_eq!(executor.evaluate_where_expr(&e, &row).unwrap(), false);
    let e = binary(number("-0.0"), CompareOp::LtEq, number("0.0"));
    assert_eq!(executor.evaluate_where_expr(&e, &row).unwrap(), true);
    let e = binary(number("2.5"), CompareOp::Lt, number("-1.5"));
    assert_eq!(executor.evaluate_where_expr(&e, &row).unwrap(), false);
}

#[test]
fn swapped_comparisons_agree() {
    let executor = executor();
    let row = Row::new(RecordId::new());
    for (a, b) in [("3", "7"), ("7", "3"), ("4", "4")] {
        let gt = executor.evaluate_where_expr(&binary(number(a), CompareOp::Gt, number(b)), &row).unwrap();
        let lt = executor.evaluate_where_expr(&binary(number(b), CompareOp::Lt, number(a)), &row).unwrap();
        assert_eq!(gt, lt);
        let ge = executor.evaluate_where_expr(&binary(number(a), CompareOp::GtEq, number(b)), &row).unwrap();
        let le = executor.evaluate_where_expr(&binary(number(b), CompareOp::LtEq, number(a)), &row).unwrap();
        assert_eq!(ge, le);
    }
}

#[test]
fn create_table_declares_columns() {
    let (name, cols) = parse_create_table("CREATE TABLE people (id INT NOT NULL, name text, score double, extra)").unwrap();
    assert_eq!(name, "people");
    assert_eq!(cols.len(), 3);
    assert_eq!(cols[0].name, "id");
    assert_eq!(cols[0].column_type, ColumnType::Integer);
    assert!(!cols[0].nullable);
    assert_eq!(cols[1].column_type, ColumnType::String);
    assert!(cols[1].nullable);
    assert_eq!(cols[2].column_type, ColumnType::Float);
    assert!(matches!(parse_create_table("CREATE TABLE nothing"), Err(ExecError::InvalidCreateTable)));
}

#[test]
fn execute_creates_and_selects() {
    let executor = executor();
    let mut tables = TableStore::new();
    executor.execute(&mut tables, "  create table items (id INT, label TEXT)").unwrap();
    // The words CREATE and TABLE are taken out in upper case only.
    assert!(tables.get_table_metadata("create table items").is_ok());
    executor.execute(&mut tables, "CREATE TABLE t (a INT, b BOOL)").unwrap();
    match executor.execute(&mut tables, "CREATE TABLE t (c INT)") {
        Err(ExecError::Store(StoreError::TableExists(n))) => assert_eq!(n, "t"),
        other => panic!("unexpected {:?}", other),
    }
    assert!(matches!(executor.execute(&mut tables, "CREATE TABLE u ()"), Err(ExecError::Store(StoreError::NoColumns))));
    let mut row = Row::new(RecordId::new());
    row.insert("a".to_string(), Value::Integer(7));
    tables.insert_row("t", row).unwrap();
    let selected = executor.execute(&mut tables, "select * from t where a > 1").unwrap();
    assert_eq!(selected.row_count, 1);
    assert_eq!(selected.columns, vec!["a".to_string(), "b".to_string()]);
    assert_eq!(selected.rows[0].get("a"), Some(&Value::Integer(7)));
    match executor.execute(&mut tables, "SELECT * FROM missing") {
        Err(ExecError::Store(StoreError::TableMissing(n))) => assert_eq!(n, "missing"),
        other => panic!("unexpected {:?}", other),
    }
    assert!(matches!(executor.execute(&mut tables, "SELECT 1"), Err(ExecError::MissingFrom)));
    assert_eq!(executor.execute(&mut tables, "INSERT INTO t VALUES (1, TRUE)").unwrap().row_count, 1);
    assert!(matches!(executor.execute(&mut tables, "INSERT INTO t (a)"), Err(ExecError::MissingValues)));
    assert_eq!(executor.execute(&mut tables, "UPDATE t SET a = 2").unwrap().row_count, 0);
    assert_eq!(executor.execute(&mut tables, "DELETE FROM t").unwrap().row_count, 0);
    assert_eq!(executor.execute(&mut tables, "EXPLAIN SELECT").unwrap().row_count, 0);
    assert!(executor.try_execute(&mut tables, "SELECT * FROM t").unwrap().is_ok());
    assert_eq!(tables.list_tables().len(), 2);
}

#[test]
fn text_conditions() {
    let mut values: StrMap<String> = StrMap::new();
    values.insert("name".to_string(), "bob".to_string());
    let cond = ExecutableExpr { expr: binary(WhereExpr::Identifier("name".to_string()), CompareOp::Gt, text("alice")) };
    assert_eq!(cond.evaluate(&values).unwrap(), true);
    let absent = ExecutableExpr { expr: WhereExpr::IsNull(Box::new(WhereExpr::Identifier("age".to_string()))) };
    assert_eq!(absent.evaluate(&values).unwrap(), true);
    let cast = ExecutableExpr { expr: binary(WhereExpr::Cast(Box::new(number("10"))), CompareOp::Lt, number("9")) };
    assert_eq!(cast.evaluate(&values).unwrap(), true);
    let other = ExecutableExpr { expr: WhereExpr::Boolean(true) };
    assert_eq!(other.evaluate(&values).unwrap(), false);
    let bad = ExecutableExpr { expr: WhereExpr::IsNull(Box::new(WhereExpr::Null)) };
    assert!(matches!(bad.evaluate(&values), Err(ExecError::UnsupportedExpression)));
}
