use nexus_db::query::functions::{CastTarget, FunctionError, FunctionEvaluator, FunctionName, SqlExpression, SqlFunction};
use nexus_db::types::Value;

fn text(s: &str) -> Box<SqlExpression> {
    Box::new(SqlExpression::Literal(Value::String(s.to_string())))
}

fn integer(n: i64) -> Box<SqlExpression> {
    Box::new(SqlExpression::Literal(Value::Integer(n)))
}

#[test]
fn test_upper_function() {
    let expr = SqlFunction::Upper(Box::new(SqlExpression::Literal(Value::String("hello".to_string()))));
    assert_eq!(FunctionEvaluator::eval(&expr, &[]).unwrap(), Value::String("HELLO".to_string()));
}

#[test]
fn test_abs_function() {
    let expr = SqlFunction::Abs(Box::new(SqlExpression::Literal(Value::Integer(-42))));
    assert_eq!(FunctionEvaluator::eval(&expr, &[]).unwrap(), Value::Integer(42));
}

#[test]
fn test_cast_to_integer() {
    let expr = SqlFunction::Cast(
        Box::new(SqlExpression::Literal(Value::String("123".to_string()))),
        "INTEGER".to_string(),
    );
    assert_eq!(FunctionEvaluator::eval(&expr, &[]).unwrap(), Value::Integer(123));
}

#[test]
fn string_functions_read_their_literal() {
    assert_eq!(FunctionEvaluator::eval(&SqlFunction::Lower(text("HeLLo")), &[]).unwrap(), Value::String("hello".to_string()));
    assert_eq!(FunctionEvaluator::eval(&SqlFunction::Length(text("héllo")), &[]).unwrap(), Value::Integer(6));
    assert_eq!(
        FunctionEvaluator::eval(&SqlFunction::Substring(text("hello"), integer(2), Some(integer(3))), &[]).unwrap(),
        Value::String("ell".to_string())
    );
    assert_eq!(
        FunctionEvaluator::eval(&SqlFunction::Substring(text("hello"), integer(9), None), &[]).unwrap(),
        Value::String(String::new())
    );
    assert_eq!(FunctionEvaluator::eval(&SqlFunction::Trim(text("  hi ")), &[]).unwrap(), Value::String("hi".to_string()));
    assert_eq!(FunctionEvaluator::eval(&SqlFunction::Upper(integer(3)), &[]), Err(FunctionError::ExpectsString(FunctionName::Upper)));
}

#[test]
fn casts_and_placeholders() {
    let yes = SqlFunction::Cast(text("Yes"), "boolean".to_string());
    assert_eq!(FunctionEvaluator::eval(&yes, &[]).unwrap(), Value::Boolean(true));
    let bad = SqlFunction::Cast(text("12x"), "int".to_string());
    assert_eq!(FunctionEvaluator::eval(&bad, &[]), Err(FunctionError::CannotCast(CastTarget::Integer)));
    let unknown = SqlFunction::Cast(integer(1), "DATE".to_string());
    assert_eq!(FunctionEvaluator::eval(&unknown, &[]), Err(FunctionError::UnknownType("DATE".to_string())));
    assert_eq!(FunctionEvaluator::eval(&SqlFunction::Count(None), &[]).unwrap(), Value::Integer(0));
    assert_eq!(FunctionEvaluator::eval(&SqlFunction::Sqrt(integer(4)), &[]), Err(FunctionError::FloatResult));
    assert_eq!(FunctionEvaluator::eval(&SqlFunction::StdDev(integer(4)), &[]), Err(FunctionError::NotImplemented));
    assert_eq!(FunctionEvaluator::eval(&SqlFunction::Ceil(integer(7)), &[]).unwrap(), Value::Integer(7));
}
