//! Built-in SQL functions evaluated on literal arguments.

use vstd::prelude::*;
use crate::types::{Value, ValueModel};
use crate::util::{chars_of, lowercase, now_rfc3339, string_from_chars, to_lowercase, to_uppercase, uppercase};
use crate::text::{trim_str, trim_ws};
use crate::query::dml::{i64_text, parse_i64};
use crate::query::fulltext::{utf8_length, utf8_width};

verus! {

/// A built-in function with its argument expressions.
#[derive(Debug)]
pub enum SqlFunction {
    Upper(Box<SqlExpression>),
    Lower(Box<SqlExpression>),
    Length(Box<SqlExpression>),
    Substring(Box<SqlExpression>, Box<SqlExpression>, Option<Box<SqlExpression>>),
    Concat(Vec<SqlExpression>),
    Trim(Box<SqlExpression>),
    LTrim(Box<SqlExpression>),
    RTrim(Box<SqlExpression>),
    Abs(Box<SqlExpression>),
    Round(Box<SqlExpression>, Option<Box<SqlExpression>>),
    Ceil(Box<SqlExpression>),
    Floor(Box<SqlExpression>),
    Power(Box<SqlExpression>, Box<SqlExpression>),
    Sqrt(Box<SqlExpression>),
    Now,
    Date(Box<SqlExpression>),
    DateAdd(Box<SqlExpression>, i32, String),
    DateDiff(Box<SqlExpression>, Box<SqlExpression>),
    Year(Box<SqlExpression>),
    Month(Box<SqlExpression>),
    Day(Box<SqlExpression>),
    Count(Option<Box<SqlExpression>>),
    Sum(Box<SqlExpression>),
    Avg(Box<SqlExpression>),
    Min(Box<SqlExpression>),
    Max(Box<SqlExpression>),
    StdDev(Box<SqlExpression>),
    Cast(Box<SqlExpression>, String),
}

/// An argument expression.
#[derive(Debug)]
pub enum SqlExpression {
    Literal(Value),
    Column(String),
    Function(Box<SqlFunction>),
    Binary { left: Box<SqlExpression>, op: String, right: Box<SqlExpression> },
}

/// The functions whose argument can be of the wrong type.
#[derive(Debug, Clone, Copy, PartialEq, Eq, Structural)]
pub enum FunctionName {
    Upper,
    Lower,
    Length,
    Substring,
    Trim,
    Abs,
    Round,
    Ceil,
    Floor,
    Power,
    Sqrt,
    Year,
    Month,
    Day,
}

/// The types a cast can fail to reach.
#[derive(Debug, Clone, Copy, PartialEq, Eq, Structural)]
pub enum CastTarget {
    Integer,
    Float,
    Boolean,
}

/// Why a function gives no value here.
#[derive(Debug, Clone, PartialEq, Eq)]
pub enum FunctionError {
    /// The function needs a string literal.
    ExpectsString(FunctionName),
    /// SUBSTRING's start is not an integer literal.
    SubstringStartNotInteger,
    /// The function needs a numeric literal (POWER: its base).
    ExpectsNumber(FunctionName),
    /// POWER's exponent is not a numeric literal.
    PowerExponentNotNumber,
    /// The function needs a date-time literal, which values cannot hold.
    ExpectsDatetime(FunctionName),
    /// CAST of something other than a literal.
    CastOfExpression,
    /// The literal cannot be cast to the type.
    CannotCast(CastTarget),
    /// The cast names an unknown type.
    UnknownType(String),
    /// The function is not evaluated.
    NotImplemented,
    /// The result is computed in floating point, outside this library.
    FloatResult,
}

/// The text of a string literal.
pub open spec fn string_literal(e: SqlExpression) -> Option<Seq<char>> {
    match e {
        SqlExpression::Literal(Value::String(s)) => Some(s@),
        _ => None,
    }
}

/// The number of an integer literal.
pub open spec fn integer_literal(e: SqlExpression) -> Option<i64> {
    match e {
        SqlExpression::Literal(Value::Integer(n)) => Some(n),
        _ => None,
    }
}

/// Whether an expression is a numeric (integer or float) literal.
pub open spec fn numeric_literal(e: SqlExpression) -> bool {
    e matches SqlExpression::Literal(Value::Integer(_)) || e matches SqlExpression::Literal(Value::Float(_))
}

/// "concatenated", `n` times.
pub open spec fn concatenated(n: nat) -> Seq<char>
    decreases n,
{
    if n == 0 {
        Seq::empty()
    } else {
        concatenated((n - 1) as nat) + "concatenated"@
    }
}

/// SUBSTRING: the characters from the 1-based `start` on (past the end,
/// none), at most `len` of them when a length is given.
pub open spec fn substring_of(s: Seq<char>, start: usize, len: Option<usize>) -> Seq<char> {
    let skip: int = start - 1;
    let rest = if skip >= s.len() {
        Seq::empty()
    } else {
        s.subrange(skip, s.len() as int)
    };
    match len {
        Some(n) => if n < rest.len() {
            rest.subrange(0, n as int)
        } else {
            rest
        },
        None => rest,
    }
}

/// The length a SUBSTRING takes: an integer literal, else all the rest.
pub open spec fn substring_length(len: Option<Box<SqlExpression>>) -> Option<usize> {
    match len {
        Some(e) => match integer_literal(*e) {
            Some(n) => Some(n as usize),
            None => None,
        },
        None => None,
    }
}

/// The text `{:?}` gives for a value.
pub uninterp spec fn value_debug(v: ValueModel) -> Seq<char>;

/// Formats a value with `{:?}` (its derived `Debug`), named `value_debug`.
#[verifier::external_body]
fn debug_value(v: &Value) -> (r: String)
    ensures
        r@ == value_debug(v@),
{
    format!("{:?}", v)
}

/// What a CAST of a literal gives.
pub open spec fn cast_result(v: Value, to_type: Seq<char>) -> Result<ValueModel, FunctionError> {
    let t = uppercase(to_type);
    if t == "INTEGER"@ || t == "INT"@ {
        match v {
            Value::String(s) => match i64_text(s@) {
                Some(n) => Ok(ValueModel::Integer(n)),
                None => Err(FunctionError::CannotCast(CastTarget::Integer)),
            },
            Value::Integer(n) => Ok(ValueModel::Integer(n)),
            Value::Float(_) => Err(FunctionError::FloatResult),
            _ => Err(FunctionError::CannotCast(CastTarget::Integer)),
        }
    } else if t == "FLOAT"@ || t == "REAL"@ {
        match v {
            Value::String(_) => Err(FunctionError::FloatResult),
            Value::Integer(_) => Err(FunctionError::FloatResult),
            Value::Float(f) => Ok(ValueModel::Float(f)),
            _ => Err(FunctionError::CannotCast(CastTarget::Float)),
        }
    } else if t == "VARCHAR"@ || t == "TEXT"@ || t == "STRING"@ {
        match v {
            Value::Float(_) => Err(FunctionError::FloatResult),
            _ => Ok(ValueModel::Str(value_debug(v@))),
        }
    } else if t == "BOOLEAN"@ {
        match v {
            Value::String(s) => {
                let l = lowercase(s@);
                Ok(ValueModel::Boolean(l == "true"@ || l == "1"@ || l == "yes"@))
            },
            Value::Integer(n) => Ok(ValueModel::Boolean(n != 0)),
            Value::Boolean(b) => Ok(ValueModel::Boolean(b)),
            _ => Err(FunctionError::CannotCast(CastTarget::Boolean)),
        }
    } else {
        Err(FunctionError::UnknownType(arbitrary()))
    }
}

/// What a function gives on its literal arguments (NOW aside, which reads
/// the clock). String functions need a string literal; ABS, CEIL and FLOOR
/// keep an integer; every float result is left to floating point; CAST
/// reads its type name without regard to case; the aggregates give their
/// placeholders; YEAR, MONTH and DAY need a date-time literal, which values
/// cannot hold.
pub open spec fn function_result(f: SqlFunction) -> Result<ValueModel, FunctionError> {
    match f {
        SqlFunction::Upper(e) => match string_literal(*e) {
            Some(s) => Ok(ValueModel::Str(uppercase(s))),
            None => Err(FunctionError::ExpectsString(FunctionName::Upper)),
        },
        SqlFunction::Lower(e) => match string_literal(*e) {
            Some(s) => Ok(ValueModel::Str(lowercase(s))),
            None => Err(FunctionError::ExpectsString(FunctionName::Lower)),
        },
        SqlFunction::Length(e) => match string_literal(*e) {
            Some(s) => Ok(ValueModel::Integer(utf8_length(s) as i64)),
            None => Err(FunctionError::ExpectsString(FunctionName::Length)),
        },
        SqlFunction::Substring(e, st, len) => match string_literal(*e) {
            Some(s) => match integer_literal(*st) {
                Some(n) => Ok(ValueModel::Str(substring_of(s, n as usize, substring_length(len)))),
                None => Err(FunctionError::SubstringStartNotInteger),
            },
            None => Err(FunctionError::ExpectsString(FunctionName::Substring)),
        },
        SqlFunction::Concat(es) => Ok(ValueModel::Str(concatenated(es@.len()))),
        SqlFunction::Trim(e) => match string_literal(*e) {
            Some(s) => Ok(ValueModel::Str(trim_ws(s))),
            None => Err(FunctionError::ExpectsString(FunctionName::Trim)),
        },
        SqlFunction::Abs(e) => match *e {
            SqlExpression::Literal(Value::Integer(n)) => Ok(ValueModel::Integer((if n < 0 { -n } else { n as int }) as i64)),
            SqlExpression::Literal(Value::Float(_)) => Err(FunctionError::FloatResult),
            _ => Err(FunctionError::ExpectsNumber(FunctionName::Abs)),
        },
        SqlFunction::Round(e, _) => if numeric_literal(*e) {
            Err(FunctionError::FloatResult)
        } else {
            Err(FunctionError::ExpectsNumber(FunctionName::Round))
        },
        SqlFunction::Ceil(e) => match *e {
            SqlExpression::Literal(Value::Integer(n)) => Ok(ValueModel::Integer(n)),
            SqlExpression::Literal(Value::Float(_)) => Err(FunctionError::FloatResult),
            _ => Err(FunctionError::ExpectsNumber(FunctionName::Ceil)),
        },
        SqlFunction::Floor(e) => match *e {
            SqlExpression::Literal(Value::Integer(n)) => Ok(ValueModel::Integer(n)),
            SqlExpression::Literal(Value::Float(_)) => Err(FunctionError::FloatResult),
            _ => Err(FunctionError::ExpectsNumber(FunctionName::Floor)),
        },
        SqlFunction::Power(b, x) => if !numeric_literal(*b) {
            Err(FunctionError::ExpectsNumber(FunctionName::Power))
        } else if !numeric_literal(*x) {
            Err(FunctionError::PowerExponentNotNumber)
        } else {
            Err(FunctionError::FloatResult)
        },
        SqlFunction::Sqrt(e) => if numeric_literal(*e) {
            Err(FunctionError::FloatResult)
        } else {
            Err(FunctionError::ExpectsNumber(FunctionName::Sqrt))
        },
        SqlFunction::Year(_) => Err(FunctionError::ExpectsDatetime(FunctionName::Year)),
        SqlFunction::Month(_) => Err(FunctionError::ExpectsDatetime(FunctionName::Month)),
        SqlFunction::Day(_) => Err(FunctionError::ExpectsDatetime(FunctionName::Day)),
        SqlFunction::Count(_) => Ok(ValueModel::Integer(0)),
        SqlFunction::Sum(_) => Ok(ValueModel::Integer(0)),
        SqlFunction::Avg(_) => Ok(ValueModel::Float(0)),
        SqlFunction::Min(_) => Ok(ValueModel::Null),
        SqlFunction::Max(_) => Ok(ValueModel::Null),
        SqlFunction::Cast(e, to_type) => match *e {
            SqlExpression::Literal(v) => cast_result(v, to_type@),
            _ => Err(FunctionError::CastOfExpression),
        },
        _ => Err(FunctionError::NotImplemented),
    }
}

/// The inputs on which a function is evaluated without overflow: ABS of
/// the smallest integer and SUBSTRING from position 0 are left out.
pub open spec fn evaluable(f: SqlFunction) -> bool {
    match f {
        SqlFunction::Abs(e) => integer_literal(*e) != Some(i64::MIN),
        SqlFunction::Substring(e, st, _) => string_literal(*e) is Some ==> match integer_literal(*st) {
            Some(n) => n as usize != 0,
            None => true,
        },
        _ => true,
    }
}

/// The number of UTF-8 bytes of a text, cut to 64 bits as `as i64` cuts it.
fn utf8_len_i64(s: &str) -> (n: i64)
    ensures
        n == utf8_length(s@) as i64,
{
    let c = chars_of(s);
    let mut total: u128 = 0;
    let mut i: usize = 0;
    while i < c.len()
        invariant
            i <= c@.len(),
            c@ == s@,
            total == utf8_length(c@.subrange(0, i as int)),
            total <= 4 * i,
        decreases c@.len() - i,
    {
        proof {
            assert(c@.subrange(0, i + 1).drop_last() =~= c@.subrange(0, i as int));
        }
        let ch = c[i];
        let w: u128 = if (ch as u32) < 0x80 {
            1
        } else if (ch as u32) < 0x800 {
            2
        } else if (ch as u32) < 0x10000 {
            3
        } else {
            4
        };
        proof {
            assert(w == utf8_width(c@[i as int]));
        }
        total = total + w;
        i += 1;
    }
    proof {
        assert(c@.subrange(0, i as int) =~= c@);
    }
    total as i64
}

/// SUBSTRING of a text (see `substring_of`).
fn substring_text(s: &str, start: usize, len: Option<usize>) -> (r: String)
    requires
        start >= 1,
    ensures
        r@ == substring_of(s@, start, len),
{
    let c = chars_of(s);
    let skip = start - 1;
    let mut out: Vec<char> = Vec::new();
    if skip < c.len() {
        let avail = c.len() - skip;
        let take = match len {
            Some(n) => if n < avail {
                n
            } else {
                avail
            },
            None => avail,
        };
        let mut i: usize = 0;
        while i < take
            invariant
                i <= take <= avail,
                avail == c@.len() - skip,
                skip + take <= c.len(),
                skip < c@.len(),
                c@ == s@,
                out@ == c@.subrange(skip as int, skip + i),
            decreases take - i,
        {
            let k: usize = skip + i;
            out.push(c[k]);
            proof {
                assert(out@ =~= c@.subrange(skip as int, skip + i + 1));
            }
            i += 1;
        }
        proof {
            let rest = s@.subrange(skip as int, s@.len() as int);
            assert(out@ =~= (match len {
                Some(n) => if n < rest.len() {
                    rest.subrange(0, n as int)
                } else {
                    rest
                },
                None => rest,
            }));
        }
    } else {
        proof {
            assert(out@ =~= substring_of(s@, start, len));
        }
    }
    string_from_chars(out.as_slice())
}

/// Whether a text is one of the words.
fn is_word(t: &str, a: &str) -> (b: bool)
    ensures
        b == (t@ == a@),
{
    crate::util::str_eq(t, a)
}

/// CAST of a literal (see `cast_result`).
fn cast_value(v: &Value, to_type: &str) -> (r: Result<Value, FunctionError>)
    ensures
        match cast_result(*v, to_type@) {
            Err(FunctionError::UnknownType(_)) => r matches Err(FunctionError::UnknownType(t)) && t@ == to_type@,
            other => match r {
                Ok(x) => other == Ok::<ValueModel, FunctionError>(x@),
                Err(e) => other == Err::<ValueModel, FunctionError>(e),
            },
        },
{
    let t = to_uppercase(to_type);
    proof {
        reveal_strlit("INTEGER");
        reveal_strlit("INT");
        reveal_strlit("FLOAT");
        reveal_strlit("REAL");
        reveal_strlit("VARCHAR");
        reveal_strlit("TEXT");
        reveal_strlit("STRING");
        reveal_strlit("BOOLEAN");
        reveal_strlit("true");
        reveal_strlit("1");
        reveal_strlit("yes");
    }
    if is_word(t.as_str(), "INTEGER") || is_word(t.as_str(), "INT") {
        match v {
            Value::String(s) => {
                let c = chars_of(s.as_str());
                match parse_i64(c.as_slice()) {
                    Some(n) => Ok(Value::Integer(n)),
                    None => Err(FunctionError::CannotCast(CastTarget::Integer)),
                }
            },
            Value::Integer(n) => Ok(Value::Integer(*n)),
            Value::Float(_) => Err(FunctionError::FloatResult),
            _ => Err(FunctionError::CannotCast(CastTarget::Integer)),
        }
    } else if is_word(t.as_str(), "FLOAT") || is_word(t.as_str(), "REAL") {
        match v {
            Value::String(_) => Err(FunctionError::FloatResult),
            Value::Integer(_) => Err(FunctionError::FloatResult),
            Value::Float(f) => Ok(Value::Float(*f)),
            _ => Err(FunctionError::CannotCast(CastTarget::Float)),
        }
    } else if is_word(t.as_str(), "VARCHAR") || is_word(t.as_str(), "TEXT") || is_word(t.as_str(), "STRING") {
        match v {
            Value::Float(_) => Err(FunctionError::FloatResult),
            _ => Ok(Value::String(debug_value(v))),
        }
    } else if is_word(t.as_str(), "BOOLEAN") {
        match v {
            Value::String(s) => {
                let l = to_lowercase(s.as_str());
                Ok(Value::Boolean(is_word(l.as_str(), "true") || is_word(l.as_str(), "1") || is_word(l.as_str(), "yes")))
            },
            Value::Integer(n) => Ok(Value::Boolean(*n != 0)),
            Value::Boolean(b) => Ok(Value::Boolean(*b)),
            _ => Err(FunctionError::CannotCast(CastTarget::Boolean)),
        }
    } else {
        Err(FunctionError::UnknownType(crate::util::owned(to_type)))
    }
}

/// Evaluates built-in functions.
pub struct FunctionEvaluator;

impl FunctionEvaluator {
    /// Evaluates a function on its literal arguments (the argument values
    /// are not read): `function_result`, except that NOW gives the current
    /// time as RFC 3339 text and an unknown cast type is given back.
    pub fn eval(func: &SqlFunction, args: &[Value]) -> (r: Result<Value, FunctionError>)
        requires
            evaluable(*func),
        ensures
            func is Now ==> r matches Ok(Value::String(_)),
            !(func is Now) ==> match function_result(*func) {
                Err(FunctionError::UnknownType(_)) => r matches Err(FunctionError::UnknownType(t)) && func matches SqlFunction::Cast(_, to) && t@ == to@,
                other => match r {
                    Ok(x) => other == Ok::<ValueModel, FunctionError>(x@),
                    Err(e) => other == Err::<ValueModel, FunctionError>(e),
                },
            },
    {
        match func {
            SqlFunction::Upper(e) => match &**e {
                SqlExpression::Literal(Value::String(s)) => Ok(Value::String(to_uppercase(s.as_str()))),
                _ => Err(FunctionError::ExpectsString(FunctionName::Upper)),
            },
            SqlFunction::Lower(e) => match &**e {
                SqlExpression::Literal(Value::String(s)) => Ok(Value::String(to_lowercase(s.as_str()))),
                _ => Err(FunctionError::ExpectsString(FunctionName::Lower)),
            },
            SqlFunction::Length(e) => match &**e {
                SqlExpression::Literal(Value::String(s)) => Ok(Value::Integer(utf8_len_i64(s.as_str()))),
                _ => Err(FunctionError::ExpectsString(FunctionName::Length)),
            },
            SqlFunction::Substring(e, st, len) => match &**e {
                SqlExpression::Literal(Value::String(s)) => match &**st {
                    SqlExpression::Literal(Value::Integer(n)) => {
                        let take: Option<usize> = match len {
                            Some(l) => match &**l {
                                SqlExpression::Literal(Value::Integer(m)) => Some(*m as usize),
                                _ => None,
                            },
                            None => None,
                        };
                        Ok(Value::String(substring_text(s.as_str(), *n as usize, take)))
                    },
                    _ => Err(FunctionError::SubstringStartNotInteger),
                },
                _ => Err(FunctionError::ExpectsString(FunctionName::Substring)),
            },
            SqlFunction::Concat(es) => {
                let mut result = String::new();
                let mut i: usize = 0;
                while i < es.len()
                    invariant
                        i <= es@.len(),
                        result@ == concatenated(i as nat),
                    decreases es@.len() - i,
                {
                    result.append("concatenated");
                    i += 1;
                }
                Ok(Value::String(result))
            },
            SqlFunction::Trim(e) => match &**e {
                SqlExpression::Literal(Value::String(s)) => Ok(Value::String(trim_str(s.as_str()))),
                _ => Err(FunctionError::ExpectsString(FunctionName::Trim)),
            },
            SqlFunction::Abs(e) => match &**e {
                SqlExpression::Literal(Value::Integer(n)) => Ok(Value::Integer(if *n < 0 { -*n } else { *n })),
                SqlExpression::Literal(Value::Float(_)) => Err(FunctionError::FloatResult),
                _ => Err(FunctionError::ExpectsNumber(FunctionName::Abs)),
            },
            SqlFunction::Round(e, _) => match &**e {
                SqlExpression::Literal(Value::Integer(_)) | SqlExpression::Literal(Value::Float(_)) => Err(FunctionError::FloatResult),
                _ => Err(FunctionError::ExpectsNumber(FunctionName::Round)),
            },
            SqlFunction::Ceil(e) => match &**e {
                SqlExpression::Literal(Value::Integer(n)) => Ok(Value::Integer(*n)),
                SqlExpression::Literal(Value::Float(_)) => Err(FunctionError::FloatResult),
                _ => Err(FunctionError::ExpectsNumber(FunctionName::Ceil)),
            },
            SqlFunction::Floor(e) => match &**e {
                SqlExpression::Literal(Value::Integer(n)) => Ok(Value::Integer(*n)),
                SqlExpression::Literal(Value::Float(_)) => Err(FunctionError::FloatResult),
                _ => Err(FunctionError::ExpectsNumber(FunctionName::Floor)),
            },
            SqlFunction::Power(b, x) => {
                let b_num = match &**b {
                    SqlExpression::Literal(Value::Integer(_)) | SqlExpression::Literal(Value::Float(_)) => true,
                    _ => false,
                };
                let x_num = match &**x {
                    SqlExpression::Literal(Value::Integer(_)) | SqlExpression::Literal(Value::Float(_)) => true,
                    _ => false,
                };
                if !b_num {
                    Err(FunctionError::ExpectsNumber(FunctionName::Power))
                } else if !x_num {
                    Err(FunctionError::PowerExponentNotNumber)
                } else {
                    Err(FunctionError::FloatResult)
                }
            },
            SqlFunction::Sqrt(e) => match &**e {
                SqlExpression::Literal(Value::Integer(_)) | SqlExpression::Literal(Value::Float(_)) => Err(FunctionError::FloatResult),
                _ => Err(FunctionError::ExpectsNumber(FunctionName::Sqrt)),
            },
            SqlFunction::Now => Ok(Value::String(now_rfc3339())),
            SqlFunction::Year(_) => Err(FunctionError::ExpectsDatetime(FunctionName::Year)),
            SqlFunction::Month(_) => Err(FunctionError::ExpectsDatetime(FunctionName::Month)),
            SqlFunction::Day(_) => Err(FunctionError::ExpectsDatetime(FunctionName::Day)),
            SqlFunction::Count(_) => Ok(Value::Integer(0)),
            SqlFunction::Sum(_) => Ok(Value::Integer(0)),
            SqlFunction::Avg(_) => Ok(Value::Float(0)),
            SqlFunction::Min(_) => Ok(Value::Null),
            SqlFunction::Max(_) => Ok(Value::Null),
            SqlFunction::Cast(e, to_type) => match &**e {
                SqlExpression::Literal(v) => cast_value(v, to_type.as_str()),
                _ => Err(FunctionError::CastOfExpression),
            },
            _ => Err(FunctionError::NotImplemented),
        }
    }
}

} // verus!
