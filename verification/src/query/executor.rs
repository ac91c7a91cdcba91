//! The statement executor: evaluation of WHERE expressions against a row,
//! and the dispatch of a statement text by its leading keyword.

use vstd::prelude::*;
use crate::types::{ColumnDef, ColumnType, Row, Value, ValueModel, value_eq, value_models, copy_value_map, float_lt64, float_eq64,
    float_bits_lt64, float_bits_eq64};
use crate::util::{chars_of, lowercase, to_lowercase, uppercase, to_uppercase, chars_lt, str_lt, str_eq, string_from_chars,
    lemma_chars_lt_irreflexive, lemma_chars_lt_total, lemma_chars_lt_asymmetric};
use crate::text::{pieces_view, split_chars, split_on, trim_chars, trim_str, trim_ws};
use crate::collections::StrMap;
use crate::engine::multimodel::{StoreError, TableStore};
use crate::query::fulltext::{char_rows, split_whitespace, words};
use crate::query::dml::{boundary, byte_slice, char_boundary_at, find_bytes, first_occurrence, from_bytes, i64_text, keyword, occurs_at_exec,
    parse_i64, push_all, starts_with_bytes, sub_chars, text_of, trimmed_bytes, update_bytes, upper_bytes, values_bytes};

verus! {

/// An operator between two expressions of a WHERE clause.
#[derive(Debug, Clone, Copy, PartialEq, Eq, Structural)]
pub enum CompareOp {
    Eq,
    NotEq,
    Gt,
    Lt,
    GtEq,
    LtEq,
    And,
    Or,
    /// Any other operator (arithmetic, `LIKE`, ...).
    Other,
}

/// An expression of a WHERE clause.
#[derive(Debug)]
pub enum WhereExpr {
    BinaryOp { left: Box<WhereExpr>, op: CompareOp, right: Box<WhereExpr> },
    IsNull(Box<WhereExpr>),
    IsNotNull(Box<WhereExpr>),
    /// A column name.
    Identifier(String),
    /// A number literal: its text, and the bit pattern of what reading that
    /// text as an `f64` gave (`None` where it could not be read).
    Number { text: String, float_bits: Option<u64> },
    SingleQuotedString(String),
    Boolean(bool),
    Null,
    /// A cast of an expression to a type.
    Cast(Box<WhereExpr>),
    /// A function call.
    Function,
    /// A literal of any other kind.
    OtherValue,
    /// An expression of any other kind.
    Other,
}

/// The errors of statement execution.
#[derive(Debug)]
pub enum ExecError {
    /// The row has no such column (the name as looked up, lower-cased).
    ColumnNotFound(String),
    /// A number literal that is neither an `i64` nor an `f64`.
    InvalidNumber(String),
    /// A literal of a kind that cannot be evaluated.
    UnsupportedValue,
    /// Function calls cannot be evaluated.
    FunctionUnsupported,
    /// An expression that cannot be evaluated to a value.
    UnsupportedExpression,
    /// An operator that a WHERE clause cannot apply.
    UnsupportedOperator,
    /// An ordering comparison with an operator that is not one.
    InvalidComparison,
    /// An ordering comparison of values of different kinds.
    TypeMismatch,
    /// An expression that cannot be evaluated to a truth value.
    UnsupportedWhere,
    /// A CREATE TABLE statement without a `(`.
    InvalidCreateTable,
    /// A SELECT statement without `FROM`.
    MissingFrom,
    /// An INSERT statement without `VALUES`.
    MissingValues,
    /// The table store refused the request.
    Store(StoreError),
}

/// The mathematical content of an `ExecError`.
pub enum ExecFault {
    ColumnNotFound(Seq<char>),
    InvalidNumber(Seq<char>),
    UnsupportedValue,
    FunctionUnsupported,
    UnsupportedExpression,
    UnsupportedOperator,
    InvalidComparison,
    TypeMismatch,
    UnsupportedWhere,
    InvalidCreateTable,
    MissingFrom,
    MissingValues,
    Store(StoreError),
}

impl View for ExecError {
    type V = ExecFault;

    open spec fn view(&self) -> ExecFault {
        match self {
            ExecError::ColumnNotFound(c) => ExecFault::ColumnNotFound(c@),
            ExecError::InvalidNumber(t) => ExecFault::InvalidNumber(t@),
            ExecError::UnsupportedValue => ExecFault::UnsupportedValue,
            ExecError::FunctionUnsupported => ExecFault::FunctionUnsupported,
            ExecError::UnsupportedExpression => ExecFault::UnsupportedExpression,
            ExecError::UnsupportedOperator => ExecFault::UnsupportedOperator,
            ExecError::InvalidComparison => ExecFault::InvalidComparison,
            ExecError::TypeMismatch => ExecFault::TypeMismatch,
            ExecError::UnsupportedWhere => ExecFault::UnsupportedWhere,
            ExecError::InvalidCreateTable => ExecFault::InvalidCreateTable,
            ExecError::MissingFrom => ExecFault::MissingFrom,
            ExecError::MissingValues => ExecFault::MissingValues,
            ExecError::Store(e) => ExecFault::Store(*e),
        }
    }
}

/// What evaluating an expression to a value gives on a row (a map from
/// column names to values): a column is looked up by its lower-cased name;
/// a number is an integer where its text is an `i64`, else the float it
/// reads as.
pub open spec fn expr_outcome(e: WhereExpr, row: Map<Seq<char>, ValueModel>) -> Result<ValueModel, ExecFault> {
    match e {
        WhereExpr::Identifier(name) => {
            let col = lowercase(name@);
            if row.contains_key(col) {
                Ok(row[col])
            } else {
                Err(ExecFault::ColumnNotFound(col))
            }
        },
        WhereExpr::Boolean(b) => Ok(ValueModel::Boolean(b)),
        WhereExpr::Number { text, float_bits } => match i64_text(text@) {
            Some(i) => Ok(ValueModel::Integer(i)),
            None => match float_bits {
                Some(f) => Ok(ValueModel::Float(f)),
                None => Err(ExecFault::InvalidNumber(text@)),
            },
        },
        WhereExpr::SingleQuotedString(s) => Ok(ValueModel::Str(s@)),
        WhereExpr::Null => Ok(ValueModel::Null),
        WhereExpr::Function => Err(ExecFault::FunctionUnsupported),
        WhereExpr::OtherValue => Err(ExecFault::UnsupportedValue),
        _ => Err(ExecFault::UnsupportedExpression),
    }
}

/// What an ordering comparison of two values gives: integers by their
/// order, floats as IEEE-754 numbers (false where either is NaN), texts
/// lexicographically; values of different kinds cannot be compared.
pub open spec fn compare_outcome(l: ValueModel, r: ValueModel, op: CompareOp) -> Result<bool, ExecFault> {
    match (l, r) {
        (ValueModel::Integer(a), ValueModel::Integer(b)) => match op {
            CompareOp::Gt => Ok(a > b),
            CompareOp::Lt => Ok(a < b),
            CompareOp::GtEq => Ok(a >= b),
            CompareOp::LtEq => Ok(a <= b),
            _ => Err(ExecFault::InvalidComparison),
        },
        (ValueModel::Float(a), ValueModel::Float(b)) => match op {
            CompareOp::Gt => Ok(float_lt64(b, a)),
            CompareOp::Lt => Ok(float_lt64(a, b)),
            CompareOp::GtEq => Ok(float_lt64(b, a) || float_eq64(a, b)),
            CompareOp::LtEq => Ok(float_lt64(a, b) || float_eq64(a, b)),
            _ => Err(ExecFault::InvalidComparison),
        },
        (ValueModel::Str(a), ValueModel::Str(b)) => match op {
            CompareOp::Gt => Ok(chars_lt(b, a)),
            CompareOp::Lt => Ok(chars_lt(a, b)),
            CompareOp::GtEq => Ok(!chars_lt(a, b)),
            CompareOp::LtEq => Ok(!chars_lt(b, a)),
            _ => Err(ExecFault::InvalidComparison),
        },
        _ => Err(ExecFault::TypeMismatch),
    }
}

/// What evaluating a WHERE expression on a row gives. Both sides of an
/// operator are first evaluated to values (so an `AND` or `OR` of
/// comparisons fails there); `=` and `<>` compare values as `==` does, the
/// ordering operators by `compare_outcome`, `AND` and `OR` evaluate both
/// sides as conditions. `IS NULL` and `IS NOT NULL` test the value of their
/// operand.
pub open spec fn where_outcome(e: WhereExpr, row: Map<Seq<char>, ValueModel>) -> Result<bool, ExecFault>
    decreases e,
{
    match e {
        WhereExpr::BinaryOp { left, op, right } => match expr_outcome(*left, row) {
            Err(f) => Err(f),
            Ok(lv) => match expr_outcome(*right, row) {
                Err(f) => Err(f),
                Ok(rv) => match op {
                    CompareOp::Eq => Ok(value_eq(lv, rv)),
                    CompareOp::NotEq => Ok(!value_eq(lv, rv)),
                    CompareOp::Gt => compare_outcome(lv, rv, op),
                    CompareOp::Lt => compare_outcome(lv, rv, op),
                    CompareOp::GtEq => compare_outcome(lv, rv, op),
                    CompareOp::LtEq => compare_outcome(lv, rv, op),
                    CompareOp::And => match where_outcome(*left, row) {
                        Err(f) => Err(f),
                        Ok(a) => match where_outcome(*right, row) {
                            Err(f) => Err(f),
                            Ok(b) => Ok(a && b),
                        },
                    },
                    CompareOp::Or => match where_outcome(*left, row) {
                        Err(f) => Err(f),
                        Ok(a) => match where_outcome(*right, row) {
                            Err(f) => Err(f),
                            Ok(b) => Ok(a || b),
                        },
                    },
                    CompareOp::Other => Err(ExecFault::UnsupportedOperator),
                },
            },
        },
        WhereExpr::IsNull(x) => match expr_outcome(*x, row) {
            Err(f) => Err(f),
            Ok(v) => Ok(v is Null),
        },
        WhereExpr::IsNotNull(x) => match expr_outcome(*x, row) {
            Err(f) => Err(f),
            Ok(v) => Ok(!(v is Null)),
        },
        _ => Err(ExecFault::UnsupportedWhere),
    }
}

/// `<>` holds exactly where `=` does not, and both fail alike.
pub proof fn lemma_not_equal_negates_equal(l: WhereExpr, r: WhereExpr, row: Map<Seq<char>, ValueModel>)
    ensures
        match (
            where_outcome(WhereExpr::BinaryOp { left: Box::new(l), op: CompareOp::Eq, right: Box::new(r) }, row),
            where_outcome(WhereExpr::BinaryOp { left: Box::new(l), op: CompareOp::NotEq, right: Box::new(r) }, row),
        ) {
            (Ok(a), Ok(b)) => a == !b,
            (Err(x), Err(y)) => x == y,
            _ => false,
        },
{
}

/// `IS NOT NULL` holds exactly where `IS NULL` does not, and both fail
/// alike.
pub proof fn lemma_is_not_null_negates_is_null(x: WhereExpr, row: Map<Seq<char>, ValueModel>)
    ensures
        match (
            where_outcome(WhereExpr::IsNull(Box::new(x)), row),
            where_outcome(WhereExpr::IsNotNull(Box::new(x)), row),
        ) {
            (Ok(a), Ok(b)) => a == !b,
            (Err(f), Err(g)) => f == g,
            _ => false,
        },
{
}

/// Where both sides evaluate to values, `l > r` gives what `r < l` gives,
/// and `l >= r` what `r <= l` gives.
pub proof fn lemma_swapped_comparisons(l: WhereExpr, r: WhereExpr, row: Map<Seq<char>, ValueModel>)
    requires
        expr_outcome(l, row) is Ok,
        expr_outcome(r, row) is Ok,
    ensures
        where_outcome(WhereExpr::BinaryOp { left: Box::new(l), op: CompareOp::Gt, right: Box::new(r) }, row)
            == where_outcome(WhereExpr::BinaryOp { left: Box::new(r), op: CompareOp::Lt, right: Box::new(l) }, row),
        where_outcome(WhereExpr::BinaryOp { left: Box::new(l), op: CompareOp::GtEq, right: Box::new(r) }, row)
            == where_outcome(WhereExpr::BinaryOp { left: Box::new(r), op: CompareOp::LtEq, right: Box::new(l) }, row),
{
}

/// On values that can be ordered, `l >= r` holds exactly when `l > r` or
/// `l = r` holds, and `l <= r` exactly when `l < r` or `l = r`; all four
/// operators fail alike on values that cannot be ordered.
pub proof fn lemma_at_least_is_greater_or_equal(l: ValueModel, r: ValueModel)
    ensures
        match (compare_outcome(l, r, CompareOp::GtEq), compare_outcome(l, r, CompareOp::Gt)) {
            (Ok(ge), Ok(gt)) => ge == (gt || value_eq(l, r)),
            (Err(x), Err(y)) => x == y,
            _ => false,
        },
        match (compare_outcome(l, r, CompareOp::LtEq), compare_outcome(l, r, CompareOp::Lt)) {
            (Ok(le), Ok(lt)) => le == (lt || value_eq(l, r)),
            (Err(x), Err(y)) => x == y,
            _ => false,
        },
{
    if let (ValueModel::Str(a), ValueModel::Str(b)) = (l, r) {
        if a == b {
            lemma_chars_lt_irreflexive(a);
        } else {
            lemma_chars_lt_total(a, b);
            if chars_lt(a, b) {
                lemma_chars_lt_asymmetric(a, b);
            } else {
                lemma_chars_lt_asymmetric(b, a);
            }
        }
    }
}

/// On integers and texts, `l >= r` holds exactly where `l < r` does not,
/// and `l <= r` exactly where `l > r` does not.
pub proof fn lemma_at_least_negates_less(l: ValueModel, r: ValueModel)
    requires
        l is Integer || l is Str,
    ensures
        match (compare_outcome(l, r, CompareOp::GtEq), compare_outcome(l, r, CompareOp::Lt)) {
            (Ok(ge), Ok(lt)) => ge == !lt,
            (Err(x), Err(y)) => x == y,
            _ => false,
        },
        match (compare_outcome(l, r, CompareOp::LtEq), compare_outcome(l, r, CompareOp::Gt)) {
            (Ok(le), Ok(gt)) => le == !gt,
            (Err(x), Err(y)) => x == y,
            _ => false,
        },
{
}

/// An integer or a text is at least and at most itself, and neither above
/// nor below itself.
pub proof fn lemma_ordering_reflexive(v: ValueModel)
    requires
        v is Integer || v is Str,
    ensures
        compare_outcome(v, v, CompareOp::GtEq) == Ok::<bool, ExecFault>(true),
        compare_outcome(v, v, CompareOp::LtEq) == Ok::<bool, ExecFault>(true),
        compare_outcome(v, v, CompareOp::Gt) == Ok::<bool, ExecFault>(false),
        compare_outcome(v, v, CompareOp::Lt) == Ok::<bool, ExecFault>(false),
{
    if let ValueModel::Str(a) = v {
        lemma_chars_lt_irreflexive(a);
    }
}

/// Where both sides of a WHERE comparison evaluate to values, `l >= r`
/// holds exactly when `l > r` or `l = r` holds, and `l <= r` exactly when
/// `l < r` or `l = r` holds.
pub proof fn lemma_where_at_least_is_greater_or_equal(l: WhereExpr, r: WhereExpr, row: Map<Seq<char>, ValueModel>)
    requires
        expr_outcome(l, row) is Ok,
        expr_outcome(r, row) is Ok,
    ensures
        match (
            where_outcome(WhereExpr::BinaryOp { left: Box::new(l), op: CompareOp::GtEq, right: Box::new(r) }, row),
            where_outcome(WhereExpr::BinaryOp { left: Box::new(l), op: CompareOp::Gt, right: Box::new(r) }, row),
            where_outcome(WhereExpr::BinaryOp { left: Box::new(l), op: CompareOp::Eq, right: Box::new(r) }, row),
        ) {
            (Ok(ge), Ok(gt), Ok(eq)) => ge == (gt || eq),
            (Err(x), Err(y), _) => x == y,
            _ => false,
        },
        match (
            where_outcome(WhereExpr::BinaryOp { left: Box::new(l), op: CompareOp::LtEq, right: Box::new(r) }, row),
            where_outcome(WhereExpr::BinaryOp { left: Box::new(l), op: CompareOp::Lt, right: Box::new(r) }, row),
            where_outcome(WhereExpr::BinaryOp { left: Box::new(l), op: CompareOp::Eq, right: Box::new(r) }, row),
        ) {
            (Ok(le), Ok(lt), Ok(eq)) => le == (lt || eq),
            (Err(x), Err(y), _) => x == y,
            _ => false,
        },
{
    lemma_at_least_is_greater_or_equal(expr_outcome(l, row)->Ok_0, expr_outcome(r, row)->Ok_0);
}

/// Whether an execution result is the outcome `o`.
pub open spec fn result_is<T>(r: Result<T, ExecError>, o: Result<T, ExecFault>) -> bool {
    match r {
        Ok(v) => o == Ok::<T, ExecFault>(v),
        Err(e) => o == Err::<T, ExecFault>(e@),
    }
}

/// Compares two values with an ordering operator.
fn compare_values(left: &Value, right: &Value, op: CompareOp) -> (r: Result<bool, ExecError>)
    ensures
        result_is(r, compare_outcome(left@, right@, op)),
{
    match (left, right) {
        (Value::Integer(l), Value::Integer(r)) => match op {
            CompareOp::Gt => Ok(*l > *r),
            CompareOp::Lt => Ok(*l < *r),
            CompareOp::GtEq => Ok(*l >= *r),
            CompareOp::LtEq => Ok(*l <= *r),
            _ => Err(ExecError::InvalidComparison),
        },
        (Value::Float(l), Value::Float(r)) => match op {
            CompareOp::Gt => Ok(float_bits_lt64(*r, *l)),
            CompareOp::Lt => Ok(float_bits_lt64(*l, *r)),
            CompareOp::GtEq => Ok(float_bits_lt64(*r, *l) || float_bits_eq64(*l, *r)),
            CompareOp::LtEq => Ok(float_bits_lt64(*l, *r) || float_bits_eq64(*l, *r)),
            _ => Err(ExecError::InvalidComparison),
        },
        (Value::String(l), Value::String(r)) => match op {
            CompareOp::Gt => Ok(str_lt(r.as_str(), l.as_str())),
            CompareOp::Lt => Ok(str_lt(l.as_str(), r.as_str())),
            CompareOp::GtEq => Ok(!str_lt(l.as_str(), r.as_str())),
            CompareOp::LtEq => Ok(!str_lt(r.as_str(), l.as_str())),
            _ => Err(ExecError::InvalidComparison),
        },
        _ => Err(ExecError::TypeMismatch),
    }
}

/// Whether `pat` occurs in `s` at `i`.
pub open spec fn occurs_chars(s: Seq<char>, pat: Seq<char>, i: int) -> bool {
    0 <= i && i + pat.len() <= s.len() && s.subrange(i, i + pat.len()) == pat
}

/// Whether `pat` occurs in `s` (`str::contains`).
pub open spec fn contains_seq(s: Seq<char>, pat: Seq<char>) -> bool {
    exists|i: int| #[trigger] occurs_chars(s, pat, i)
}

/// The text with every occurrence of a nonempty `pat` taken out, the
/// occurrences found from left to right without overlap (`str::replace`
/// with an empty replacement).
pub open spec fn remove_all(s: Seq<char>, pat: Seq<char>) -> Seq<char>
    decreases s.len(),
{
    if s.len() == 0 {
        s
    } else if 0 < pat.len() <= s.len() && s.subrange(0, pat.len() as int) == pat {
        remove_all(s.subrange(pat.len() as int, s.len() as int), pat)
    } else {
        seq![s[0]] + remove_all(s.drop_first(), pat)
    }
}

/// The text without the copies of `c` that end it (`str::trim_end_matches`).
pub open spec fn trim_end_char(s: Seq<char>, c: char) -> Seq<char>
    decreases s.len(),
{
    if s.len() > 0 && s.last() == c {
        trim_end_char(s.drop_last(), c)
    } else {
        s
    }
}

/// The column type that an upper-cased type name stands for; unknown names
/// stand for text.
pub open spec fn column_type_named(u: Seq<char>) -> ColumnType {
    if u == "INT"@ || u == "INTEGER"@ {
        ColumnType::Integer
    } else if u == "FLOAT"@ || u == "DOUBLE"@ {
        ColumnType::Float
    } else if u == "BOOL"@ || u == "BOOLEAN"@ {
        ColumnType::Boolean
    } else if u == "TIMESTAMP"@ {
        ColumnType::Timestamp
    } else if u == "BINARY"@ {
        ColumnType::Binary
    } else if u == "JSON"@ {
        ColumnType::Json
    } else {
        ColumnType::String
    }
}

/// The column that a trimmed column definition declares, if it has at least
/// two words: the first word names it, the second (upper-cased) gives its
/// type, and it is nullable unless the definition contains `NOT NULL`.
pub open spec fn column_spec(d: Seq<char>) -> Option<(Seq<char>, ColumnType, bool)> {
    let w = words(d);
    if w.len() >= 2 {
        Some((w[0], column_type_named(uppercase(w[1])), !contains_seq(d, "NOT NULL"@)))
    } else {
        None
    }
}

/// The columns that the comma-separated pieces of a column list declare,
/// in order; pieces with fewer than two words declare none.
pub open spec fn column_specs(pieces: Seq<Seq<char>>) -> Seq<(Seq<char>, ColumnType, bool)>
    decreases pieces.len(),
{
    if pieces.len() == 0 {
        Seq::empty()
    } else {
        let rest = column_specs(pieces.drop_last());
        match column_spec(trim_ws(pieces.last())) {
            Some(c) => rest.push(c),
            None => rest,
        }
    }
}

/// Whether column definitions are the declared columns, without defaults.
pub open spec fn columns_match(cols: Seq<ColumnDef>, specs: Seq<(Seq<char>, ColumnType, bool)>) -> bool {
    &&& cols.len() == specs.len()
    &&& forall|i: int|
        0 <= i < cols.len() ==> (#[trigger] cols[i]).name@ == specs[i].0 && cols[i].column_type == specs[i].1
            && cols[i].nullable == specs[i].2 && cols[i].default is None
}

/// What a CREATE TABLE statement declares: `None` without a `(`; otherwise
/// the table name (the text before the first `(` with the words `CREATE`
/// and `TABLE` taken out, trimmed) and the columns of the text up to the
/// next `(` (without closing parentheses at its end, trimmed).
pub open spec fn create_table_parts(sql: Seq<char>) -> Option<(Seq<char>, Seq<(Seq<char>, ColumnType, bool)>)> {
    let parts = split_on(sql, '(');
    if parts.len() < 2 {
        None
    } else {
        let name = trim_ws(remove_all(remove_all(parts[0], "CREATE"@), "TABLE"@));
        let cols = trim_ws(trim_end_char(parts[1], ')'));
        Some((name, column_specs(split_on(cols, ','))))
    }
}

/// Whether `pat` occurs in `s` at `i`.
fn matches_at(s: &[char], pat: &[char], i: usize) -> (b: bool)
    requires
        i <= s@.len(),
    ensures
        b == occurs_chars(s@, pat@, i as int),
{
    if s.len() - i < pat.len() {
        return false;
    }
    let mut k: usize = 0;
    while k < pat.len()
        invariant
            i + pat@.len() <= s@.len(),
            s@.len() == s.len(),
            k <= pat@.len(),
            forall|j: int| 0 <= j < k ==> s@[i + j] == pat@[j],
        decreases pat@.len() - k,
    {
        if s[i + k] != pat[k] {
            proof {
                assert(s@.subrange(i as int, i + pat@.len())[k as int] != pat@[k as int]);
            }
            return false;
        }
        k += 1;
    }
    assert(s@.subrange(i as int, i + pat@.len()) =~= pat@);
    true
}

/// Whether `pat` occurs in `s`.
fn contains_chars(s: &[char], pat: &[char]) -> (b: bool)
    ensures
        b == contains_seq(s@, pat@),
{
    let mut i: usize = 0;
    while i < s.len()
        invariant
            i <= s@.len(),
            forall|j: int| 0 <= j < i ==> !#[trigger] occurs_chars(s@, pat@, j),
        decreases s@.len() - i,
    {
        if matches_at(s, pat, i) {
            return true;
        }
        i += 1;
    }
    if matches_at(s, pat, i) {
        return true;
    }
    proof {
        assert forall|j: int| !#[trigger] occurs_chars(s@, pat@, j) by {
            if j > s@.len() {
            }
        }
    }
    false
}

/// The text with every occurrence of `pat` taken out.
fn remove_all_chars(s: &[char], pat: &[char]) -> (r: Vec<char>)
    requires
        pat@.len() > 0,
    ensures
        r@ == remove_all(s@, pat@),
{
    let n = s.len();
    let mut out: Vec<char> = Vec::new();
    let mut i: usize = 0;
    proof {
        assert(s@.subrange(0, n as int) =~= s@);
        assert(out@ + remove_all(s@, pat@) =~= remove_all(s@, pat@));
    }
    while i < n
        invariant
            n == s@.len(),
            i <= n,
            pat@.len() > 0,
            out@ + remove_all(s@.subrange(i as int, n as int), pat@) == remove_all(s@, pat@),
        decreases n - i,
    {
        let ghost rest = s@.subrange(i as int, n as int);
        let ghost plen = pat@.len() as int;
        if matches_at(s, pat, i) {
            proof {
                assert(rest.subrange(0, plen) =~= s@.subrange(i as int, i + plen));
                assert(rest.subrange(plen, rest.len() as int) =~= s@.subrange(i + plen, n as int));
            }
            i += pat.len();
        } else {
            let c = s[i];
            proof {
                if plen <= rest.len() {
                    assert(rest.subrange(0, plen) =~= s@.subrange(i as int, i + plen));
                }
                assert(rest.drop_first() =~= s@.subrange(i + 1, n as int));
                assert(rest[0] == c);
                assert(out@.push(c) + remove_all(rest.drop_first(), pat@) =~= out@ + (seq![c] + remove_all(
                    rest.drop_first(),
                    pat@,
                )));
            }
            out.push(c);
            i += 1;
        }
    }
    proof {
        assert(s@.subrange(n as int, n as int) =~= Seq::<char>::empty());
        assert(out@ + Seq::<char>::empty() =~= out@);
    }
    out
}

/// The text without the copies of `c` that end it.
fn trim_end_char_chars(s: &[char], c: char) -> (r: Vec<char>)
    ensures
        r@ == trim_end_char(s@, c),
{
    let mut j: usize = s.len();
    proof {
        assert(s@.subrange(0, j as int) =~= s@);
    }
    while j > 0 && s[j - 1] == c
        invariant
            j <= s@.len(),
            trim_end_char(s@.subrange(0, j as int), c) == trim_end_char(s@, c),
        decreases j,
    {
        proof {
            assert(s@.subrange(0, j as int).drop_last() =~= s@.subrange(0, j - 1));
        }
        j -= 1;
    }
    sub_chars(s, 0, j)
}

/// The column type that an upper-cased type name stands for.
fn column_type_of(u: &str) -> (t: ColumnType)
    ensures
        t == column_type_named(u@),
{
    if str_eq(u, "INT") || str_eq(u, "INTEGER") {
        ColumnType::Integer
    } else if str_eq(u, "FLOAT") || str_eq(u, "DOUBLE") {
        ColumnType::Float
    } else if str_eq(u, "BOOL") || str_eq(u, "BOOLEAN") {
        ColumnType::Boolean
    } else if str_eq(u, "TIMESTAMP") {
        ColumnType::Timestamp
    } else if str_eq(u, "BINARY") {
        ColumnType::Binary
    } else if str_eq(u, "JSON") {
        ColumnType::Json
    } else {
        ColumnType::String
    }
}

/// Reads the table name and the column definitions of a CREATE TABLE
/// statement (see `create_table_parts`).
pub fn parse_create_table(sql: &str) -> (r: Result<(String, Vec<ColumnDef>), ExecError>)
    ensures
        match create_table_parts(sql@) {
            None => r matches Err(ExecError::InvalidCreateTable),
            Some(p) => r matches Ok(v) && v.0@ == p.0 && columns_match(v.1@, p.1),
        },
{
    let parts = split_chars(sql, '(');
    if parts.len() < 2 {
        return Err(ExecError::InvalidCreateTable);
    }
    proof {
        assert(pieces_view(parts@)[0] == parts@[0]@);
        assert(pieces_view(parts@)[1] == parts@[1]@);
        reveal_strlit("CREATE");
        reveal_strlit("TABLE");
        reveal_strlit("NOT NULL");
    }
    let create_word = chars_of("CREATE");
    let table_word = chars_of("TABLE");
    let a = remove_all_chars(parts[0].as_slice(), create_word.as_slice());
    let b = remove_all_chars(a.as_slice(), table_word.as_slice());
    let name_chars = trim_chars(b.as_slice());
    let name = string_from_chars(name_chars.as_slice());
    let c = trim_end_char_chars(parts[1].as_slice(), ')');
    let cols_chars = trim_chars(c.as_slice());
    let cols_text = string_from_chars(cols_chars.as_slice());
    let pieces = split_chars(cols_text.as_str(), ',');
    let not_null = chars_of("NOT NULL");
    let mut columns: Vec<ColumnDef> = Vec::new();
    let mut i: usize = 0;
    proof {
        assert(pieces_view(pieces@).subrange(0, 0) =~= Seq::<Seq<char>>::empty());
    }
    while i < pieces.len()
        invariant
            i <= pieces@.len(),
            not_null@ == "NOT NULL"@,
            columns_match(columns@, column_specs(pieces_view(pieces@).subrange(0, i as int))),
        decreases pieces@.len() - i,
    {
        let d = trim_chars(pieces[i].as_slice());
        let ds = string_from_chars(d.as_slice());
        let toks = split_whitespace(ds.as_str());
        let ghost ps = pieces_view(pieces@);
        proof {
            assert(ps.subrange(0, i + 1).drop_last() =~= ps.subrange(0, i as int));
            assert(ps.subrange(0, i + 1).last() == pieces@[i as int]@);
        }
        if toks.len() >= 2 {
            proof {
                assert(char_rows(toks@)[0] == toks@[0]@);
                assert(char_rows(toks@)[1] == toks@[1]@);
            }
            let col_name = string_from_chars(toks[0].as_slice());
            let type_text = string_from_chars(toks[1].as_slice());
            let up = to_uppercase(type_text.as_str());
            let column_type = column_type_of(up.as_str());
            let nullable = !contains_chars(d.as_slice(), not_null.as_slice());
            let ghost before = columns@;
            columns.push(ColumnDef { name: col_name, column_type, nullable, default: None });
            proof {
                let specs = column_specs(ps.subrange(0, i + 1));
                assert forall|k: int| 0 <= k < columns@.len() implies (#[trigger] columns@[k]).name@ == specs[k].0
                    && columns@[k].column_type == specs[k].1 && columns@[k].nullable == specs[k].2
                    && columns@[k].default is None by {
                    if k < before.len() {
                        assert(columns@[k] == before[k]);
                    }
                }
            }
        }
        i += 1;
    }
    proof {
        assert(pieces_view(pieces@).subrange(0, pieces@.len() as int) =~= pieces_view(pieces@));
    }
    Ok((name, columns))
}

/// The kind of a statement, by its leading keyword.
#[derive(Debug, Clone, Copy, PartialEq, Eq, Structural)]
pub enum StatementKind {
    CreateTable,
    Select,
    Insert,
    Update,
    Delete,
    Other,
}

/// The bytes of `CREATE TABLE`.
pub open spec fn create_table_bytes() -> Seq<u8> {
    seq![67u8, 82u8, 69u8, 65u8, 84u8, 69u8, 32u8, 84u8, 65u8, 66u8, 76u8, 69u8]
}

/// The bytes of `SELECT`.
pub open spec fn select_bytes() -> Seq<u8> {
    seq![83u8, 69u8, 76u8, 69u8, 67u8, 84u8]
}

/// The bytes of `INSERT`.
pub open spec fn insert_bytes() -> Seq<u8> {
    seq![73u8, 78u8, 83u8, 69u8, 82u8, 84u8]
}

/// The bytes of `DELETE`.
pub open spec fn delete_bytes() -> Seq<u8> {
    seq![68u8, 69u8, 76u8, 69u8, 84u8, 69u8]
}

/// The bytes of a statement keyword: `CREATE TABLE`, `SELECT`, `INSERT`,
/// `DELETE`, in that order of `which`.
pub open spec fn statement_keyword_bytes(which: u8) -> Seq<u8> {
    if which == 0 {
        create_table_bytes()
    } else if which == 1 {
        select_bytes()
    } else if which == 2 {
        insert_bytes()
    } else {
        delete_bytes()
    }
}

/// The bytes of a statement keyword.
fn statement_keyword(which: u8) -> (v: Vec<u8>)
    ensures
        v@ == statement_keyword_bytes(which),
{
    let mut v: Vec<u8> = Vec::new();
    if which == 0 {
        push_all(&mut v, &[67u8, 82u8, 69u8, 65u8, 84u8, 69u8, 32u8, 84u8, 65u8, 66u8, 76u8, 69u8]);
    } else if which == 1 {
        push_all(&mut v, &[83u8, 69u8, 76u8, 69u8, 67u8, 84u8]);
    } else if which == 2 {
        push_all(&mut v, &[73u8, 78u8, 83u8, 69u8, 82u8, 84u8]);
    } else {
        push_all(&mut v, &[68u8, 69u8, 76u8, 69u8, 84u8, 69u8]);
    }
    assert(v@ =~= statement_keyword_bytes(which));
    v
}

/// The kind of a statement: the keyword that its trimmed, upper-cased text
/// starts with, tried in the order `CREATE TABLE`, `SELECT`, `INSERT`,
/// `UPDATE`, `DELETE`.
pub open spec fn statement_kind(sql: Seq<char>) -> StatementKind {
    let u = upper_bytes(sql);
    if starts_with_bytes(u, create_table_bytes()) {
        StatementKind::CreateTable
    } else if starts_with_bytes(u, select_bytes()) {
        StatementKind::Select
    } else if starts_with_bytes(u, insert_bytes()) {
        StatementKind::Insert
    } else if starts_with_bytes(u, update_bytes()) {
        StatementKind::Update
    } else if starts_with_bytes(u, delete_bytes()) {
        StatementKind::Delete
    } else {
        StatementKind::Other
    }
}

/// Whether the positions of `FROM` (in a SELECT) and `VALUES` (in an
/// INSERT) found in the upper-cased statement cut the trimmed statement
/// itself inside it and on character boundaries.
pub open spec fn execute_cuts_valid(sql: Seq<char>) -> bool {
    let t = trimmed_bytes(sql);
    let u = upper_bytes(sql);
    let f = first_occurrence(u, from_bytes());
    let v = first_occurrence(u, values_bytes());
    &&& statement_kind(sql) == StatementKind::Select && f >= 0 ==> f + 4 <= t.len() && boundary(t, f + 4)
    &&& statement_kind(sql) == StatementKind::Insert && v >= 0 ==> v <= t.len() && boundary(t, v)
}

/// The table a SELECT reads: `None` without `FROM`; otherwise the first
/// word after `FROM` (empty where there is none).
pub open spec fn select_from(sql: Seq<char>) -> Option<Seq<char>> {
    let t = trimmed_bytes(sql);
    let f = first_occurrence(upper_bytes(sql), from_bytes());
    if f < 0 {
        None
    } else {
        let w = words(text_of(t.subrange(f + 4, t.len() as int)));
        Some(if w.len() > 0 { w[0] } else { Seq::empty() })
    }
}

/// The rows a statement gives back.
#[derive(Debug)]
pub struct QueryRows {
    /// The column names of the table read.
    pub columns: Vec<String>,
    /// The rows read, each as a map from column names to values.
    pub rows: Vec<StrMap<Value>>,
    /// The number of rows read or affected.
    pub row_count: usize,
}

/// Whether a result has no columns and no rows, and the given count.
pub open spec fn no_rows(q: QueryRows, n: usize) -> bool {
    q.columns@.len() == 0 && q.rows@.len() == 0 && q.row_count == n
}

/// A result without columns and rows.
fn empty_rows(n: usize) -> (q: QueryRows)
    ensures
        no_rows(q, n),
{
    QueryRows { columns: Vec::new(), rows: Vec::new(), row_count: n }
}

/// What a SELECT of a table gives: its rows in the order first inserted,
/// each as its map of values, and the names of its columns; a missing
/// table is refused.
pub open spec fn select_outcome(store: TableStore, table: Option<Seq<char>>, r: Result<QueryRows, ExecError>) -> bool {
    match table {
        None => r matches Err(ExecError::MissingFrom),
        Some(name) => {
            &&& !store.has_table(name) ==> (r matches Err(ExecError::Store(StoreError::TableMissing(n))) && n@ == name)
            &&& store.has_table(name) ==> (r matches Ok(q) && {
                let order = store.row_order(name);
                let cols = store.meta_of(name).columns@;
                &&& q.row_count == order.len()
                &&& q.rows@.len() == order.len()
                &&& forall|i: int|
                    0 <= i < order.len() ==> value_models((#[trigger] q.rows@[i])@) == store.rows_of(name)[order[i]]@
                &&& q.columns@.len() == cols.len()
                &&& forall|i: int| 0 <= i < cols.len() ==> (#[trigger] q.columns@[i])@ == cols[i].name@
            })
        },
    }
}

/// What running a CREATE TABLE with the given parts does to a store.
pub open spec fn create_outcome(
    before: TableStore,
    after: TableStore,
    parts: Option<(Seq<char>, Seq<(Seq<char>, ColumnType, bool)>)>,
    r: Result<QueryRows, ExecError>,
) -> bool {
    match parts {
        None => after == before && (r matches Err(ExecError::InvalidCreateTable)),
        Some((name, specs)) => {
            &&& before.has_table(name) ==> after == before && (r matches Err(
                ExecError::Store(StoreError::TableExists(n)),
            ) && n@ == name)
            &&& !before.has_table(name) && specs.len() == 0 ==> after == before && (r matches Err(
                ExecError::Store(StoreError::NoColumns),
            ))
            &&& !before.has_table(name) && specs.len() > 0 ==> {
                &&& (r matches Ok(q) && no_rows(q, 0))
                &&& after.has_table(name)
                &&& after.rows_of(name) == Map::<crate::types::RecordId, Row>::empty()
                &&& columns_match(after.meta_of(name).columns@, specs)
                &&& after.meta_of(name).primary_key@ == specs[0].0
                &&& after.table_order() == before.table_order().push(name)
                &&& forall|t: Seq<char>|
                    t != name ==> (#[trigger] after.has_table(t) == before.has_table(t) && after.rows_of(t)
                        == before.rows_of(t) && after.meta_of(t) == before.meta_of(t) && after.row_order(t)
                        == before.row_order(t))
            }
        },
    }
}

/// What running a statement does: CREATE TABLE creates the table it
/// declares; SELECT reads the table after `FROM`; INSERT gives a count of 1
/// (or is refused without `VALUES`); UPDATE, DELETE and anything else give
/// an empty result. Only CREATE TABLE changes the store.
pub open spec fn execute_outcome(before: TableStore, after: TableStore, sql: Seq<char>, r: Result<QueryRows, ExecError>) -> bool {
    match statement_kind(sql) {
        StatementKind::CreateTable => create_outcome(before, after, create_table_parts(trim_ws(sql)), r),
        StatementKind::Select => after == before && select_outcome(before, select_from(sql), r),
        StatementKind::Insert => after == before && if first_occurrence(upper_bytes(sql), values_bytes()) < 0 {
            (r matches Err(ExecError::MissingValues))
        } else {
            (r matches Ok(q) && no_rows(q, 1))
        },
        _ => after == before && (r matches Ok(q) && no_rows(q, 0)),
    }
}

/// Runs statements on a table store and evaluates WHERE expressions.
#[derive(Debug)]
pub struct QueryExecutor {}

impl QueryExecutor {
    /// An executor.
    pub fn new() -> (e: Self) {
        QueryExecutor {  }
    }

    /// Runs a statement, by its leading keyword in any letter case (see
    /// `execute_outcome`).
    pub fn execute(&self, tables: &mut TableStore, sql: &str) -> (r: Result<QueryRows, ExecError>)
        requires
            old(tables).wf(),
            execute_cuts_valid(sql@),
        ensures
            final(tables).wf(),
            execute_outcome(*old(tables), *final(tables), sql@, r),
    {
        broadcast use vstd::utf8::encode_utf8_valid_utf8;

        let t = trim_str(sql);
        let ts = t.as_str();
        let upper = to_uppercase(ts);
        let ub = upper.as_str().as_bytes();
        proof {
            assert(ub@ == upper_bytes(sql@));
        }
        let kw_create = statement_keyword(0);
        let kw_select = statement_keyword(1);
        let kw_insert = statement_keyword(2);
        let kw_update = keyword(5);
        let kw_delete = statement_keyword(3);
        if occurs_at_exec(ub, &kw_create, 0) {
            self.execute_create_table(tables, ts)
        } else if occurs_at_exec(ub, &kw_select, 0) {
            self.execute_select(tables, sql)
        } else if occurs_at_exec(ub, &kw_insert, 0) {
            let kw_values = keyword(4);
            match find_bytes(ub, &kw_values) {
                Some(_) => Ok(empty_rows(1)),
                None => Err(ExecError::MissingValues),
            }
        } else if occurs_at_exec(ub, &kw_update, 0) {
            Ok(empty_rows(0))
        } else if occurs_at_exec(ub, &kw_delete, 0) {
            Ok(empty_rows(0))
        } else {
            Ok(empty_rows(0))
        }
    }

    /// Runs `execute` where the cuts of the statement are valid; `None`
    /// where they are not (upper-casing moved a keyword off a character
    /// boundary of the statement).
    pub fn try_execute(&self, tables: &mut TableStore, sql: &str) -> (r: Option<Result<QueryRows, ExecError>>)
        requires
            old(tables).wf(),
        ensures
            final(tables).wf(),
            r is None <==> !execute_cuts_valid(sql@),
            r is None ==> *final(tables) == *old(tables),
            r matches Some(x) ==> execute_outcome(*old(tables), *final(tables), sql@, x),
    {
        broadcast use vstd::utf8::encode_utf8_valid_utf8;

        let t = trim_str(sql);
        let ts = t.as_str();
        let upper = to_uppercase(ts);
        let ub = upper.as_str().as_bytes();
        let tb = ts.as_bytes();
        let tlen = tb.len();
        proof {
            assert(ub@ == upper_bytes(sql@));
            assert(tb@ == trimmed_bytes(sql@));
            assert(vstd::utf8::valid_utf8(tb@));
        }
        let kw_create = statement_keyword(0);
        let kw_select = statement_keyword(1);
        let kw_insert = statement_keyword(2);
        let mut valid = true;
        if !occurs_at_exec(ub, &kw_create, 0) {
            if occurs_at_exec(ub, &kw_select, 0) {
                if let Some(f) = find_bytes(ub, &keyword(1)) {
                    if f > tlen || tlen - f < 4 || !char_boundary_at(tb, f + 4) {
                        valid = false;
                    }
                }
            } else if occurs_at_exec(ub, &kw_insert, 0) {
                if let Some(v) = find_bytes(ub, &keyword(4)) {
                    if v > tlen || !char_boundary_at(tb, v) {
                        valid = false;
                    }
                }
            }
        }
        if valid {
            Some(self.execute(tables, sql))
        } else {
            None
        }
    }

    /// Creates the table that a trimmed CREATE TABLE statement declares.
    fn execute_create_table(&self, tables: &mut TableStore, sql: &str) -> (r: Result<QueryRows, ExecError>)
        requires
            old(tables).wf(),
        ensures
            final(tables).wf(),
            create_outcome(*old(tables), *final(tables), create_table_parts(sql@), r),
    {
        let (table_name, columns) = match parse_create_table(sql) {
            Ok(p) => p,
            Err(e) => {
                return Err(e);
            },
        };
        match tables.create_table(table_name, columns) {
            Ok(()) => Ok(empty_rows(0)),
            Err(e) => Err(ExecError::Store(e)),
        }
    }

    /// Reads the table after `FROM` of a SELECT statement.
    fn execute_select(&self, tables: &TableStore, sql: &str) -> (r: Result<QueryRows, ExecError>)
        requires
            tables.wf(),
            statement_kind(sql@) == StatementKind::Select,
            execute_cuts_valid(sql@),
        ensures
            select_outcome(*tables, select_from(sql@), r),
    {
        let t = trim_str(sql);
        let ts = t.as_str();
        let upper = to_uppercase(ts);
        let ub = upper.as_str().as_bytes();
        let tb = ts.as_bytes();
        let tlen = tb.len();
        proof {
            assert(ub@ == upper_bytes(sql@));
            assert(tb@ == trimmed_bytes(sql@));
        }
        let kw_from = keyword(1);
        let from_idx = match find_bytes(ub, &kw_from) {
            Some(f) => f,
            None => {
                return Err(ExecError::MissingFrom);
            },
        };
        let rest = byte_slice(ts, from_idx + 4, tlen);
        let ws = split_whitespace(rest.as_str());
        let table_name = if ws.len() > 0 {
            proof {
                assert(char_rows(ws@)[0] == ws@[0]@);
            }
            string_from_chars(ws[0].as_slice())
        } else {
            String::new()
        };
        let rows = match tables.get_all_rows(table_name.as_str()) {
            Ok(rows) => rows,
            Err(e) => {
                return Err(ExecError::Store(e));
            },
        };
        let mut columns: Vec<String> = Vec::new();
        match tables.get_table_metadata(table_name.as_str()) {
            Ok(meta) => {
                let mut i: usize = 0;
                while i < meta.columns.len()
                    invariant
                        i <= meta.columns@.len(),
                        columns@.len() == i,
                        forall|k: int| 0 <= k < i ==> (#[trigger] columns@[k])@ == meta.columns@[k].name@,
                    decreases meta.columns@.len() - i,
                {
                    columns.push(meta.columns[i].name.clone());
                    i += 1;
                }
            },
            Err(_) => {},
        }
        let mut out: Vec<StrMap<Value>> = Vec::new();
        let mut i: usize = 0;
        while i < rows.len()
            invariant
                i <= rows@.len(),
                out@.len() == i,
                forall|k: int| 0 <= k < i ==> value_models((#[trigger] out@[k])@) == rows@[k]@,
            decreases rows@.len() - i,
        {
            let m = copy_value_map(&rows[i].values);
            proof {
                assert(rows@[i as int]@ =~= value_models(rows@[i as int].values@));
            }
            out.push(m);
            i += 1;
        }
        Ok(QueryRows { columns, rows: out, row_count: rows.len() })
    }

    /// Evaluates a WHERE expression on a row (see `where_outcome`).
    pub fn evaluate_where_expr(&self, expr: &WhereExpr, row: &Row) -> (r: Result<bool, ExecError>)
        ensures
            result_is(r, where_outcome(*expr, row@)),
        decreases expr,
    {
        match expr {
            WhereExpr::BinaryOp { left, op, right } => {
                let left_val = match self.evaluate_expr(&**left, row) {
                    Ok(v) => v,
                    Err(e) => {
                        return Err(e);
                    },
                };
                let right_val = match self.evaluate_expr(&**right, row) {
                    Ok(v) => v,
                    Err(e) => {
                        return Err(e);
                    },
                };
                match op {
                    CompareOp::Eq => Ok(left_val.equals(&right_val)),
                    CompareOp::NotEq => Ok(!left_val.equals(&right_val)),
                    CompareOp::Gt => compare_values(&left_val, &right_val, *op),
                    CompareOp::Lt => compare_values(&left_val, &right_val, *op),
                    CompareOp::GtEq => compare_values(&left_val, &right_val, *op),
                    CompareOp::LtEq => compare_values(&left_val, &right_val, *op),
                    CompareOp::And => {
                        let a = match self.evaluate_where_expr(&**left, row) {
                            Ok(b) => b,
                            Err(e) => {
                                return Err(e);
                            },
                        };
                        let b = match self.evaluate_where_expr(&**right, row) {
                            Ok(b) => b,
                            Err(e) => {
                                return Err(e);
                            },
                        };
                        Ok(a && b)
                    },
                    CompareOp::Or => {
                        let a = match self.evaluate_where_expr(&**left, row) {
                            Ok(b) => b,
                            Err(e) => {
                                return Err(e);
                            },
                        };
                        let b = match self.evaluate_where_expr(&**right, row) {
                            Ok(b) => b,
                            Err(e) => {
                                return Err(e);
                            },
                        };
                        Ok(a || b)
                    },
                    CompareOp::Other => Err(ExecError::UnsupportedOperator),
                }
            },
            WhereExpr::IsNull(x) => match self.evaluate_expr(&**x, row) {
                Ok(v) => Ok(matches!(v, Value::Null)),
                Err(e) => Err(e),
            },
            WhereExpr::IsNotNull(x) => match self.evaluate_expr(&**x, row) {
                Ok(v) => Ok(!matches!(v, Value::Null)),
                Err(e) => Err(e),
            },
            _ => Err(ExecError::UnsupportedWhere),
        }
    }

    /// Evaluates an expression to a value on a row (see `expr_outcome`).
    pub fn evaluate_expr(&self, expr: &WhereExpr, row: &Row) -> (r: Result<Value, ExecError>)
        ensures
            match r {
                Ok(v) => expr_outcome(*expr, row@) == Ok::<ValueModel, ExecFault>(v@),
                Err(e) => expr_outcome(*expr, row@) == Err::<ValueModel, ExecFault>(e@),
            },
    {
        match expr {
            WhereExpr::Identifier(name) => {
                let col_name = to_lowercase(name.as_str());
                match row.get(col_name.as_str()) {
                    Some(v) => Ok(v.duplicate()),
                    None => Err(ExecError::ColumnNotFound(col_name)),
                }
            },
            WhereExpr::Boolean(b) => Ok(Value::Boolean(*b)),
            WhereExpr::Number { text, float_bits } => {
                let chars = chars_of(text.as_str());
                match parse_i64(chars.as_slice()) {
                    Some(i) => Ok(Value::Integer(i)),
                    None => match float_bits {
                        Some(f) => Ok(Value::Float(*f)),
                        None => Err(ExecError::InvalidNumber(text.clone())),
                    },
                }
            },
            WhereExpr::SingleQuotedString(s) => Ok(Value::String(s.clone())),
            WhereExpr::Null => Ok(Value::Null),
            WhereExpr::Function => Err(ExecError::FunctionUnsupported),
            WhereExpr::OtherValue => Err(ExecError::UnsupportedValue),
            _ => Err(ExecError::UnsupportedExpression),
        }
    }
}

} // verus!
