//! Parsing of SQL statements, and conditions evaluated on rows whose values are all texts.

use vstd::prelude::*;
use crate::collections::StrMap;
use crate::query::executor::{CompareOp, ExecError, WhereExpr};
use crate::util::{chars_lt, str_eq, str_lt};
use crate::storage::caching::str_views;
use crate::text::{trim_str, trim_ws};
use sqlparser::ast::{ObjectName, ObjectType, SetExpr, Statement, TableFactor};
use sqlparser::dialect::PostgreSqlDialect;
use sqlparser::parser::Parser;

verus! {

/// The text an expression stands for on a row of texts: a column gives its
/// text (empty where the row lacks it), a number or quoted literal its own
/// text, a cast the text of its operand; anything else has none.
pub open spec fn text_value(e: WhereExpr, values: Map<Seq<char>, String>) -> Option<Seq<char>>
    decreases e,
{
    match e {
        WhereExpr::Identifier(id) => Some(
            if values.contains_key(id@) {
                values[id@]@
            } else {
                Seq::empty()
            },
        ),
        WhereExpr::Number { text, float_bits } => Some(text@),
        WhereExpr::SingleQuotedString(s) => Some(s@),
        WhereExpr::Cast(x) => text_value(*x, values),
        _ => None,
    }
}

/// What a condition gives on a row of texts (`None` where it cannot be
/// evaluated). Both operands of an operator must have texts, which
/// compare lexicographically; `AND` and `OR` then evaluate their sides as
/// conditions, the right one only where the left does not decide; other
/// operators give false. `IS NULL` tests for an empty text; any other
/// expression is false.
pub open spec fn text_condition(e: WhereExpr, values: Map<Seq<char>, String>) -> Option<bool>
    decreases e,
{
    match e {
        WhereExpr::BinaryOp { left, op, right } => match (text_value(*left, values), text_value(*right, values)) {
            (Some(a), Some(b)) => match op {
                CompareOp::Eq => Some(a == b),
                CompareOp::NotEq => Some(a != b),
                CompareOp::Gt => Some(chars_lt(b, a)),
                CompareOp::Lt => Some(chars_lt(a, b)),
                CompareOp::GtEq => Some(!chars_lt(a, b)),
                CompareOp::LtEq => Some(!chars_lt(b, a)),
                CompareOp::And => match text_condition(*left, values) {
                    None => None,
                    Some(false) => Some(false),
                    Some(true) => text_condition(*right, values),
                },
                CompareOp::Or => match text_condition(*left, values) {
                    None => None,
                    Some(true) => Some(true),
                    Some(false) => text_condition(*right, values),
                },
                CompareOp::Other => Some(false),
            },
            _ => None,
        },
        WhereExpr::IsNull(x) => match text_value(*x, values) {
            Some(v) => Some(v.len() == 0),
            None => None,
        },
        WhereExpr::IsNotNull(x) => match text_value(*x, values) {
            Some(v) => Some(v.len() != 0),
            None => None,
        },
        _ => Some(false),
    }
}

/// A condition to evaluate on rows of texts.
#[derive(Debug)]
pub struct ExecutableExpr {
    pub expr: WhereExpr,
}

impl ExecutableExpr {
    /// Evaluates the condition on a row (see `text_condition`); an
    /// expression without a text is refused.
    pub fn evaluate(&self, row_values: &StrMap<String>) -> (r: Result<bool, ExecError>)
        ensures
            match text_condition(self.expr, row_values@) {
                Some(b) => r == Ok::<bool, ExecError>(b),
                None => r matches Err(ExecError::UnsupportedExpression),
            },
    {
        eval_expr(&self.expr, row_values)
    }
}

/// Evaluates a condition on a row of texts.
fn eval_expr(expr: &WhereExpr, values: &StrMap<String>) -> (r: Result<bool, ExecError>)
    ensures
        match text_condition(*expr, values@) {
            Some(b) => r == Ok::<bool, ExecError>(b),
            None => r matches Err(ExecError::UnsupportedExpression),
        },
    decreases expr,
{
    match expr {
        WhereExpr::BinaryOp { left, op, right } => {
            let l = match get_value(&**left, values) {
                Some(v) => v,
                None => {
                    return Err(ExecError::UnsupportedExpression);
                },
            };
            let r = match get_value(&**right, values) {
                Some(v) => v,
                None => {
                    return Err(ExecError::UnsupportedExpression);
                },
            };
            match op {
                CompareOp::Eq => Ok(str_eq(l.as_str(), r.as_str())),
                CompareOp::NotEq => Ok(!str_eq(l.as_str(), r.as_str())),
                CompareOp::Gt => Ok(str_lt(r.as_str(), l.as_str())),
                CompareOp::Lt => Ok(str_lt(l.as_str(), r.as_str())),
                CompareOp::GtEq => Ok(!str_lt(l.as_str(), r.as_str())),
                CompareOp::LtEq => Ok(!str_lt(r.as_str(), l.as_str())),
                CompareOp::And => {
                    let a = match eval_expr(&**left, values) {
                        Ok(b) => b,
                        Err(e) => {
                            return Err(e);
                        },
                    };
                    if !a {
                        return Ok(false);
                    }
                    eval_expr(&**right, values)
                },
                CompareOp::Or => {
                    let a = match eval_expr(&**left, values) {
                        Ok(b) => b,
                        Err(e) => {
                            return Err(e);
                        },
                    };
                    if a {
                        return Ok(true);
                    }
                    eval_expr(&**right, values)
                },
                CompareOp::Other => Ok(false),
            }
        },
        WhereExpr::IsNull(x) => match get_value(&**x, values) {
            Some(v) => Ok(v.as_str().unicode_len() == 0),
            None => Err(ExecError::UnsupportedExpression),
        },
        WhereExpr::IsNotNull(x) => match get_value(&**x, values) {
            Some(v) => Ok(v.as_str().unicode_len() != 0),
            None => Err(ExecError::UnsupportedExpression),
        },
        _ => Ok(false),
    }
}

/// The text an expression stands for on a row of texts.
fn get_value(expr: &WhereExpr, values: &StrMap<String>) -> (r: Option<String>)
    ensures
        match text_value(*expr, values@) {
            Some(t) => r matches Some(s) && s@ == t,
            None => r is None,
        },
    decreases expr,
{
    match expr {
        WhereExpr::Identifier(id) => match values.get(id.as_str()) {
            Some(v) => Some(v.clone()),
            None => Some(String::new()),
        },
        WhereExpr::Number { text, float_bits } => Some(text.clone()),
        WhereExpr::SingleQuotedString(s) => Some(s.clone()),
        WhereExpr::Cast(x) => get_value(&**x, values),
        _ => None,
    }
}

/// The kind of a parsed statement.
#[derive(Debug, Clone, Copy, PartialEq, Eq, Structural)]
pub enum QueryType {
    Select,
    Insert,
    Update,
    Delete,
    CreateTable,
    CreateIndex,
    DropTable,
    Other,
}

#[verifier::external_type_specification]
#[verifier::external_body]
pub struct ExStatement(Statement);

/// The variant of a parsed statement that parsing reads.
#[derive(Debug, Clone, Copy, PartialEq, Eq, Structural)]
pub enum StatementVariant {
    Query,
    Insert,
    Update,
    Delete,
    CreateTable,
    CreateIndex,
    Drop,
    Other,
}

/// What parsing reads of a statement: its variant; for a drop, whether it
/// drops a table; for a query whose body is a plain select, its FROM list
/// (each item's table name, when the item is a named table); for an insert
/// its target's name, for an update its table's name when that is a named
/// table. A name is the last part of a dotted name.
#[derive(Debug, Clone)]
pub struct StatementModel {
    pub variant: StatementVariant,
    pub drops_table: bool,
    pub from: Option<Vec<Option<String>>>,
    pub target: Option<String>,
}

/// The views of optional names.
pub open spec fn opt_names(v: Seq<Option<String>>) -> Seq<Option<Seq<char>>> {
    v.map_values(|o: Option<String>| match o {
        Some(n) => Some(n@),
        None => None,
    })
}

/// The content of a `StatementModel`.
pub struct StatementShape {
    pub variant: StatementVariant,
    pub drops_table: bool,
    pub from: Option<Seq<Option<Seq<char>>>>,
    pub target: Option<Seq<char>>,
}

impl View for StatementModel {
    type V = StatementShape;

    open spec fn view(&self) -> StatementShape {
        StatementShape {
            variant: self.variant,
            drops_table: self.drops_table,
            from: match self.from {
                Some(v) => Some(opt_names(v@)),
                None => None,
            },
            target: match self.target {
                Some(t) => Some(t@),
                None => None,
            },
        }
    }
}

/// What `sqlparser::parser::Parser::parse_sql` gives for a text in the
/// PostgreSQL dialect: its statements, or none when the text does not parse.
pub uninterp spec fn postgres_parse(sql: Seq<char>) -> Option<Seq<Statement>>;

/// The variant of a statement and, for a drop, whether its object type is a
/// table.
pub uninterp spec fn statement_head(stmt: Statement) -> (StatementVariant, bool);

/// The FROM names of a statement's plain select body and the name of its
/// insert target or update table (see `StatementModel`).
pub uninterp spec fn statement_names(stmt: Statement) -> (Option<Seq<Option<Seq<char>>>>, Option<Seq<char>>);

/// What parsing reads of a statement.
pub open spec fn statement_shape(stmt: Statement) -> StatementShape {
    StatementShape {
        variant: statement_head(stmt).0,
        drops_table: statement_head(stmt).1,
        from: statement_names(stmt).0,
        target: statement_names(stmt).1,
    }
}

/// Parses a text with `sqlparser::parser::Parser::parse_sql` in the
/// PostgreSQL dialect: it succeeds exactly when `postgres_parse` gives
/// statements, and gives those; a parse error becomes its message.
#[verifier::external_body]
fn parse_postgres(sql: &str) -> (r: Result<Vec<Statement>, String>)
    ensures
        r is Ok <==> postgres_parse(sql@) is Some,
        r is Ok ==> r->Ok_0@ == postgres_parse(sql@)->0,
{
    Parser::parse_sql(&PostgreSqlDialect {}, sql).map_err(|e| format!("SQL Parse Error: {}", e))
}

/// Tells a statement's variants apart, one arm each, with a drop's object
/// type tested for a table (see `statement_head`).
#[verifier::external_body]
fn read_statement_head(stmt: &Statement) -> (r: (StatementVariant, bool))
    ensures
        r == statement_head(*stmt),
{
    match stmt {
        Statement::Query(_) => (StatementVariant::Query, false),
        Statement::Insert { .. } => (StatementVariant::Insert, false),
        Statement::Update { .. } => (StatementVariant::Update, false),
        Statement::Delete { .. } => (StatementVariant::Delete, false),
        Statement::CreateTable { .. } => (StatementVariant::CreateTable, false),
        Statement::CreateIndex { .. } => (StatementVariant::CreateIndex, false),
        Statement::Drop { object_type, .. } => (StatementVariant::Drop, *object_type == ObjectType::Table),
        _ => (StatementVariant::Other, false),
    }
}

/// Reads the names of a statement's tables off its syntax tree (see
/// `statement_names`).
#[verifier::external_body]
fn read_statement_names(stmt: &Statement) -> (r: (Option<Vec<Option<String>>>, Option<String>))
    ensures
        (match r.0 {
            Some(v) => Some(opt_names(v@)),
            None => None,
        }, match r.1 {
            Some(t) => Some(t@),
            None => None,
        }) == statement_names(*stmt),
{
    let last = |n: &ObjectName| n.0.last().map(|i| i.value.clone()).unwrap_or_default();
    let table = |t: &TableFactor| match t { TableFactor::Table { name, .. } => Some(last(name)), _ => None };
    match stmt {
        Statement::Query(q) => match &*q.body {
            SetExpr::Select(s) => (Some(s.from.iter().map(|f| table(&f.relation)).collect()), None),
            _ => (None, None),
        },
        Statement::Insert { table_name, .. } => (None, Some(last(table_name))),
        Statement::Update { table: t, .. } => (None, table(&t.relation)),
        _ => (None, None),
    }
}

/// What parsing reads of a statement.
pub fn statement_model(stmt: &Statement) -> (m: StatementModel)
    ensures
        m@ == statement_shape(*stmt),
{
    let (variant, drops_table) = read_statement_head(stmt);
    let (from, target) = read_statement_names(stmt);
    StatementModel { variant, drops_table, from, target }
}

/// The kind of a statement: a query is a select; insert, update, delete,
/// create table and create index are themselves; a drop of a table is a
/// drop table; anything else is other.
pub open spec fn kind_of(s: StatementShape) -> QueryType {
    match s.variant {
        StatementVariant::Query => QueryType::Select,
        StatementVariant::Insert => QueryType::Insert,
        StatementVariant::Update => QueryType::Update,
        StatementVariant::Delete => QueryType::Delete,
        StatementVariant::CreateTable => QueryType::CreateTable,
        StatementVariant::CreateIndex => QueryType::CreateIndex,
        StatementVariant::Drop => if s.drops_table {
            QueryType::DropTable
        } else {
            QueryType::Other
        },
        StatementVariant::Other => QueryType::Other,
    }
}

/// The named tables among optional names, in order.
pub open spec fn present_names(v: Seq<Option<Seq<char>>>) -> Seq<Seq<char>>
    decreases v.len(),
{
    if v.len() == 0 {
        Seq::empty()
    } else {
        match v.last() {
            Some(n) => present_names(v.drop_last()).push(n),
            None => present_names(v.drop_last()),
        }
    }
}

/// The tables a statement names: the named tables of a plain select's FROM
/// list; an insert's target (its name, empty when it has none); an update's
/// table when it is a named table; none for anything else.
pub open spec fn table_names(s: StatementShape) -> Seq<Seq<char>> {
    match s.variant {
        StatementVariant::Query => match s.from {
            Some(v) => present_names(v),
            None => Seq::empty(),
        },
        StatementVariant::Insert => match s.target {
            Some(t) => seq![t],
            None => seq![Seq::empty()],
        },
        StatementVariant::Update => match s.target {
            Some(t) => seq![t],
            None => Seq::empty(),
        },
        _ => Seq::empty(),
    }
}

/// The kind of a statement (see `kind_of`).
pub fn classify(m: &StatementModel) -> (k: QueryType)
    ensures
        k == kind_of(m@),
{
    match m.variant {
        StatementVariant::Query => QueryType::Select,
        StatementVariant::Insert => QueryType::Insert,
        StatementVariant::Update => QueryType::Update,
        StatementVariant::Delete => QueryType::Delete,
        StatementVariant::CreateTable => QueryType::CreateTable,
        StatementVariant::CreateIndex => QueryType::CreateIndex,
        StatementVariant::Drop => if m.drops_table {
            QueryType::DropTable
        } else {
            QueryType::Other
        },
        StatementVariant::Other => QueryType::Other,
    }
}

/// The tables a statement names (see `table_names`).
pub fn tables_of(m: &StatementModel) -> (t: Vec<String>)
    ensures
        str_views(t@) == table_names(m@),
{
    let mut t: Vec<String> = Vec::new();
    match m.variant {
        StatementVariant::Query => {
            match &m.from {
                Some(v) => {
                    let mut i: usize = 0;
                    while i < v.len()
                        invariant
                            i <= v@.len(),
                            str_views(t@) == present_names(opt_names(v@).subrange(0, i as int)),
                        decreases v@.len() - i,
                    {
                        proof {
                            assert(opt_names(v@).subrange(0, i + 1).drop_last() =~= opt_names(v@).subrange(0, i as int));
                        }
                        match &v[i] {
                            Some(n) => {
                                let ghost before = t@;
                                t.push(n.clone());
                                proof {
                                    assert(str_views(t@) =~= str_views(before).push(n@));
                                }
                            },
                            None => {},
                        }
                        i += 1;
                    }
                    proof {
                        assert(opt_names(v@).subrange(0, i as int) =~= opt_names(v@));
                    }
                },
                None => {
                    assert(str_views(t@) =~= Seq::<Seq<char>>::empty());
                },
            }
        },
        StatementVariant::Insert => {
            match &m.target {
                Some(n) => t.push(n.clone()),
                None => t.push(String::new()),
            }
            assert(str_views(t@) =~= table_names(m@));
        },
        StatementVariant::Update => {
            match &m.target {
                Some(n) => t.push(n.clone()),
                None => {},
            }
            assert(str_views(t@) =~= table_names(m@));
        },
        _ => {
            assert(str_views(t@) =~= Seq::<Seq<char>>::empty());
        },
    }
    t
}

/// A parsed statement with its kind and the tables it names.
#[derive(Debug)]
pub struct ParsedQuery {
    pub statement: Statement,
    pub query_type: QueryType,
    pub tables: Vec<String>,
}

/// Why a text could not be parsed.
#[derive(Debug, Clone, PartialEq, Eq)]
pub enum SqlError {
    /// The parser's message.
    Parse(String),
    /// The text holds no statement.
    NoStatement,
}

/// The SQL parser (PostgreSQL dialect).
pub struct SqlParser {}

impl SqlParser {
    /// A parser.
    pub fn new() -> (p: Self) {
        SqlParser {  }
    }

    /// Parses the first statement of a text, with white space trimmed at
    /// both ends: a parse error when the text does not parse, no statement
    /// when it holds none, else the first statement with its kind and
    /// table names.
    pub fn parse(&self, sql: &str) -> (r: Result<ParsedQuery, SqlError>)
        ensures
            r matches Err(SqlError::Parse(_)) <==> postgres_parse(trim_ws(sql@)) is None,
            r matches Err(SqlError::NoStatement) <==> (postgres_parse(trim_ws(sql@)) matches Some(s) && s.len() == 0),
            r is Ok <==> (postgres_parse(trim_ws(sql@)) matches Some(s) && s.len() > 0),
            r matches Ok(q) ==> {
                let first = postgres_parse(trim_ws(sql@))->0[0];
                &&& q.statement == first
                &&& q.query_type == kind_of(statement_shape(first))
                &&& str_views(q.tables@) == table_names(statement_shape(first))
            },
    {
        let text = trim_str(sql);
        let mut statements = match parse_postgres(text.as_str()) {
            Ok(v) => v,
            Err(e) => {
                return Err(SqlError::Parse(e));
            },
        };
        if statements.len() == 0 {
            return Err(SqlError::NoStatement);
        }
        let statement = statements.remove(0);
        let model = statement_model(&statement);
        let query_type = classify(&model);
        let tables = tables_of(&model);
        Ok(ParsedQuery { statement, query_type, tables })
    }
}

} // verus!
