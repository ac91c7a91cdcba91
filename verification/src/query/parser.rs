//! SELECT statements read into their table, columns, filters, joins,
//! grouping, ordering and paging.

use vstd::prelude::*;
use crate::sql::parser::ExStatement;
use crate::util::{chars_of, owned};
use crate::query::dml::{all_digits, digits_value, lemma_digits_prefix};
use sqlparser::ast::{
    ColumnOption, DataType, Expr, JoinConstraint, JoinOperator, SelectItem, SetExpr, Statement, Value as SqlValue,
};
use crate::types::{ColumnDef, ColumnType};
use sqlparser::dialect::GenericDialect;
use sqlparser::parser::Parser;

verus! {

#[verifier::external_type_specification]
#[verifier::external_body]
pub struct ExExpr(Expr);

#[verifier::external_type_specification]
#[verifier::external_body]
pub struct ExJoinOperator(JoinOperator);

#[verifier::external_type_specification]
#[verifier::external_body]
pub struct ExDataType(DataType);

/// The kinds of column data type that a table definition tells apart.
#[derive(Debug, Clone, Copy, PartialEq, Eq, Structural)]
pub enum DataKind {
    Integer,
    Text,
    Boolean,
    Timestamp,
    Float,
    Other,
}

/// The parts of a CREATE TABLE: its name's text and each column's name,
/// data type and whether it has a NOT NULL option; none for another
/// statement.
pub uninterp spec fn create_table_of(stmt: Statement) -> Option<(String, Seq<(String, DataType, bool)>)>;

/// The kind of a data type: INT and INTEGER, VARCHAR and TEXT, BOOLEAN,
/// TIMESTAMP, FLOAT and DOUBLE, or another.
pub uninterp spec fn data_kind_of(t: DataType) -> DataKind;

/// The parts of a CREATE TABLE (see `create_table_of`).
#[verifier::external_body]
fn read_create_table(stmt: &Statement) -> (r: Option<(String, Vec<(String, DataType, bool)>)>)
    ensures
        r is Some <==> create_table_of(*stmt) is Some,
        r matches Some(x) ==> create_table_of(*stmt) matches Some(q) && x.0 == q.0 && x.1@ == q.1,
{
    let Statement::CreateTable { name, columns, .. } = stmt else { return None };
    let not_null = |c: &sqlparser::ast::ColumnDef| c.options.iter().any(|o| matches!(o.option, ColumnOption::NotNull));
    Some((name.to_string(), columns.iter().map(|c| (c.name.value.clone(), c.data_type.clone(), not_null(c))).collect()))
}

/// The kind of a data type, one variant to one kind (see `data_kind_of`).
#[verifier::external_body]
fn read_data_kind(t: &DataType) -> (r: DataKind)
    ensures
        r == data_kind_of(*t),
{
    match t {
        DataType::Int(_) | DataType::Integer(_) => DataKind::Integer,
        DataType::Varchar(_) | DataType::Text => DataKind::Text,
        DataType::Boolean => DataKind::Boolean,
        DataType::Timestamp(_, _) => DataKind::Timestamp,
        DataType::Float(_) | DataType::Double => DataKind::Float,
        _ => DataKind::Other,
    }
}

/// The column type of a data kind (a string for another kind).
pub open spec fn column_type_of(k: DataKind) -> ColumnType {
    match k {
        DataKind::Integer => ColumnType::Integer,
        DataKind::Text => ColumnType::String,
        DataKind::Boolean => ColumnType::Boolean,
        DataKind::Timestamp => ColumnType::Timestamp,
        DataKind::Float => ColumnType::Float,
        DataKind::Other => ColumnType::String,
    }
}

/// Whether a column definition is what a table definition's column gives:
/// its name, the column type of its data type, nullable unless NOT NULL,
/// and no default.
pub open spec fn column_from(c: ColumnDef, d: (String, DataType, bool)) -> bool {
    &&& c.name@ == d.0@
    &&& c.column_type == column_type_of(data_kind_of(d.1))
    &&& c.nullable == !d.2
    &&& c.default is None
}

/// The comparison of a filter.
#[derive(Debug, Clone, Copy, PartialEq, Eq, Structural)]
pub enum FilterOp {
    Equal,
    NotEqual,
    GreaterThan,
    GreaterThanOrEqual,
    LessThan,
    LessThanOrEqual,
    Like,
    In,
    Between,
    IsNull,
    IsNotNull,
}

/// A condition on a column: the column's text, the comparison and the
/// compared text.
#[derive(Debug, Clone)]
pub struct Filter {
    pub column: String,
    pub op: FilterOp,
    pub value: String,
}

/// The kinds of join.
#[derive(Debug, Clone, Copy, PartialEq, Eq, Structural)]
pub enum JoinType {
    Inner,
    Left,
    Right,
    Full,
    Cross,
}

/// A join of the FROM clause with its ON condition.
#[derive(Debug, Clone)]
pub struct ParsedJoin {
    pub join_type: JoinType,
    pub table: String,
    pub on_condition: Filter,
}

/// What a SELECT statement reads.
#[derive(Debug, Clone)]
pub struct ParsedSelect {
    pub table: String,
    pub columns: Vec<String>,
    pub filters: Vec<Filter>,
    pub joins: Vec<ParsedJoin>,
    pub group_by: Vec<String>,
    pub order_by: Vec<(String, bool)>,
    pub limit: Option<u64>,
    pub offset: Option<u64>,
    pub distinct: bool,
}

/// Why a text is not read as a SELECT.
#[derive(Debug, Clone, PartialEq, Eq)]
pub enum ParseError {
    /// The parser's message.
    Syntax(String),
    /// The text holds no statement.
    NoStatement,
    /// The first statement is not a plain SELECT.
    NotSelect,
    /// The SELECT has no FROM clause.
    NoFrom,
    /// The first statement is not an INSERT.
    NotInsert,
    /// The first statement is not an UPDATE.
    NotUpdate,
    /// The first statement is not a DELETE.
    NotDelete,
    /// The first statement is not a CREATE TABLE.
    NotCreateTable,
}

/// An item of a SELECT list: `*`, an expression's text, an expression's
/// text with its alias, or another item.
#[derive(Debug, Clone)]
pub enum ProjectionItem {
    All,
    Expression(String),
    Aliased(String, String),
    Other,
}

/// A condition as the syntax tree writes it: a binary operator (its text)
/// with its two operands (as trees and as texts), or any other expression
/// (its text).
#[derive(Debug)]
pub enum CondTree {
    Binary { left: Box<CondTree>, op: String, right: Box<CondTree>, left_text: String, right_text: String },
    Leaf(String),
}

/// What a join operator is: its kind and, for a join with an ON
/// constraint, its condition.
#[derive(Debug, Clone, Copy, PartialEq, Eq, Structural)]
pub enum JoinOperatorKind {
    Inner,
    LeftOuter,
    RightOuter,
    FullOuter,
    CrossJoin,
    Other,
}

/// What `Parser::parse_sql` gives for a text in the generic dialect: its
/// statements, or none when it does not parse.
pub uninterp spec fn generic_parse(sql: Seq<char>) -> Option<Seq<Statement>>;

/// The parts of a plain SELECT that a statement is (a query whose body is a
/// SELECT), none for any other statement: the SELECT list, the FROM list
/// (each item's relation text and its joins' operators and relation texts),
/// the WHERE expression, the GROUP BY texts, the ORDER BY texts with their
/// direction, the LIMIT and OFFSET (a number's text, or none for another
/// expression), and whether it is DISTINCT.
pub uninterp spec fn projection_of(stmt: Statement) -> Option<Seq<ProjectionItem>>;

pub uninterp spec fn from_of(stmt: Statement) -> Seq<(String, Seq<(JoinOperator, String)>)>;

pub uninterp spec fn selection_of(stmt: Statement) -> Option<Expr>;

pub uninterp spec fn group_by_of(stmt: Statement) -> Seq<String>;

pub uninterp spec fn order_by_of(stmt: Statement) -> Seq<(String, Option<bool>)>;

pub uninterp spec fn limit_of(stmt: Statement) -> Option<Option<String>>;

pub uninterp spec fn offset_of(stmt: Statement) -> Option<Option<String>>;

pub uninterp spec fn distinct_of(stmt: Statement) -> bool;

/// The parts of an INSERT: its table's text, its columns' names, and the
/// texts of its VALUES rows (none without VALUES); none for another
/// statement.
pub uninterp spec fn insert_of(stmt: Statement) -> Option<(String, Seq<String>, Seq<Seq<String>>)>;

/// The parts of an UPDATE: its table's text, each assignment's first name
/// part with its value's text, and its WHERE expression; none for another
/// statement.
pub uninterp spec fn update_of(stmt: Statement) -> Option<(String, Seq<(String, String)>, Option<Expr>)>;

/// The parts of a DELETE: its FROM relations' texts and its WHERE
/// expression; none for another statement.
pub uninterp spec fn delete_of(stmt: Statement) -> Option<(Seq<String>, Option<Expr>)>;

/// What a join operator is (see `JoinOperatorKind`).
pub uninterp spec fn join_kind_of(op: JoinOperator) -> (JoinOperatorKind, Option<Expr>);

/// The condition tree of an expression.
pub uninterp spec fn condition_of(e: Expr) -> CondTree;

/// Parses a text with `Parser::parse_sql` in the generic dialect (see
/// `generic_parse`); a parse error becomes its message.
#[verifier::external_body]
fn parse_generic(sql: &str) -> (r: Result<Vec<Statement>, String>)
    ensures
        r is Ok <==> generic_parse(sql@) is Some,
        r is Ok ==> r->Ok_0@ == generic_parse(sql@)->0,
{
    Parser::parse_sql(&GenericDialect {}, sql).map_err(|e| format!("Parse error: {}", e))
}

/// The SELECT list of a plain SELECT, item by item (see `projection_of`).
#[verifier::external_body]
fn read_projection(stmt: &Statement) -> (r: Option<Vec<ProjectionItem>>)
    ensures
        r is Some <==> projection_of(*stmt) is Some,
        r is Some ==> r->Some_0@ == projection_of(*stmt)->0,
{
    let Statement::Query(q) = stmt else { return None };
    let SetExpr::Select(s) = &*q.body else { return None };
    Some(s.projection.iter().map(|item| match item {
        SelectItem::Wildcard(_) => ProjectionItem::All,
        SelectItem::UnnamedExpr(e) => ProjectionItem::Expression(e.to_string()),
        SelectItem::ExprWithAlias { expr, alias } => ProjectionItem::Aliased(expr.to_string(), alias.to_string()),
        _ => ProjectionItem::Other,
    }).collect())
}

/// The FROM list of a plain SELECT (see `from_of`).
#[verifier::external_body]
fn read_from(stmt: &Statement) -> (r: Vec<(String, Vec<(JoinOperator, String)>)>)
    ensures
        r@.len() == from_of(*stmt).len(),
        forall|i: int| 0 <= i < r@.len() ==> (#[trigger] r@[i]).0 == from_of(*stmt)[i].0 && r@[i].1@ == from_of(*stmt)[i].1,
{
    let Statement::Query(q) = stmt else { return Vec::new() };
    let SetExpr::Select(s) = &*q.body else { return Vec::new() };
    s.from.iter().map(|t| (t.relation.to_string(), t.joins.iter().map(|j| (j.join_operator.clone(), j.relation.to_string())).collect())).collect()
}

/// The WHERE expression of a plain SELECT (see `selection_of`).
#[verifier::external_body]
fn read_selection(stmt: &Statement) -> (r: Option<Expr>)
    ensures
        r == selection_of(*stmt),
{
    let Statement::Query(q) = stmt else { return None };
    let SetExpr::Select(s) = &*q.body else { return None };
    s.selection.clone()
}

/// The GROUP BY expressions' texts of a plain SELECT (see `group_by_of`).
#[verifier::external_body]
fn read_group_by(stmt: &Statement) -> (r: Vec<String>)
    ensures
        r@ == group_by_of(*stmt),
{
    let Statement::Query(q) = stmt else { return Vec::new() };
    let SetExpr::Select(s) = &*q.body else { return Vec::new() };
    match &s.group_by {
        sqlparser::ast::GroupByExpr::Expressions(v) => v.iter().map(|e| e.to_string()).collect(),
        sqlparser::ast::GroupByExpr::All => Vec::new(),
    }
}

/// The ORDER BY expressions' texts and directions of a query (see
/// `order_by_of`).
#[verifier::external_body]
fn read_order_by(stmt: &Statement) -> (r: Vec<(String, Option<bool>)>)
    ensures
        r@ == order_by_of(*stmt),
{
    let Statement::Query(q) = stmt else { return Vec::new() };
    q.order_by.iter().map(|o| (o.expr.to_string(), o.asc)).collect()
}

/// The LIMIT of a query: a number's text, or none for another expression
/// (see `limit_of`).
#[verifier::external_body]
fn read_limit(stmt: &Statement) -> (r: Option<Option<String>>)
    ensures
        r == limit_of(*stmt),
{
    let Statement::Query(q) = stmt else { return None };
    q.limit.as_ref().map(|l| match l {
        Expr::Value(SqlValue::Number(n, _)) => Some(n.clone()),
        _ => None,
    })
}

/// The OFFSET of a query: a number's text, or none for another expression
/// (see `offset_of`).
#[verifier::external_body]
fn read_offset(stmt: &Statement) -> (r: Option<Option<String>>)
    ensures
        r == offset_of(*stmt),
{
    let Statement::Query(q) = stmt else { return None };
    q.offset.as_ref().map(|o| match &o.value {
        Expr::Value(SqlValue::Number(n, _)) => Some(n.clone()),
        _ => None,
    })
}

/// Whether a plain SELECT is DISTINCT (see `distinct_of`).
#[verifier::external_body]
fn read_distinct(stmt: &Statement) -> (r: bool)
    ensures
        r == distinct_of(*stmt),
{
    let Statement::Query(q) = stmt else { return false };
    let SetExpr::Select(s) = &*q.body else { return false };
    s.distinct.is_some()
}

/// The parts of an INSERT (see `insert_of`).
#[verifier::external_body]
fn read_insert(stmt: &Statement) -> (r: Option<(String, Vec<String>, Vec<Vec<String>>)>)
    ensures
        r is Some <==> insert_of(*stmt) is Some,
        r matches Some(x) ==> insert_of(*stmt) matches Some(q) && x.0 == q.0 && x.1@ == q.1 && x.2@.map_values(
            |v: Vec<String>| v@,
        ) == q.2,
{
    let Statement::Insert { table_name, columns, source, .. } = stmt else { return None };
    let rows = match source.as_deref().map(|q| &*q.body) {
        Some(SetExpr::Values(v)) => v.rows.iter().map(|row| row.iter().map(|e| e.to_string()).collect()).collect(),
        _ => Vec::new(),
    };
    Some((table_name.to_string(), columns.iter().map(|c| c.value.clone()).collect(), rows))
}

/// The parts of an UPDATE (see `update_of`).
#[verifier::external_body]
fn read_update(stmt: &Statement) -> (r: Option<(String, Vec<(String, String)>, Option<Expr>)>)
    ensures
        r is Some <==> update_of(*stmt) is Some,
        r matches Some(x) ==> update_of(*stmt) matches Some(q) && x.0 == q.0 && x.1@ == q.1 && x.2 == q.2,
{
    let Statement::Update { table, assignments, selection, .. } = stmt else { return None };
    let sets = assignments.iter().map(|a| (a.id.first().map(|i| i.value.clone()).unwrap_or_default(), a.value.to_string()));
    Some((table.relation.to_string(), sets.collect(), selection.clone()))
}

/// The parts of a DELETE (see `delete_of`).
#[verifier::external_body]
fn read_delete(stmt: &Statement) -> (r: Option<(Vec<String>, Option<Expr>)>)
    ensures
        r is Some <==> delete_of(*stmt) is Some,
        r matches Some(x) ==> delete_of(*stmt) matches Some(q) && x.0@ == q.0 && x.1 == q.1,
{
    let Statement::Delete { from, selection, .. } = stmt else { return None };
    Some((from.iter().map(|t| t.relation.to_string()).collect(), selection.clone()))
}

/// A join operator's kind, one variant to one kind, and its ON condition
/// (see `join_kind_of`).
#[verifier::external_body]
fn read_join_operator(op: &JoinOperator) -> (r: (JoinOperatorKind, Option<Expr>))
    ensures
        r == join_kind_of(*op),
{
    let on = |c: &JoinConstraint| if let JoinConstraint::On(e) = c { Some(e.clone()) } else { None };
    match op {
        JoinOperator::Inner(c) => (JoinOperatorKind::Inner, on(c)),
        JoinOperator::LeftOuter(c) => (JoinOperatorKind::LeftOuter, on(c)),
        JoinOperator::RightOuter(c) => (JoinOperatorKind::RightOuter, on(c)),
        JoinOperator::FullOuter(c) => (JoinOperatorKind::FullOuter, on(c)),
        JoinOperator::CrossJoin => (JoinOperatorKind::CrossJoin, None),
        _ => (JoinOperatorKind::Other, None),
    }
}

/// The condition tree of an expression, node for node (see `CondTree`).
#[verifier::external_body]
fn read_condition(e: &Expr) -> (r: CondTree)
    ensures
        r == condition_of(*e),
{
    match e {
        Expr::BinaryOp { left, op, right } => CondTree::Binary {
            left: Box::new(read_condition(left)),
            op: op.to_string(),
            right: Box::new(read_condition(right)),
            left_text: left.to_string(),
            right_text: right.to_string(),
        },
        _ => CondTree::Leaf(e.to_string()),
    }
}

/// The comparison a binary operator's text names (`=` when none).
pub open spec fn filter_op_of(op: Seq<char>) -> FilterOp {
    if op == "<>"@ {
        FilterOp::NotEqual
    } else if op == ">"@ {
        FilterOp::GreaterThan
    } else if op == ">="@ {
        FilterOp::GreaterThanOrEqual
    } else if op == "<"@ {
        FilterOp::LessThan
    } else if op == "<="@ {
        FilterOp::LessThanOrEqual
    } else {
        FilterOp::Equal
    }
}

/// The content of a filter.
pub open spec fn filter_view(f: Filter) -> (Seq<char>, FilterOp, Seq<char>) {
    (f.column@, f.op, f.value@)
}

/// The contents of filters.
pub open spec fn filter_views(v: Seq<Filter>) -> Seq<(Seq<char>, FilterOp, Seq<char>)> {
    v.map_values(|f: Filter| filter_view(f))
}

/// The filters of a condition: the filters of both sides of AND and OR; for
/// another binary operator, its left operand's text compared with its right
/// operand's text; any other expression's text compared with `true`.
pub open spec fn where_filters(t: CondTree) -> Seq<(Seq<char>, FilterOp, Seq<char>)>
    decreases t,
{
    match t {
        CondTree::Binary { left, op, right, left_text, right_text } => if op@ == "AND"@ || op@ == "OR"@ {
            where_filters(*left) + where_filters(*right)
        } else {
            seq![(left_text@, filter_op_of(op@), right_text@)]
        },
        CondTree::Leaf(s) => seq![(s@, FilterOp::Equal, "true"@)],
    }
}

/// The comparison a binary operator's text names.
fn filter_op(op: &str) -> (r: FilterOp)
    ensures
        r == filter_op_of(op@),
{
    proof {
        reveal_strlit("<>");
        reveal_strlit(">");
        reveal_strlit(">=");
        reveal_strlit("<");
        reveal_strlit("<=");
    }
    if crate::util::str_eq(op, "<>") {
        FilterOp::NotEqual
    } else if crate::util::str_eq(op, ">") {
        FilterOp::GreaterThan
    } else if crate::util::str_eq(op, ">=") {
        FilterOp::GreaterThanOrEqual
    } else if crate::util::str_eq(op, "<") {
        FilterOp::LessThan
    } else if crate::util::str_eq(op, "<=") {
        FilterOp::LessThanOrEqual
    } else {
        FilterOp::Equal
    }
}

/// A copy of a filter.
fn copy_filter(f: &Filter) -> (r: Filter)
    ensures
        filter_view(r) == filter_view(*f),
{
    Filter { column: f.column.clone(), op: f.op, value: f.value.clone() }
}

/// Appends filters.
fn append_filters(dest: &mut Vec<Filter>, src: Vec<Filter>)
    ensures
        filter_views(final(dest)@) == filter_views(old(dest)@) + filter_views(src@),
{
    let ghost start = filter_views(dest@);
    let mut i: usize = 0;
    while i < src.len()
        invariant
            i <= src@.len(),
            filter_views(dest@) == start + filter_views(src@).subrange(0, i as int),
        decreases src@.len() - i,
    {
        let ghost before = dest@;
        dest.push(copy_filter(&src[i]));
        proof {
            assert(filter_views(dest@) =~= filter_views(before).push(filter_view(src@[i as int])));
            assert(filter_views(dest@) =~= start + filter_views(src@).subrange(0, i + 1));
        }
        i += 1;
    }
    proof {
        assert(filter_views(src@).subrange(0, i as int) =~= filter_views(src@));
    }
}

/// The filters of a condition (see `where_filters`).
pub fn parse_where_expr(t: &CondTree) -> (r: Vec<Filter>)
    ensures
        filter_views(r@) == where_filters(*t),
    decreases t,
{
    proof {
        reveal_strlit("AND");
        reveal_strlit("OR");
        reveal_strlit("true");
    }
    match t {
        CondTree::Binary { left, op, right, left_text, right_text } => {
            if crate::util::str_eq(op.as_str(), "AND") || crate::util::str_eq(op.as_str(), "OR") {
                let mut r = parse_where_expr(left);
                let rest = parse_where_expr(right);
                append_filters(&mut r, rest);
                r
            } else {
                let mut r: Vec<Filter> = Vec::new();
                r.push(Filter { column: left_text.clone(), op: filter_op(op.as_str()), value: right_text.clone() });
                proof {
                    assert(filter_views(r@) =~= where_filters(*t));
                }
                r
            }
        },
        CondTree::Leaf(s) => {
            let mut r: Vec<Filter> = Vec::new();
            r.push(Filter { column: s.clone(), op: FilterOp::Equal, value: owned("true") });
            proof {
                assert(filter_views(r@) =~= where_filters(*t));
            }
            r
        },
    }
}

/// The text of a SELECT list item, none for an item it does not name.
pub open spec fn item_text(item: ProjectionItem) -> Option<Seq<char>> {
    match item {
        ProjectionItem::All => Some("*"@),
        ProjectionItem::Expression(e) => Some(e@),
        ProjectionItem::Aliased(e, a) => Some(e@ + " AS "@ + a@),
        ProjectionItem::Other => None,
    }
}

/// The named items' texts of a SELECT list, in order.
pub open spec fn item_texts(items: Seq<ProjectionItem>) -> Seq<Seq<char>>
    decreases items.len(),
{
    if items.len() == 0 {
        Seq::empty()
    } else {
        match item_text(items.last()) {
            Some(t) => item_texts(items.drop_last()).push(t),
            None => item_texts(items.drop_last()),
        }
    }
}

/// The columns of a SELECT list: its items' texts, or `*` when it names none.
pub open spec fn columns_of(items: Seq<ProjectionItem>) -> Seq<Seq<char>> {
    if item_texts(items).len() == 0 {
        seq!["*"@]
    } else {
        item_texts(items)
    }
}

/// The views of some texts.
pub open spec fn texts(v: Seq<String>) -> Seq<Seq<char>> {
    v.map_values(|s: String| s@)
}

/// The columns of a SELECT list (see `columns_of`).
pub fn parse_projection(items: &Vec<ProjectionItem>) -> (r: Vec<String>)
    ensures
        texts(r@) == columns_of(items@),
{
    proof {
        reveal_strlit("*");
        reveal_strlit(" AS ");
    }
    let mut r: Vec<String> = Vec::new();
    let mut i: usize = 0;
    while i < items.len()
        invariant
            i <= items@.len(),
            texts(r@) == item_texts(items@.subrange(0, i as int)),
        decreases items@.len() - i,
    {
        proof {
            assert(items@.subrange(0, i + 1).drop_last() =~= items@.subrange(0, i as int));
        }
        let ghost before = r@;
        match &items[i] {
            ProjectionItem::All => r.push(owned("*")),
            ProjectionItem::Expression(e) => r.push(e.clone()),
            ProjectionItem::Aliased(e, a) => {
                let mut t = e.clone();
                t.append(" AS ");
                t.append(a.as_str());
                r.push(t);
            },
            ProjectionItem::Other => {},
        }
        proof {
            if item_text(items@[i as int]) is Some {
                assert(texts(r@) =~= texts(before).push(item_text(items@[i as int])->0));
            } else {
                assert(texts(r@) =~= texts(before));
            }
        }
        i += 1;
    }
    proof {
        assert(items@.subrange(0, i as int) =~= items@);
    }
    if r.len() == 0 {
        r.push(owned("*"));
        proof {
            assert(texts(r@) =~= seq!["*"@]);
        }
    }
    r
}

/// The join type of an operator kind (an inner join for a kind without its
/// own type).
pub open spec fn join_type_of(k: JoinOperatorKind) -> JoinType {
    match k {
        JoinOperatorKind::Inner => JoinType::Inner,
        JoinOperatorKind::LeftOuter => JoinType::Left,
        JoinOperatorKind::RightOuter => JoinType::Right,
        JoinOperatorKind::FullOuter => JoinType::Full,
        JoinOperatorKind::CrossJoin => JoinType::Cross,
        JoinOperatorKind::Other => JoinType::Inner,
    }
}

/// The condition a join is given when it has none to read: `id = id`.
pub open spec fn default_condition() -> (Seq<char>, FilterOp, Seq<char>) {
    ("id"@, FilterOp::Equal, "id"@)
}

/// The ON condition of a join: for an inner or left outer join with an ON
/// constraint, the first filter of its condition (the default when it has
/// none); the default for any other join.
pub open spec fn on_condition_of(k: JoinOperatorKind, on: Option<Expr>) -> (Seq<char>, FilterOp, Seq<char>) {
    if (k == JoinOperatorKind::Inner || k == JoinOperatorKind::LeftOuter) && on is Some {
        let f = where_filters(condition_of(on->0));
        if f.len() > 0 {
            f[0]
        } else {
            default_condition()
        }
    } else {
        default_condition()
    }
}

/// What a join of the FROM list gives: its type, its relation's text and
/// its ON condition.
pub open spec fn join_view(j: (JoinOperator, String)) -> (JoinType, Seq<char>, (Seq<char>, FilterOp, Seq<char>)) {
    let (k, on) = join_kind_of(j.0);
    (join_type_of(k), j.1@, on_condition_of(k, on))
}

/// The joins of a FROM list, item by item.
pub open spec fn joins_of(from: Seq<(String, Seq<(JoinOperator, String)>)>) -> Seq<(JoinType, Seq<char>, (Seq<char>, FilterOp, Seq<char>))>
    decreases from.len(),
{
    if from.len() == 0 {
        Seq::empty()
    } else {
        joins_of(from.drop_last()) + from.last().1.map_values(|j: (JoinOperator, String)| join_view(j))
    }
}

/// The content of a parsed join.
pub open spec fn parsed_join_view(j: ParsedJoin) -> (JoinType, Seq<char>, (Seq<char>, FilterOp, Seq<char>)) {
    (j.join_type, j.table@, filter_view(j.on_condition))
}

/// The contents of parsed joins.
pub open spec fn parsed_join_views(v: Seq<ParsedJoin>) -> Seq<(JoinType, Seq<char>, (Seq<char>, FilterOp, Seq<char>))> {
    v.map_values(|j: ParsedJoin| parsed_join_view(j))
}

/// A parsed join of a FROM list's join (see `join_view`).
fn parse_join(op: &JoinOperator, relation: &String) -> (r: ParsedJoin)
    ensures
        parsed_join_view(r) == join_view((*op, *relation)),
{
    proof {
        reveal_strlit("id");
    }
    let (kind, on) = read_join_operator(op);
    let join_type = match kind {
        JoinOperatorKind::Inner => JoinType::Inner,
        JoinOperatorKind::LeftOuter => JoinType::Left,
        JoinOperatorKind::RightOuter => JoinType::Right,
        JoinOperatorKind::FullOuter => JoinType::Full,
        JoinOperatorKind::CrossJoin => JoinType::Cross,
        JoinOperatorKind::Other => JoinType::Inner,
    };
    let default = Filter { column: owned("id"), op: FilterOp::Equal, value: owned("id") };
    let on_condition = if kind == JoinOperatorKind::Inner || kind == JoinOperatorKind::LeftOuter {
        match &on {
            Some(e) => {
                let tree = read_condition(e);
                let filters = parse_where_expr(&tree);
                if filters.len() > 0 {
                    proof {
                        assert(filter_views(filters@)[0] == filter_view(filters@[0]));
                    }
                    copy_filter(&filters[0])
                } else {
                    default
                }
            },
            None => default,
        }
    } else {
        default
    };
    ParsedJoin { join_type, table: relation.clone(), on_condition }
}

/// The table and joins of a FROM list: the first item's relation, and the
/// joins of every item; an error for an empty list.
pub fn parse_from_and_joins(from: &Vec<(String, Vec<(JoinOperator, String)>)>) -> (r: Result<(String, Vec<ParsedJoin>), ParseError>)
    ensures
        from@.len() == 0 <==> r == Err::<(String, Vec<ParsedJoin>), ParseError>(ParseError::NoFrom),
        r is Err ==> r == Err::<(String, Vec<ParsedJoin>), ParseError>(ParseError::NoFrom),
        r matches Ok((table, joins)) ==> table@ == from@[0].0@ && parsed_join_views(joins@) == joins_of(
            from@.map_values(|e: (String, Vec<(JoinOperator, String)>)| (e.0, e.1@)),
        ),
{
    if from.len() == 0 {
        return Err(ParseError::NoFrom);
    }
    let ghost model = from@.map_values(|e: (String, Vec<(JoinOperator, String)>)| (e.0, e.1@));
    let table = from[0].0.clone();
    let mut joins: Vec<ParsedJoin> = Vec::new();
    let mut i: usize = 0;
    while i < from.len()
        invariant
            i <= from@.len(),
            model == from@.map_values(|e: (String, Vec<(JoinOperator, String)>)| (e.0, e.1@)),
            parsed_join_views(joins@) == joins_of(model.subrange(0, i as int)),
        decreases from@.len() - i,
    {
        proof {
            assert(model.subrange(0, i + 1).drop_last() =~= model.subrange(0, i as int));
        }
        let item_joins = &from[i].1;
        let ghost start = parsed_join_views(joins@);
        let mut j: usize = 0;
        while j < item_joins.len()
            invariant
                j <= item_joins@.len(),
                parsed_join_views(joins@) == start + item_joins@.subrange(0, j as int).map_values(
                    |x: (JoinOperator, String)| join_view(x),
                ),
            decreases item_joins@.len() - j,
        {
            let ghost before = joins@;
            let pj = parse_join(&item_joins[j].0, &item_joins[j].1);
            joins.push(pj);
            proof {
                assert(parsed_join_views(joins@) =~= parsed_join_views(before).push(parsed_join_view(pj)));
                assert(item_joins@.subrange(0, j + 1).map_values(|x: (JoinOperator, String)| join_view(x))
                    =~= item_joins@.subrange(0, j as int).map_values(|x: (JoinOperator, String)| join_view(x)).push(
                    join_view(item_joins@[j as int]),
                ));
            }
            j += 1;
        }
        proof {
            assert(item_joins@.subrange(0, j as int) =~= item_joins@);
            assert(model.subrange(0, i + 1).last().1 == item_joins@);
        }
        i += 1;
    }
    proof {
        assert(model.subrange(0, i as int) =~= model);
    }
    Ok((table, joins))
}

/// The number that `u64::from_str` reads from a text: an optional `+` and
/// ASCII digits, in range.
pub open spec fn u64_text(t: Seq<char>) -> Option<u64> {
    let d = if t.len() > 0 && t[0] == '+' {
        t.drop_first()
    } else {
        t
    };
    if all_digits(d) && digits_value(d) <= u64::MAX {
        Some(digits_value(d) as u64)
    } else {
        None
    }
}

/// Reads a number as `u64::from_str` does (see `u64_text`).
fn parse_u64(t: &str) -> (r: Option<u64>)
    ensures
        r == u64_text(t@),
{
    let c = chars_of(t);
    let n = c.len();
    let start: usize = if n > 0 && c[0] == '+' {
        1
    } else {
        0
    };
    let ghost d = if t@.len() > 0 && t@[0] == '+' {
        t@.drop_first()
    } else {
        t@
    };
    proof {
        assert(d =~= c@.subrange(start as int, n as int));
    }
    if start == n {
        return None;
    }
    let mut acc: u64 = 0;
    let mut i: usize = start;
    while i < n
        invariant
            start <= i <= n == c@.len(),
            start < n,
            c@ == t@,
            d == c@.subrange(start as int, n as int),
            d == (if t@.len() > 0 && t@[0] == '+' { t@.drop_first() } else { t@ }),
            forall|j: int| start <= j < i ==> '0' <= #[trigger] c@[j] <= '9',
            acc == digits_value(c@.subrange(start as int, i as int)),
        decreases n - i,
    {
        let ch = c[i];
        proof {
            assert(c@.subrange(start as int, i + 1).drop_last() =~= c@.subrange(start as int, i as int));
        }
        if !('0' <= ch && ch <= '9') {
            proof {
                assert(d[i - start] == c@[i as int]);
                assert(!all_digits(d));
                assert(d == (if t@.len() > 0 && t@[0] == '+' { t@.drop_first() } else { t@ }));
                assert(u64_text(t@) is None);
            }
            return None;
        }
        let digit = (ch as u32 - '0' as u32) as u64;
        let next = match acc.checked_mul(10) {
            Some(m) => m.checked_add(digit),
            None => None,
        };
        match next {
            Some(v) => {
                acc = v;
            },
            None => {
                proof {
                    assert(10 * acc + digit > u64::MAX) by (nonlinear_arith)
                        requires
                            acc * 10 > u64::MAX || acc * 10 + digit > u64::MAX,
                            digit <= 9,
                    ;
                    assert(digits_value(c@.subrange(start as int, i + 1)) == 10 * acc + digit);
                    if all_digits(d) {
                        lemma_digits_prefix(d, i + 1 - start);
                        assert(d.subrange(0, i + 1 - start) =~= c@.subrange(start as int, i + 1));
                        assert(digits_value(d) > u64::MAX);
                    }
                }
                return None;
            },
        }
        i += 1;
    }
    proof {
        assert(c@.subrange(start as int, n as int) =~= d);
    }
    Some(acc)
}

/// LIMIT and OFFSET: a number's text read as `u64` (0 when it does not
/// read), 0 for another expression.
pub open spec fn paging_value(p: Option<Option<String>>) -> Option<u64> {
    match p {
        Some(Some(n)) => Some(
            match u64_text(n@) {
                Some(v) => v,
                None => 0,
            },
        ),
        Some(None) => Some(0),
        None => None,
    }
}

/// A LIMIT or OFFSET value (see `paging_value`).
fn paging(p: &Option<Option<String>>) -> (r: Option<u64>)
    ensures
        r == paging_value(*p),
{
    match p {
        Some(Some(n)) => Some(
            match parse_u64(n.as_str()) {
                Some(v) => v,
                None => 0,
            },
        ),
        Some(None) => Some(0),
        None => None,
    }
}

/// The texts of rows of texts, row after row.
pub open spec fn flatten_texts(rows: Seq<Seq<String>>) -> Seq<Seq<char>>
    decreases rows.len(),
{
    if rows.len() == 0 {
        Seq::empty()
    } else {
        flatten_texts(rows.drop_last()) + texts(rows.last())
    }
}

/// The ORDER BY items: each expression's text, ascending unless DESC.
pub open spec fn order_views(v: Seq<(String, Option<bool>)>) -> Seq<(Seq<char>, bool)> {
    v.map_values(|o: (String, Option<bool>)| (o.0@, o.1 != Some(false)))
}

/// The contents of the ORDER BY pairs of a parsed select.
pub open spec fn order_pairs(v: Seq<(String, bool)>) -> Seq<(Seq<char>, bool)> {
    v.map_values(|o: (String, bool)| (o.0@, o.1))
}

/// The ORDER BY pairs (see `order_views`).
fn parse_order_by(v: &Vec<(String, Option<bool>)>) -> (r: Vec<(String, bool)>)
    ensures
        order_pairs(r@) == order_views(v@),
{
    let mut r: Vec<(String, bool)> = Vec::new();
    let mut i: usize = 0;
    while i < v.len()
        invariant
            i <= v@.len(),
            order_pairs(r@) == order_views(v@.subrange(0, i as int)),
        decreases v@.len() - i,
    {
        let asc = match v[i].1 {
            Some(false) => false,
            _ => true,
        };
        let ghost before = r@;
        r.push((owned(v[i].0.as_str()), asc));
        proof {
            assert(v@.subrange(0, i + 1) =~= v@.subrange(0, i as int).push(v@[i as int]));
            assert(order_views(v@.subrange(0, i + 1)) =~= order_views(v@.subrange(0, i as int)).push(
                (v@[i as int].0@, v@[i as int].1 != Some(false)),
            ));
            assert(order_pairs(r@) =~= order_pairs(before).push((v@[i as int].0@, asc)));
            assert(order_pairs(r@) =~= order_views(v@.subrange(0, i + 1)));
        }
        i += 1;
    }
    proof {
        assert(v@.subrange(0, i as int) =~= v@);
    }
    r
}

/// What a plain SELECT reads: the columns of its SELECT list, the table and
/// joins of its FROM list, the filters of its WHERE condition (none without
/// one), its GROUP BY and ORDER BY texts, its LIMIT and OFFSET, and whether
/// it is DISTINCT; an error without a FROM list.
pub open spec fn select_read(stmt: Statement, r: ParsedSelect) -> bool {
    let from = from_of(stmt);
    &&& texts(r.columns@) == columns_of(projection_of(stmt)->0)
    &&& r.table@ == from[0].0@
    &&& parsed_join_views(r.joins@) == joins_of(from)
    &&& filter_views(r.filters@) == match selection_of(stmt) {
        Some(e) => where_filters(condition_of(e)),
        None => Seq::empty(),
    }
    &&& texts(r.group_by@) == texts(group_by_of(stmt))
    &&& order_pairs(r.order_by@) == order_views(order_by_of(stmt))
    &&& r.limit == paging_value(limit_of(stmt))
    &&& r.offset == paging_value(offset_of(stmt))
    &&& r.distinct == distinct_of(stmt)
}

/// Reads a plain SELECT (see `select_read`).
pub fn parse_select_statement(stmt: &Statement) -> (r: Result<ParsedSelect, ParseError>)
    requires
        projection_of(*stmt) is Some,
    ensures
        from_of(*stmt).len() == 0 <==> r == Err::<ParsedSelect, ParseError>(ParseError::NoFrom),
        r is Err ==> r == Err::<ParsedSelect, ParseError>(ParseError::NoFrom),
        r matches Ok(p) ==> select_read(*stmt, p),
{
    let items = match read_projection(stmt) {
        Some(v) => v,
        None => Vec::new(),
    };
    let columns = parse_projection(&items);
    let from = read_from(stmt);
    let ghost model = from@.map_values(|e: (String, Vec<(JoinOperator, String)>)| (e.0, e.1@));
    proof {
        assert(model =~= from_of(*stmt));
    }
    let (table, joins) = match parse_from_and_joins(&from) {
        Ok(p) => p,
        Err(e) => {
            return Err(e);
        },
    };
    let filters = match read_selection(stmt) {
        Some(e) => {
            let tree = read_condition(&e);
            parse_where_expr(&tree)
        },
        None => {
            let v: Vec<Filter> = Vec::new();
            assert(filter_views(v@) =~= Seq::<(Seq<char>, FilterOp, Seq<char>)>::empty());
            v
        },
    };
    let group_by = read_group_by(stmt);
    let order_by = parse_order_by(&read_order_by(stmt));
    let limit = paging(&read_limit(stmt));
    let offset = paging(&read_offset(stmt));
    let distinct = read_distinct(stmt);
    Ok(ParsedSelect { table, columns, filters, joins, group_by, order_by, limit, offset, distinct })
}

/// Reads SQL statements in the generic dialect.
pub struct AdvancedSqlParser {}

impl AdvancedSqlParser {
    /// A parser.
    pub fn new() -> (p: Self) {
        AdvancedSqlParser {  }
    }

    /// Parses a text and reads its first statement as a plain SELECT: a
    /// syntax error, no statement, not a SELECT, or what the SELECT reads
    /// (see `select_read`).
    pub fn parse_select(&self, sql: &str) -> (r: Result<ParsedSelect, ParseError>)
        ensures
            r matches Err(ParseError::Syntax(_)) <==> generic_parse(sql@) is None,
            r matches Err(ParseError::NoStatement) <==> (generic_parse(sql@) matches Some(s) && s.len() == 0),
            r matches Err(ParseError::NotSelect) <==> (generic_parse(sql@) matches Some(s) && s.len() > 0
                && projection_of(s[0]) is None),
            r matches Err(ParseError::NoFrom) <==> (generic_parse(sql@) matches Some(s) && s.len() > 0
                && projection_of(s[0]) is Some && from_of(s[0]).len() == 0),
            r matches Ok(p) ==> (generic_parse(sql@) matches Some(s) && s.len() > 0 && select_read(s[0], p)),
            r is Err ==> r matches Err(ParseError::Syntax(_)) || r == Err::<ParsedSelect, ParseError>(ParseError::NoStatement)
                || r == Err::<ParsedSelect, ParseError>(ParseError::NotSelect) || r == Err::<ParsedSelect, ParseError>(
                ParseError::NoFrom,
            ),
    {
        let statements = match parse_generic(sql) {
            Ok(v) => v,
            Err(e) => {
                return Err(ParseError::Syntax(e));
            },
        };
        if statements.len() == 0 {
            return Err(ParseError::NoStatement);
        }
        let stmt = &statements[0];
        match read_projection(stmt) {
            None => Err(ParseError::NotSelect),
            Some(_) => parse_select_statement(stmt),
        }
    }

    /// Parses a text and reads its first statement as a CREATE TABLE: its
    /// name and its columns (see `column_from`).
    pub fn parse_create_table(&self, sql: &str) -> (r: Result<(String, Vec<ColumnDef>), ParseError>)
        ensures
            r matches Err(ParseError::Syntax(_)) <==> generic_parse(sql@) is None,
            r matches Err(ParseError::NoStatement) <==> (generic_parse(sql@) matches Some(s) && s.len() == 0),
            r matches Err(ParseError::NotCreateTable) <==> (generic_parse(sql@) matches Some(s) && s.len() > 0
                && create_table_of(s[0]) is None),
            r is Err ==> r matches Err(ParseError::Syntax(_)) || r matches Err(ParseError::NoStatement)
                || r matches Err(ParseError::NotCreateTable),
            r matches Ok((name, cols)) ==> {
                let s = generic_parse(sql@)->0;
                let p = create_table_of(s[0])->0;
                &&& generic_parse(sql@) is Some
                &&& s.len() > 0
                &&& create_table_of(s[0]) is Some
                &&& name == p.0
                &&& cols@.len() == p.1.len()
                &&& forall|i: int| 0 <= i < cols@.len() ==> column_from(#[trigger] cols@[i], p.1[i])
            },
    {
        let stmt = match self.first_statement(sql) {
            Ok(st) => st,
            Err(e) => {
                return Err(e);
            },
        };
        match read_create_table(&stmt) {
            None => Err(ParseError::NotCreateTable),
            Some((name, columns)) => {
                let mut cols: Vec<ColumnDef> = Vec::new();
                let mut i: usize = 0;
                while i < columns.len()
                    invariant
                        i <= columns@.len(),
                        cols@.len() == i,
                        forall|k: int| 0 <= k < i ==> column_from(#[trigger] cols@[k], columns@[k]),
                    decreases columns@.len() - i,
                {
                    let kind = read_data_kind(&columns[i].1);
                    let column_type = match kind {
                        DataKind::Integer => ColumnType::Integer,
                        DataKind::Text => ColumnType::String,
                        DataKind::Boolean => ColumnType::Boolean,
                        DataKind::Timestamp => ColumnType::Timestamp,
                        DataKind::Float => ColumnType::Float,
                        DataKind::Other => ColumnType::String,
                    };
                    cols.push(ColumnDef { name: owned(columns[i].0.as_str()), column_type, nullable: !columns[i].2, default: None });
                    i += 1;
                }
                Ok((name, cols))
            },
        }
    }

    /// The first statement of a text, or why there is none.
    fn first_statement(&self, sql: &str) -> (r: Result<Statement, ParseError>)
        ensures
            r matches Err(ParseError::Syntax(_)) <==> generic_parse(sql@) is None,
            r matches Err(ParseError::NoStatement) <==> (generic_parse(sql@) matches Some(s) && s.len() == 0),
            r is Err ==> r matches Err(ParseError::Syntax(_)) || r matches Err(ParseError::NoStatement),
            r matches Ok(st) ==> (generic_parse(sql@) matches Some(s) && s.len() > 0 && st == s[0]),
    {
        let mut statements = match parse_generic(sql) {
            Ok(v) => v,
            Err(e) => {
                return Err(ParseError::Syntax(e));
            },
        };
        if statements.len() == 0 {
            return Err(ParseError::NoStatement);
        }
        Ok(statements.remove(0))
    }

    /// Parses a text and reads its first statement as an INSERT: its
    /// table, its columns, and the texts of its VALUES rows, row after row.
    pub fn parse_insert(&self, sql: &str) -> (r: Result<(String, Vec<String>, Vec<String>), ParseError>)
        ensures
            r matches Err(ParseError::Syntax(_)) <==> generic_parse(sql@) is None,
            r matches Err(ParseError::NoStatement) <==> (generic_parse(sql@) matches Some(s) && s.len() == 0),
            r matches Err(ParseError::NotInsert) <==> (generic_parse(sql@) matches Some(s) && s.len() > 0
                && insert_of(s[0]) is None),
            r is Err ==> r matches Err(ParseError::Syntax(_)) || r matches Err(ParseError::NoStatement)
                || r matches Err(ParseError::NotInsert),
            r matches Ok((t, c, v)) ==> {
                let s = generic_parse(sql@)->0;
                let p = insert_of(s[0])->0;
                &&& generic_parse(sql@) is Some
                &&& s.len() > 0
                &&& insert_of(s[0]) is Some
                &&& t == p.0
                &&& c@ == p.1
                &&& texts(v@) == flatten_texts(p.2)
            },
    {
        let stmt = match self.first_statement(sql) {
            Ok(st) => st,
            Err(e) => {
                return Err(e);
            },
        };
        match read_insert(&stmt) {
            None => Err(ParseError::NotInsert),
            Some((table, columns, rows)) => {
                let ghost rv = rows@.map_values(|v: Vec<String>| v@);
                let mut values: Vec<String> = Vec::new();
                let mut i: usize = 0;
                while i < rows.len()
                    invariant
                        i <= rows@.len(),
                        rv == rows@.map_values(|v: Vec<String>| v@),
                        texts(values@) == flatten_texts(rv.subrange(0, i as int)),
                    decreases rows@.len() - i,
                {
                    proof {
                        assert(rv.subrange(0, i + 1).drop_last() =~= rv.subrange(0, i as int));
                    }
                    let ghost start = texts(values@);
                    let mut j: usize = 0;
                    while j < rows[i].len()
                        invariant
                            i < rows@.len(),
                            j <= rows@[i as int]@.len(),
                            texts(values@) == start + texts(rows@[i as int]@.subrange(0, j as int)),
                        decreases rows@[i as int]@.len() - j,
                    {
                        let ghost before = values@;
                        values.push(owned(rows[i][j].as_str()));
                        proof {
                            assert(texts(values@) =~= texts(before).push(rows@[i as int]@[j as int]@));
                            assert(texts(rows@[i as int]@.subrange(0, j + 1)) =~= texts(rows@[i as int]@.subrange(0, j as int)).push(
                                rows@[i as int]@[j as int]@,
                            ));
                        }
                        j += 1;
                    }
                    proof {
                        assert(rows@[i as int]@.subrange(0, j as int) =~= rows@[i as int]@);
                        assert(rv.subrange(0, i + 1).last() == rows@[i as int]@);
                    }
                    i += 1;
                }
                proof {
                    assert(rv.subrange(0, i as int) =~= rv);
                }
                Ok((table, columns, values))
            },
        }
    }

    /// Parses a text and reads its first statement as an UPDATE: its table,
    /// its assignments, and the filters of its WHERE condition.
    pub fn parse_update(&self, sql: &str) -> (r: Result<(String, Vec<(String, String)>, Vec<Filter>), ParseError>)
        ensures
            r matches Err(ParseError::Syntax(_)) <==> generic_parse(sql@) is None,
            r matches Err(ParseError::NoStatement) <==> (generic_parse(sql@) matches Some(s) && s.len() == 0),
            r matches Err(ParseError::NotUpdate) <==> (generic_parse(sql@) matches Some(s) && s.len() > 0
                && update_of(s[0]) is None),
            r is Err ==> r matches Err(ParseError::Syntax(_)) || r matches Err(ParseError::NoStatement)
                || r matches Err(ParseError::NotUpdate),
            r matches Ok((t, a, f)) ==> {
                let s = generic_parse(sql@)->0;
                let p = update_of(s[0])->0;
                &&& generic_parse(sql@) is Some
                &&& s.len() > 0
                &&& update_of(s[0]) is Some
                &&& t == p.0
                &&& a@ == p.1
                &&& filter_views(f@) == match p.2 {
                    Some(e) => where_filters(condition_of(e)),
                    None => Seq::empty(),
                }
            },
    {
        let stmt = match self.first_statement(sql) {
            Ok(st) => st,
            Err(e) => {
                return Err(e);
            },
        };
        match read_update(&stmt) {
            None => Err(ParseError::NotUpdate),
            Some((table, sets, selection)) => {
                let filters = self.where_of(&selection);
                Ok((table, sets, filters))
            },
        }
    }

    /// The filters of an optional WHERE condition.
    fn where_of(&self, selection: &Option<Expr>) -> (r: Vec<Filter>)
        ensures
            filter_views(r@) == match *selection {
                Some(e) => where_filters(condition_of(e)),
                None => Seq::empty(),
            },
    {
        match selection {
            Some(e) => {
                let tree = read_condition(e);
                parse_where_expr(&tree)
            },
            None => {
                let v: Vec<Filter> = Vec::new();
                assert(filter_views(v@) =~= Seq::<(Seq<char>, FilterOp, Seq<char>)>::empty());
                v
            },
        }
    }

    /// Parses a text and reads its first statement as a DELETE: its first
    /// FROM relation's text (empty without one) and the filters of its WHERE
    /// condition.
    pub fn parse_delete(&self, sql: &str) -> (r: Result<(String, Vec<Filter>), ParseError>)
        ensures
            r matches Err(ParseError::Syntax(_)) <==> generic_parse(sql@) is None,
            r matches Err(ParseError::NoStatement) <==> (generic_parse(sql@) matches Some(s) && s.len() == 0),
            r matches Err(ParseError::NotDelete) <==> (generic_parse(sql@) matches Some(s) && s.len() > 0
                && delete_of(s[0]) is None),
            r is Err ==> r matches Err(ParseError::Syntax(_)) || r matches Err(ParseError::NoStatement)
                || r matches Err(ParseError::NotDelete),
            r matches Ok((t, f)) ==> {
                let s = generic_parse(sql@)->0;
                let p = delete_of(s[0])->0;
                &&& generic_parse(sql@) is Some
                &&& s.len() > 0
                &&& delete_of(s[0]) is Some
                &&& t@ == (if p.0.len() > 0 { p.0[0]@ } else { Seq::empty() })
                &&& filter_views(f@) == match p.1 {
                    Some(e) => where_filters(condition_of(e)),
                    None => Seq::empty(),
                }
            },
    {
        let stmt = match self.first_statement(sql) {
            Ok(st) => st,
            Err(e) => {
                return Err(e);
            },
        };
        match read_delete(&stmt) {
            None => Err(ParseError::NotDelete),
            Some((tables, selection)) => {
                let table = if tables.len() > 0 {
                    owned(tables[0].as_str())
                } else {
                    String::new()
                };
                let filters = self.where_of(&selection);
                Ok((table, filters))
            },
        }
    }
}

} // verus!
