//! Window functions: frames, window specifications, and the functions that
//! are computed over one ordered partition of rows (ROW_NUMBER, RANK,
//! DENSE_RANK, LAG, LEAD, FIRST_VALUE, LAST_VALUE).

use vstd::prelude::*;
use crate::types::{Row, Value, ValueModel, value_eq};

verus! {

/// Whether a frame counts rows or a range of values.
#[derive(Debug, Clone, Copy, PartialEq, Eq, Structural)]
pub enum FrameType {
    Rows,
    Range,
}

/// A bound of a window frame.
#[derive(Debug, Clone, Copy, PartialEq, Eq, Structural)]
pub enum FrameBound {
    UnboundedPreceding,
    Preceding(i64),
    CurrentRow,
    Following(i64),
    UnboundedFollowing,
}

/// A window frame.
#[derive(Debug, Clone, Copy, PartialEq, Eq, Structural)]
pub struct WindowFrame {
    pub frame_type: FrameType,
    pub start: FrameBound,
    pub end: FrameBound,
}

impl WindowFrame {
    /// A frame with the given type and bounds.
    pub fn new(frame_type: FrameType, start: FrameBound, end: FrameBound) -> (f: Self)
        ensures
            f == (WindowFrame { frame_type, start, end }),
    {
        WindowFrame { frame_type, start, end }
    }

    /// The default frame: RANGE from the partition's start to the current row.
    pub fn default_range() -> (f: Self)
        ensures
            f == (WindowFrame {
                frame_type: FrameType::Range,
                start: FrameBound::UnboundedPreceding,
                end: FrameBound::CurrentRow,
            }),
    {
        WindowFrame { frame_type: FrameType::Range, start: FrameBound::UnboundedPreceding, end: FrameBound::CurrentRow }
    }
}

/// The window functions.
#[derive(Debug, Clone, Copy, PartialEq, Eq, Structural)]
pub enum WindowFunctionType {
    RowNumber,
    Rank,
    DenseRank,
    Lag,
    Lead,
    FirstValue,
    LastValue,
    Count,
    Sum,
    Avg,
}

impl WindowFunctionType {
    /// The function's SQL name.
    pub fn as_str(&self) -> (s: &'static str)
        ensures
            s@ == match *self {
                WindowFunctionType::RowNumber => "ROW_NUMBER"@,
                WindowFunctionType::Rank => "RANK"@,
                WindowFunctionType::DenseRank => "DENSE_RANK"@,
                WindowFunctionType::Lag => "LAG"@,
                WindowFunctionType::Lead => "LEAD"@,
                WindowFunctionType::FirstValue => "FIRST_VALUE"@,
                WindowFunctionType::LastValue => "LAST_VALUE"@,
                WindowFunctionType::Count => "COUNT"@,
                WindowFunctionType::Sum => "SUM"@,
                WindowFunctionType::Avg => "AVG"@,
            },
    {
        match self {
            WindowFunctionType::RowNumber => "ROW_NUMBER",
            WindowFunctionType::Rank => "RANK",
            WindowFunctionType::DenseRank => "DENSE_RANK",
            WindowFunctionType::Lag => "LAG",
            WindowFunctionType::Lead => "LEAD",
            WindowFunctionType::FirstValue => "FIRST_VALUE",
            WindowFunctionType::LastValue => "LAST_VALUE",
            WindowFunctionType::Count => "COUNT",
            WindowFunctionType::Sum => "SUM",
            WindowFunctionType::Avg => "AVG",
        }
    }
}

/// PARTITION BY columns, ORDER BY columns (with `true` for ascending) and
/// the frame.
#[derive(Debug, Clone)]
pub struct WindowSpec {
    pub partition_by: Vec<String>,
    pub order_by: Vec<(String, bool)>,
    pub frame: WindowFrame,
}

impl WindowSpec {
    /// A specification with the default frame.
    pub fn new(partition_by: Vec<String>, order_by: Vec<(String, bool)>) -> (w: Self)
        ensures
            w.partition_by == partition_by,
            w.order_by == order_by,
            w.frame == (WindowFrame {
                frame_type: FrameType::Range,
                start: FrameBound::UnboundedPreceding,
                end: FrameBound::CurrentRow,
            }),
    {
        WindowSpec { partition_by, order_by, frame: WindowFrame::default_range() }
    }

    /// The specification with another frame.
    pub fn with_frame(self, frame: WindowFrame) -> (w: Self)
        ensures
            w.partition_by == self.partition_by,
            w.order_by == self.order_by,
            w.frame == frame,
    {
        WindowSpec { frame, ..self }
    }
}

/// A window function call: the function, its column, the window and an
/// offset (for LAG and LEAD).
#[derive(Debug, Clone)]
pub struct WindowFunctionContext {
    pub function: WindowFunctionType,
    pub target_column: Option<String>,
    pub window_spec: WindowSpec,
    pub offset: Option<i64>,
}

impl WindowFunctionContext {
    /// A call with no offset.
    pub fn new(function: WindowFunctionType, target_column: Option<String>, window_spec: WindowSpec) -> (c: Self)
        ensures
            c.function == function,
            c.target_column == target_column,
            c.window_spec == window_spec,
            c.offset is None,
    {
        WindowFunctionContext { function, target_column, window_spec, offset: None }
    }

    /// The call with an offset.
    pub fn with_offset(self, offset: i64) -> (c: Self)
        ensures
            c.function == self.function,
            c.target_column == self.target_column,
            c.window_spec == self.window_spec,
            c.offset == Some(offset),
    {
        WindowFunctionContext { offset: Some(offset), ..self }
    }
}

/// The value of a column of a row, if present.
pub open spec fn cell_of(row: Row, col: Seq<char>) -> Option<ValueModel> {
    if row@.contains_key(col) {
        Some(row@[col])
    } else {
        None
    }
}

/// The value of a column of a row, NULL when missing.
pub open spec fn value_or_null(row: Row, col: Seq<char>) -> ValueModel {
    if row@.contains_key(col) {
        row@[col]
    } else {
        ValueModel::Null
    }
}

/// Equality of two possibly missing values: both missing, or both present
/// and equal.
pub open spec fn cells_eq(a: Option<ValueModel>, b: Option<ValueModel>) -> bool {
    match (a, b) {
        (None, None) => true,
        (Some(x), Some(y)) => value_eq(x, y),
        _ => false,
    }
}

/// Whether row `i` has the same ORDER BY values as the row before it.
pub open spec fn ties_previous(rows: Seq<Row>, order_by: Seq<(String, bool)>, i: int) -> bool {
    forall|k: int|
        0 <= k < order_by.len() ==> cells_eq(
            cell_of(rows[i], (#[trigger] order_by[k]).0@),
            cell_of(rows[i - 1], order_by[k].0@),
        )
}

/// The RANK of row `i`: that of the previous row on a tie, else `i + 1`.
pub open spec fn rank_at(rows: Seq<Row>, order_by: Seq<(String, bool)>, i: int) -> int
    decreases i,
{
    if i <= 0 {
        1
    } else if ties_previous(rows, order_by, i) {
        rank_at(rows, order_by, i - 1)
    } else {
        i + 1
    }
}

/// The DENSE_RANK of row `i`: that of the previous row on a tie, else one
/// more.
pub open spec fn dense_rank_at(rows: Seq<Row>, order_by: Seq<(String, bool)>, i: int) -> int
    decreases i,
{
    if i <= 0 {
        1
    } else if ties_previous(rows, order_by, i) {
        dense_rank_at(rows, order_by, i - 1)
    } else {
        dense_rank_at(rows, order_by, i - 1) + 1
    }
}

proof fn lemma_rank_bounds(rows: Seq<Row>, order_by: Seq<(String, bool)>, i: int)
    requires
        i >= 0,
    ensures
        1 <= rank_at(rows, order_by, i) <= i + 1,
        1 <= dense_rank_at(rows, order_by, i) <= i + 1,
    decreases i,
{
    if i > 0 {
        lemma_rank_bounds(rows, order_by, i - 1);
    }
}


/// Ranks never decrease along a partition, and DENSE_RANK never exceeds
/// RANK, which never exceeds ROW_NUMBER.
pub proof fn lemma_rank_order(rows: Seq<Row>, order_by: Seq<(String, bool)>, i: int)
    requires
        i >= 0,
    ensures
        1 <= dense_rank_at(rows, order_by, i) <= rank_at(rows, order_by, i) <= i + 1,
        rank_at(rows, order_by, i) <= rank_at(rows, order_by, i + 1),
        dense_rank_at(rows, order_by, i) <= dense_rank_at(rows, order_by, i + 1),
    decreases i,
{
    lemma_rank_bounds(rows, order_by, i);
    if i > 0 {
        lemma_rank_order(rows, order_by, i - 1);
    }
}

/// Row `i` ties the row before it for RANK and DENSE_RANK only when the two
/// agree on every ORDER BY column: where they differ on one, RANK is the row
/// number `i + 1` and DENSE_RANK one more than the previous row's; where
/// they agree on all, both ranks are the previous row's.
pub proof fn lemma_ranks_tie_on_every_column(rows: Seq<Row>, order_by: Seq<(String, bool)>, i: int)
    requires
        0 < i,
    ensures
        (exists|k: int|
            0 <= k < order_by.len() && !cells_eq(
                cell_of(rows[i], (#[trigger] order_by[k]).0@),
                cell_of(rows[i - 1], order_by[k].0@),
            )) ==> rank_at(rows, order_by, i) == i + 1 && dense_rank_at(rows, order_by, i) == dense_rank_at(
            rows,
            order_by,
            i - 1,
        ) + 1,
        (forall|k: int|
            0 <= k < order_by.len() ==> cells_eq(
                cell_of(rows[i], (#[trigger] order_by[k]).0@),
                cell_of(rows[i - 1], order_by[k].0@),
            )) ==> rank_at(rows, order_by, i) == rank_at(rows, order_by, i - 1) && dense_rank_at(
            rows,
            order_by,
            i,
        ) == dense_rank_at(rows, order_by, i - 1),
{
}

/// Whether two possibly missing values are equal.
fn cells_equal(a: Option<&Value>, b: Option<&Value>) -> (r: bool)
    ensures
        r == cells_eq(
            match a {
                Some(v) => Some(v@),
                None => None,
            },
            match b {
                Some(v) => Some(v@),
                None => None,
            },
        ),
{
    match (a, b) {
        (None, None) => true,
        (Some(x), Some(y)) => x.equals(y),
        _ => false,
    }
}

/// Whether row `i` ties the row before it on the ORDER BY columns.
fn same_as_previous(rows: &[Row], order_by: &[(String, bool)], i: usize) -> (r: bool)
    requires
        0 < i < rows@.len(),
    ensures
        r == ties_previous(rows@, order_by@, i as int),
        r <==> forall|k: int|
            0 <= k < order_by@.len() ==> cells_eq(
                cell_of(rows@[i as int], (#[trigger] order_by@[k]).0@),
                cell_of(rows@[i - 1], order_by@[k].0@),
            ),
{
    let mut k: usize = 0;
    while k < order_by.len()
        invariant
            0 < i < rows@.len(),
            k <= order_by@.len(),
            forall|j: int|
                0 <= j < k ==> cells_eq(
                    cell_of(rows@[i as int], (#[trigger] order_by@[j]).0@),
                    cell_of(rows@[i - 1], order_by@[j].0@),
                ),
        decreases order_by@.len() - k,
    {
        let col = order_by[k].0.as_str();
        if !cells_equal(rows[i].get(col), rows[i - 1].get(col)) {
            return false;
        }
        k += 1;
    }
    true
}

/// ROW_NUMBER over a partition: 1, 2, 3, ...
pub fn apply_row_number(partition_rows: &[Row]) -> (r: Vec<Value>)
    requires
        partition_rows@.len() < i64::MAX,
    ensures
        r@.len() == partition_rows@.len(),
        forall|i: int| 0 <= i < r@.len() ==> (#[trigger] r@[i])@ == ValueModel::Integer((i + 1) as i64),
{
    let mut r: Vec<Value> = Vec::new();
    let mut i: usize = 0;
    while i < partition_rows.len()
        invariant
            partition_rows@.len() < i64::MAX,
            i <= partition_rows@.len(),
            r@.len() == i,
            forall|j: int| 0 <= j < i ==> (#[trigger] r@[j])@ == ValueModel::Integer((j + 1) as i64),
        decreases partition_rows@.len() - i,
    {
        r.push(Value::Integer((i + 1) as i64));
        i += 1;
    }
    r
}

/// RANK over an ordered partition; a partition without rows gives `[1]`.
pub fn apply_rank(partition_rows: &[Row], order_by: &[(String, bool)]) -> (r: Vec<Value>)
    requires
        partition_rows@.len() < i64::MAX,
    ensures
        partition_rows@.len() == 0 ==> r@.len() == 1 && r@[0]@ == ValueModel::Integer(1),
        partition_rows@.len() > 0 ==> r@.len() == partition_rows@.len() && forall|i: int|
            0 <= i < r@.len() ==> (#[trigger] r@[i])@ == ValueModel::Integer(
                rank_at(partition_rows@, order_by@, i) as i64,
            ),
{
    let mut ranks: Vec<Value> = Vec::new();
    ranks.push(Value::Integer(1));
    let mut current_rank: i64 = 1;
    let mut i: usize = 1;
    while i < partition_rows.len()
        invariant
            partition_rows@.len() < i64::MAX,
            1 <= i,
            partition_rows@.len() > 0 ==> i <= partition_rows@.len(),
            partition_rows@.len() == 0 ==> i == 1,
            ranks@.len() == i,
            current_rank == rank_at(partition_rows@, order_by@, i - 1),
            ranks@[0]@ == ValueModel::Integer(1),
            forall|j: int| 0 <= j < i ==> (#[trigger] ranks@[j])@ == ValueModel::Integer(
                rank_at(partition_rows@, order_by@, j) as i64,
            ),
        decreases partition_rows@.len() - i,
    {
        proof {
            lemma_rank_bounds(partition_rows@, order_by@, i as int);
        }
        if !same_as_previous(partition_rows, order_by, i) {
            current_rank = (i + 1) as i64;
        }
        ranks.push(Value::Integer(current_rank));
        i += 1;
    }
    ranks
}

/// DENSE_RANK over an ordered partition; a partition without rows gives
/// `[1]`.
pub fn apply_dense_rank(partition_rows: &[Row], order_by: &[(String, bool)]) -> (r: Vec<Value>)
    requires
        partition_rows@.len() < i64::MAX,
    ensures
        partition_rows@.len() == 0 ==> r@.len() == 1 && r@[0]@ == ValueModel::Integer(1),
        partition_rows@.len() > 0 ==> r@.len() == partition_rows@.len() && forall|i: int|
            0 <= i < r@.len() ==> (#[trigger] r@[i])@ == ValueModel::Integer(
                dense_rank_at(partition_rows@, order_by@, i) as i64,
            ),
{
    let mut ranks: Vec<Value> = Vec::new();
    ranks.push(Value::Integer(1));
    let mut current_rank: i64 = 1;
    let mut i: usize = 1;
    while i < partition_rows.len()
        invariant
            partition_rows@.len() < i64::MAX,
            1 <= i,
            partition_rows@.len() > 0 ==> i <= partition_rows@.len(),
            partition_rows@.len() == 0 ==> i == 1,
            ranks@.len() == i,
            current_rank == dense_rank_at(partition_rows@, order_by@, i - 1),
            ranks@[0]@ == ValueModel::Integer(1),
            forall|j: int| 0 <= j < i ==> (#[trigger] ranks@[j])@ == ValueModel::Integer(
                dense_rank_at(partition_rows@, order_by@, j) as i64,
            ),
        decreases partition_rows@.len() - i,
    {
        proof {
            lemma_rank_bounds(partition_rows@, order_by@, i as int);
            lemma_rank_bounds(partition_rows@, order_by@, i - 1);
        }
        if !same_as_previous(partition_rows, order_by, i) {
            current_rank += 1;
        }
        ranks.push(Value::Integer(current_rank));
        i += 1;
    }
    ranks
}

/// The value of a column, NULL when missing.
fn column_or_null(row: &Row, col: &str) -> (v: Value)
    ensures
        v@ == value_or_null(*row, col@),
{
    match row.get(col) {
        Some(v) => v.duplicate(),
        None => Value::Null,
    }
}

/// LAG: for row `i`, the column of row `i - offset`, NULL before the
/// partition's start. The offset is taken as an unsigned number (a negative
/// one wraps around and gives NULL everywhere).
pub fn apply_lag(partition_rows: &[Row], col: &str, offset: i64) -> (r: Vec<Value>)
    ensures
        r@.len() == partition_rows@.len(),
        forall|i: int|
            0 <= i < r@.len() ==> (#[trigger] r@[i])@ == if i < (offset as usize) {
                ValueModel::Null
            } else {
                value_or_null(partition_rows@[i - (offset as usize)], col@)
            },
{
    let offset = offset as usize;
    let mut results: Vec<Value> = Vec::new();
    let mut i: usize = 0;
    while i < partition_rows.len()
        invariant
            i <= partition_rows@.len(),
            results@.len() == i,
            forall|j: int|
                0 <= j < i ==> (#[trigger] results@[j])@ == if j < offset {
                    ValueModel::Null
                } else {
                    value_or_null(partition_rows@[j - offset], col@)
                },
        decreases partition_rows@.len() - i,
    {
        if i < offset {
            results.push(Value::Null);
        } else {
            results.push(column_or_null(&partition_rows[i - offset], col));
        }
        i += 1;
    }
    results
}

/// LEAD: for row `i`, the column of row `i + offset`, NULL past the
/// partition's end. The offset is taken as an unsigned number.
pub fn apply_lead(partition_rows: &[Row], col: &str, offset: i64) -> (r: Vec<Value>)
    requires
        partition_rows@.len() == 0 || partition_rows@.len() - 1 + (offset as usize) <= usize::MAX,
    ensures
        r@.len() == partition_rows@.len(),
        forall|i: int|
            0 <= i < r@.len() ==> (#[trigger] r@[i])@ == if i + (offset as usize) >= partition_rows@.len() {
                ValueModel::Null
            } else {
                value_or_null(partition_rows@[i + (offset as usize)], col@)
            },
{
    let offset = offset as usize;
    let mut results: Vec<Value> = Vec::new();
    let mut i: usize = 0;
    while i < partition_rows.len()
        invariant
            partition_rows@.len() == 0 || partition_rows@.len() - 1 + offset <= usize::MAX,
            i <= partition_rows@.len(),
            results@.len() == i,
            forall|j: int|
                0 <= j < i ==> (#[trigger] results@[j])@ == if j + offset >= partition_rows@.len() {
                    ValueModel::Null
                } else {
                    value_or_null(partition_rows@[j + offset], col@)
                },
        decreases partition_rows@.len() - i,
    {
        if i + offset >= partition_rows.len() {
            results.push(Value::Null);
        } else {
            results.push(column_or_null(&partition_rows[i + offset], col));
        }
        i += 1;
    }
    results
}

/// `n` copies of a value.
fn repeat_value(v: &Value, n: usize) -> (r: Vec<Value>)
    ensures
        r@.len() == n,
        forall|i: int| 0 <= i < n ==> (#[trigger] r@[i])@ == v@,
{
    let mut r: Vec<Value> = Vec::new();
    let mut i: usize = 0;
    while i < n
        invariant
            i <= n,
            r@.len() == i,
            forall|j: int| 0 <= j < i ==> (#[trigger] r@[j])@ == v@,
        decreases n - i,
    {
        r.push(v.duplicate());
        i += 1;
    }
    r
}

/// FIRST_VALUE: the column of the partition's first row (NULL when missing),
/// for every row.
pub fn apply_first_value(partition_rows: &[Row], col: &str) -> (r: Vec<Value>)
    ensures
        r@.len() == partition_rows@.len(),
        forall|i: int| 0 <= i < r@.len() ==> (#[trigger] r@[i])@ == value_or_null(partition_rows@[0], col@),
{
    if partition_rows.len() == 0 {
        return Vec::new();
    }
    let first = column_or_null(&partition_rows[0], col);
    repeat_value(&first, partition_rows.len())
}

/// LAST_VALUE: the column of the partition's last row (NULL when missing),
/// for every row.
pub fn apply_last_value(partition_rows: &[Row], col: &str) -> (r: Vec<Value>)
    ensures
        r@.len() == partition_rows@.len(),
        forall|i: int|
            0 <= i < r@.len() ==> (#[trigger] r@[i])@ == value_or_null(partition_rows@.last(), col@),
{
    if partition_rows.len() == 0 {
        return Vec::new();
    }
    let last = column_or_null(&partition_rows[partition_rows.len() - 1], col);
    repeat_value(&last, partition_rows.len())
}

/// Why a window function cannot be computed.
#[derive(Debug, Clone, PartialEq, Eq)]
pub enum WindowError {
    /// LAG, LEAD, FIRST_VALUE and LAST_VALUE read a target column.
    MissingTarget(WindowFunctionType),
}

/// The views of some values.
pub open spec fn value_views(v: Seq<Value>) -> Seq<ValueModel> {
    v.map_values(|x: Value| x@)
}

/// The row numbers of a partition.
pub open spec fn row_numbers(n: nat) -> Seq<ValueModel> {
    Seq::new(n, |i: int| ValueModel::Integer((i + 1) as i64))
}

/// The ranks of an ordered partition (`[1]` for a partition without rows).
pub open spec fn rank_values(rows: Seq<Row>, order_by: Seq<(String, bool)>) -> Seq<ValueModel> {
    if rows.len() == 0 {
        seq![ValueModel::Integer(1)]
    } else {
        Seq::new(rows.len(), |i: int| ValueModel::Integer(rank_at(rows, order_by, i) as i64))
    }
}

/// The dense ranks of an ordered partition (`[1]` for a partition without
/// rows).
pub open spec fn dense_rank_values(rows: Seq<Row>, order_by: Seq<(String, bool)>) -> Seq<ValueModel> {
    if rows.len() == 0 {
        seq![ValueModel::Integer(1)]
    } else {
        Seq::new(rows.len(), |i: int| ValueModel::Integer(dense_rank_at(rows, order_by, i) as i64))
    }
}

/// LAG: each row's value `offset` rows before it, NULL before the start.
pub open spec fn lag_values(rows: Seq<Row>, col: Seq<char>, offset: usize) -> Seq<ValueModel> {
    Seq::new(rows.len(), |i: int| if i < offset { ValueModel::Null } else { value_or_null(rows[i - offset], col) })
}

/// LEAD: each row's value `offset` rows after it, NULL past the end.
pub open spec fn lead_values(rows: Seq<Row>, col: Seq<char>, offset: usize) -> Seq<ValueModel> {
    Seq::new(
        rows.len(),
        |i: int| if i + offset >= rows.len() { ValueModel::Null } else { value_or_null(rows[i + offset], col) },
    )
}

/// The same value for every row.
pub open spec fn repeated(n: nat, v: ValueModel) -> Seq<ValueModel> {
    Seq::new(n, |i: int| v)
}

/// What a window function gives over one ordered partition: ROW_NUMBER,
/// RANK and DENSE_RANK their numbers; LAG and LEAD (offset 1 unless given),
/// FIRST_VALUE and LAST_VALUE read the target column, and fail without one;
/// the aggregates give nothing.
pub open spec fn partition_result(rows: Seq<Row>, ctx: WindowFunctionContext) -> Result<Seq<ValueModel>, WindowError> {
    let offset: usize = (match ctx.offset {
        Some(o) => o,
        None => 1i64,
    }) as usize;
    match ctx.function {
        WindowFunctionType::RowNumber => Ok(row_numbers(rows.len())),
        WindowFunctionType::Rank => Ok(rank_values(rows, ctx.window_spec.order_by@)),
        WindowFunctionType::DenseRank => Ok(dense_rank_values(rows, ctx.window_spec.order_by@)),
        WindowFunctionType::Lag => match ctx.target_column {
            Some(c) => Ok(lag_values(rows, c@, offset)),
            None => Err(WindowError::MissingTarget(WindowFunctionType::Lag)),
        },
        WindowFunctionType::Lead => match ctx.target_column {
            Some(c) => Ok(lead_values(rows, c@, offset)),
            None => Err(WindowError::MissingTarget(WindowFunctionType::Lead)),
        },
        WindowFunctionType::FirstValue => match ctx.target_column {
            Some(c) => Ok(if rows.len() == 0 { Seq::empty() } else { repeated(rows.len(), value_or_null(rows[0], c@)) }),
            None => Err(WindowError::MissingTarget(WindowFunctionType::FirstValue)),
        },
        WindowFunctionType::LastValue => match ctx.target_column {
            Some(c) => Ok(if rows.len() == 0 { Seq::empty() } else { repeated(rows.len(), value_or_null(rows.last(), c@)) }),
            None => Err(WindowError::MissingTarget(WindowFunctionType::LastValue)),
        },
        _ => Ok(Seq::empty()),
    }
}

/// What a window function gives over ordered partitions: the partitions'
/// values one after another, or the first partition's error.
pub open spec fn windows_result(parts: Seq<Vec<Row>>, ctx: WindowFunctionContext) -> Result<Seq<ValueModel>, WindowError>
    decreases parts.len(),
{
    if parts.len() == 0 {
        Ok(Seq::empty())
    } else {
        match windows_result(parts.drop_last(), ctx) {
            Err(e) => Err(e),
            Ok(before) => match partition_result(parts.last()@, ctx) {
                Err(e) => Err(e),
                Ok(vals) => Ok(before + vals),
            },
        }
    }
}

/// The partitions on which the functions run without overflow: fewer than
/// `i64::MAX` rows each, and for LEAD with a target column a last row index
/// plus the offset that fits in `usize`.
pub open spec fn partitions_fit(parts: Seq<Vec<Row>>, ctx: WindowFunctionContext) -> bool {
    forall|k: int| 0 <= k < parts.len() ==> {
        &&& (#[trigger] parts[k])@.len() < i64::MAX
        &&& ctx.function == WindowFunctionType::Lead && ctx.target_column is Some ==> parts[k]@.len() == 0 || parts[k]@.len() - 1 + ((match ctx.offset {
            Some(o) => o,
            None => 1i64,
        }) as usize) <= usize::MAX
    }
}

/// The values of one ordered partition (see `partition_result`).
fn partition_values(rows: &[Row], ctx: &WindowFunctionContext) -> (r: Result<Vec<Value>, WindowError>)
    requires
        rows@.len() < i64::MAX,
        ctx.function == WindowFunctionType::Lead && ctx.target_column is Some ==> rows@.len() == 0 || rows@.len() - 1 + ((match ctx.offset {
            Some(o) => o,
            None => 1i64,
        }) as usize) <= usize::MAX,
    ensures
        match r {
            Ok(v) => partition_result(rows@, *ctx) == Ok::<Seq<ValueModel>, WindowError>(value_views(v@)),
            Err(e) => partition_result(rows@, *ctx) == Err::<Seq<ValueModel>, WindowError>(e),
        },
{
    let offset: i64 = match ctx.offset {
        Some(o) => o,
        None => 1,
    };
    let order_by = ctx.window_spec.order_by.as_slice();
    match ctx.function {
        WindowFunctionType::RowNumber => {
            let v = apply_row_number(rows);
            assert(value_views(v@) =~= row_numbers(rows@.len()));
            Ok(v)
        },
        WindowFunctionType::Rank => {
            let v = apply_rank(rows, order_by);
            assert(value_views(v@) =~= rank_values(rows@, ctx.window_spec.order_by@));
            Ok(v)
        },
        WindowFunctionType::DenseRank => {
            let v = apply_dense_rank(rows, order_by);
            assert(value_views(v@) =~= dense_rank_values(rows@, ctx.window_spec.order_by@));
            Ok(v)
        },
        WindowFunctionType::Lag => match &ctx.target_column {
            Some(c) => {
                let v = apply_lag(rows, c.as_str(), offset);
                assert(value_views(v@) =~= lag_values(rows@, c@, offset as usize));
                Ok(v)
            },
            None => Err(WindowError::MissingTarget(WindowFunctionType::Lag)),
        },
        WindowFunctionType::Lead => match &ctx.target_column {
            Some(c) => {
                let v = apply_lead(rows, c.as_str(), offset);
                assert(value_views(v@) =~= lead_values(rows@, c@, offset as usize));
                Ok(v)
            },
            None => Err(WindowError::MissingTarget(WindowFunctionType::Lead)),
        },
        WindowFunctionType::FirstValue => match &ctx.target_column {
            Some(c) => {
                let v = apply_first_value(rows, c.as_str());
                proof {
                    if rows@.len() == 0 {
                        assert(value_views(v@) =~= Seq::<ValueModel>::empty());
                    } else {
                        assert(value_views(v@) =~= repeated(rows@.len(), value_or_null(rows@[0], c@)));
                    }
                }
                Ok(v)
            },
            None => Err(WindowError::MissingTarget(WindowFunctionType::FirstValue)),
        },
        WindowFunctionType::LastValue => match &ctx.target_column {
            Some(c) => {
                let v = apply_last_value(rows, c.as_str());
                proof {
                    if rows@.len() == 0 {
                        assert(value_views(v@) =~= Seq::<ValueModel>::empty());
                    } else {
                        assert(value_views(v@) =~= repeated(rows@.len(), value_or_null(rows@.last(), c@)));
                    }
                }
                Ok(v)
            },
            None => Err(WindowError::MissingTarget(WindowFunctionType::LastValue)),
        },
        _ => {
            let v: Vec<Value> = Vec::new();
            assert(value_views(v@) =~= Seq::<ValueModel>::empty());
            Ok(v)
        },
    }
}

/// Runs a window function over partitions whose rows are already ordered,
/// one partition after another (see `windows_result`).
pub fn process_partitions(partitions: &[Vec<Row>], ctx: &WindowFunctionContext) -> (r: Result<Vec<Value>, WindowError>)
    requires
        partitions_fit(partitions@, *ctx),
    ensures
        match r {
            Ok(v) => windows_result(partitions@, *ctx) == Ok::<Seq<ValueModel>, WindowError>(value_views(v@)),
            Err(e) => windows_result(partitions@, *ctx) == Err::<Seq<ValueModel>, WindowError>(e),
        },
{
    let mut result: Vec<Value> = Vec::new();
    let mut k: usize = 0;
    proof {
        assert(partitions@.subrange(0, 0) =~= Seq::<Vec<Row>>::empty());
        assert(value_views(result@) =~= Seq::<ValueModel>::empty());
    }
    while k < partitions.len()
        invariant
            k <= partitions@.len(),
            partitions_fit(partitions@, *ctx),
            windows_result(partitions@.subrange(0, k as int), *ctx) == Ok::<Seq<ValueModel>, WindowError>(
                value_views(result@),
            ),
        decreases partitions@.len() - k,
    {
        proof {
            assert(partitions@.subrange(0, k + 1).drop_last() =~= partitions@.subrange(0, k as int));
            assert(partitions@.subrange(0, k + 1).last() == partitions@[k as int]);
        }
        let part = &partitions[k];
        let vals = match partition_values(part.as_slice(), ctx) {
            Ok(v) => v,
            Err(e) => {
                proof {
                    lemma_windows_error_stays(partitions@, k as int + 1, *ctx);
                }
                return Err(e);
            },
        };
        let ghost before = result@;
        let mut j: usize = 0;
        while j < vals.len()
            invariant
                j <= vals@.len(),
                value_views(result@) == value_views(before) + value_views(vals@).subrange(0, j as int),
            decreases vals@.len() - j,
        {
            let ghost prev = result@;
            result.push(vals[j].duplicate());
            proof {
                assert(value_views(result@) =~= value_views(prev).push(vals@[j as int]@));
                assert(value_views(result@) =~= value_views(before) + value_views(vals@).subrange(0, j + 1));
            }
            j += 1;
        }
        proof {
            assert(value_views(vals@).subrange(0, j as int) =~= value_views(vals@));
        }
        k += 1;
    }
    proof {
        assert(partitions@.subrange(0, k as int) =~= partitions@);
    }
    Ok(result)
}

/// An error among the first partitions is the error of all of them.
proof fn lemma_windows_error_stays(parts: Seq<Vec<Row>>, k: int, ctx: WindowFunctionContext)
    requires
        0 <= k <= parts.len(),
        windows_result(parts.subrange(0, k), ctx) is Err,
    ensures
        windows_result(parts, ctx) == windows_result(parts.subrange(0, k), ctx),
    decreases parts.len() - k,
{
    if k < parts.len() {
        assert(parts.subrange(0, k + 1).drop_last() =~= parts.subrange(0, k));
        lemma_windows_error_stays(parts, k + 1, ctx);
    } else {
        assert(parts.subrange(0, k) =~= parts);
    }
}

} // verus!
