//! Query planning: plan types, column and table statistics, and the planner
//! that keeps them and estimates joins.

use vstd::prelude::*;
use crate::collections::StrMap;
use crate::util::owned;

verus! {

/// The kinds of plan node.
#[derive(Debug, Clone, Copy, PartialEq, Eq, Structural)]
pub enum PlanType {
    FullTableScan,
    IndexScan,
    IndexSeek,
    NestedLoop,
    HashJoin,
    SortMergeJoin,
}

impl PlanType {
    /// The kind's name as EXPLAIN shows it.
    pub fn as_str(&self) -> (s: &'static str)
        ensures
            s@ == match *self {
                PlanType::FullTableScan => "FullTableScan"@,
                PlanType::IndexScan => "IndexScan"@,
                PlanType::IndexSeek => "IndexSeek"@,
                PlanType::NestedLoop => "NestedLoopJoin"@,
                PlanType::HashJoin => "HashJoin"@,
                PlanType::SortMergeJoin => "SortMergeJoin"@,
            },
    {
        match self {
            PlanType::FullTableScan => "FullTableScan",
            PlanType::IndexScan => "IndexScan",
            PlanType::IndexSeek => "IndexSeek",
            PlanType::NestedLoop => "NestedLoopJoin",
            PlanType::HashJoin => "HashJoin",
            PlanType::SortMergeJoin => "SortMergeJoin",
        }
    }
}

/// Statistics of a column.
#[derive(Debug, Clone)]
pub struct ColumnStats {
    pub column_name: String,
    pub null_count: u64,
    pub distinct_count: u64,
    pub min_value: Option<String>,
    pub max_value: Option<String>,
    pub avg_length: u64,
}

impl ColumnStats {
    /// Default statistics: no NULL, one distinct value, average length 10.
    pub fn new(name: String) -> (s: Self)
        ensures
            s.column_name == name,
            s.null_count == 0,
            s.distinct_count == 1,
            s.min_value is None,
            s.max_value is None,
            s.avg_length == 10,
    {
        ColumnStats { column_name: name, null_count: 0, distinct_count: 1, min_value: None, max_value: None, avg_length: 10 }
    }
}

/// Statistics of a table and of its columns (by column name).
#[derive(Debug)]
pub struct TableStats {
    pub table_name: String,
    pub row_count: u64,
    pub avg_row_size: u64,
    pub columns: StrMap<ColumnStats>,
}

impl TableStats {
    /// A table with no column statistics and an average row size of 100.
    pub fn new(name: String, row_count: u64) -> (s: Self)
        ensures
            s.table_name == name,
            s.row_count == row_count,
            s.avg_row_size == 100,
            s.columns@ == Map::<Seq<char>, ColumnStats>::empty(),
    {
        TableStats { table_name: name, row_count, avg_row_size: 100, columns: StrMap::new() }
    }

    /// Records a column's statistics under its name.
    pub fn add_column_stats(&mut self, stats: ColumnStats)
        ensures
            final(self).columns@ == old(self).columns@.insert(stats.column_name@, stats),
            final(self).table_name == old(self).table_name,
            final(self).row_count == old(self).row_count,
            final(self).avg_row_size == old(self).avg_row_size,
    {
        let name = stats.column_name.clone();
        let _ = self.columns.insert(name, stats);
    }
}

/// The errors of planning.
#[derive(Debug, Clone)]
pub enum PlanError {
    /// No statistics for this table.
    TableNotFound(String),
}

/// The name an indexed column is shown with.
pub open spec fn indexed_name(name: Seq<char>, is_clustered: bool) -> Seq<char> {
    name + "(indexed"@ + (if is_clustered {
        ":clustered"@
    } else {
        ""@
    }) + ")"@
}

/// What a join of two tables is estimated at.
#[derive(Debug, Clone, Copy, PartialEq, Eq, Structural)]
pub struct JoinEstimate {
    /// Hash join when the estimated bytes are below 10,000,000, else nested
    /// loop.
    pub plan_type: PlanType,
    /// Left rows times right rows times the left row size, over 100.
    pub estimate_bytes: u64,
    /// Left rows times right rows, over 100.
    pub estimated_rows: u64,
}

/// The estimate of a join from the two tables' statistics.
pub open spec fn join_estimate(left_rows: u64, right_rows: u64, left_row_size: u64) -> JoinEstimate {
    let bytes = (left_rows * right_rows * left_row_size / 100) as u64;
    JoinEstimate {
        plan_type: if bytes < 10_000_000 {
            PlanType::HashJoin
        } else {
            PlanType::NestedLoop
        },
        estimate_bytes: bytes,
        estimated_rows: (left_rows * right_rows / 100) as u64,
    }
}

/// Keeps table statistics and plans with them.
#[derive(Debug)]
pub struct QueryPlanner {
    table_stats: StrMap<TableStats>,
}

impl QueryPlanner {
    /// The statistics by table name.
    pub closed spec fn tables(&self) -> Map<Seq<char>, TableStats> {
        self.table_stats@
    }

    /// No statistics.
    pub fn new() -> (p: Self)
        ensures
            p.tables() == Map::<Seq<char>, TableStats>::empty(),
    {
        QueryPlanner { table_stats: StrMap::new() }
    }

    /// Records a table's statistics under its name.
    pub fn register_table_stats(&mut self, stats: TableStats)
        ensures
            final(self).tables() == old(self).tables().insert(stats.table_name@, stats),
    {
        let name = stats.table_name.clone();
        let _ = self.table_stats.insert(name, stats);
    }

    /// The number of tables with statistics.
    pub fn table_count(&self) -> (n: usize)
        ensures
            n == self.tables().len(),
    {
        self.table_stats.len()
    }

    /// The statistics of a table.
    pub fn get_table_stats(&self, table: &str) -> (r: Option<&TableStats>)
        ensures
            match r {
                Some(s) => self.tables().contains_key(table@) && *s == self.tables()[table@],
                None => !self.tables().contains_key(table@),
            },
    {
        self.table_stats.get(table)
    }

    /// Changes one column of a table's statistics; an error for an unknown
    /// table, nothing for an unknown column.
    fn update_column(&mut self, table: &str, column: &str, distinct: Option<u64>, is_clustered: Option<bool>) -> (r:
        Result<(), PlanError>)
        ensures
            r is Err <==> !old(self).tables().contains_key(table@),
            r matches Err(PlanError::TableNotFound(t)) ==> t@ == table@,
            r is Err ==> final(self).tables() == old(self).tables(),
            r is Ok ==> {
                let before = old(self).tables()[table@];
                let after = final(self).tables()[table@];
                &&& final(self).tables().dom() == old(self).tables().dom()
                &&& forall|t: Seq<char>| t != table@ && #[trigger] old(self).tables().contains_key(t)
                    ==> final(self).tables()[t] == old(self).tables()[t]
                &&& after.table_name == before.table_name
                &&& after.row_count == before.row_count
                &&& after.avg_row_size == before.avg_row_size
                &&& after.columns@.dom() == before.columns@.dom()
                &&& forall|c: Seq<char>| c != column@ && #[trigger] before.columns@.contains_key(c)
                    ==> after.columns@[c] == before.columns@[c]
                &&& before.columns@.contains_key(column@) ==> {
                    let b = before.columns@[column@];
                    let a = after.columns@[column@];
                    &&& a.distinct_count == match distinct {
                        Some(d) => d,
                        None => b.distinct_count,
                    }
                    &&& a.column_name@ == match is_clustered {
                        Some(cl) => indexed_name(b.column_name@, cl),
                        None => b.column_name@,
                    }
                    &&& a.null_count == b.null_count
                    &&& a.min_value == b.min_value
                    &&& a.max_value == b.max_value
                    &&& a.avg_length == b.avg_length
                }
            },
    {
        let mut stats = match self.table_stats.remove(table) {
            Some(s) => s,
            None => {
                return Err(PlanError::TableNotFound(owned(table)));
            },
        };
        let ghost before_stats = stats;
        match stats.columns.remove(column) {
            Some(mut col) => {
                match distinct {
                    Some(d) => {
                        col.distinct_count = d;
                    },
                    None => {},
                }
                match is_clustered {
                    Some(cl) => {
                        let mut name = col.column_name.clone();
                        name.append("(indexed");
                        if cl {
                            name.append(":clustered");
                        }
                        name.append(")");
                        proof {
                            reveal_strlit("(indexed");
                            reveal_strlit(":clustered");
                            reveal_strlit(")");
                            reveal_strlit("");
                            assert(name@ =~= indexed_name(col.column_name@, cl));
                        }
                        col.column_name = name;
                    },
                    None => {},
                }
                let _ = stats.columns.insert(owned(column), col);
            },
            None => {},
        }
        proof {
            assert(stats.columns@.dom() =~= before_stats.columns@.dom());
        }
        let _ = self.table_stats.insert(owned(table), stats);
        proof {
            assert(self.tables().dom() =~= old(self).tables().dom());
        }
        Ok(())
    }

    /// Marks a column of a table as indexed: its name gets `(indexed)`, or
    /// `(indexed:clustered)` for a clustered index. An error for an unknown
    /// table; nothing changes for an unknown column.
    pub fn register_index_info(&mut self, table: &str, column: &str, is_clustered: bool) -> (r: Result<
        (),
        PlanError,
    >)
        ensures
            r is Err <==> !old(self).tables().contains_key(table@),
            r matches Err(PlanError::TableNotFound(t)) ==> t@ == table@,
            r is Err ==> final(self).tables() == old(self).tables(),
            r is Ok ==> {
                let before = old(self).tables()[table@];
                let after = final(self).tables()[table@];
                &&& final(self).tables().dom() == old(self).tables().dom()
                &&& forall|t: Seq<char>| t != table@ && #[trigger] old(self).tables().contains_key(t)
                    ==> final(self).tables()[t] == old(self).tables()[t]
                &&& after.row_count == before.row_count
                &&& after.columns@.dom() == before.columns@.dom()
                &&& forall|c: Seq<char>| c != column@ && #[trigger] before.columns@.contains_key(c)
                    ==> after.columns@[c] == before.columns@[c]
                &&& before.columns@.contains_key(column@) ==> after.columns@[column@].column_name@ == indexed_name(
                    before.columns@[column@].column_name@,
                    is_clustered,
                ) && after.columns@[column@].distinct_count == before.columns@[column@].distinct_count
            },
    {
        self.update_column(table, column, None, Some(is_clustered))
    }

    /// Sets the distinct count of a column of a table (the selectivity that
    /// the caller derived it from is applied to the row count outside). An
    /// error for an unknown table; nothing changes for an unknown column.
    pub fn set_distinct_count(&mut self, table: &str, column: &str, distinct_count: u64) -> (r: Result<
        (),
        PlanError,
    >)
        ensures
            r is Err <==> !old(self).tables().contains_key(table@),
            r matches Err(PlanError::TableNotFound(t)) ==> t@ == table@,
            r is Err ==> final(self).tables() == old(self).tables(),
            r is Ok ==> {
                let before = old(self).tables()[table@];
                let after = final(self).tables()[table@];
                &&& final(self).tables().dom() == old(self).tables().dom()
                &&& forall|t: Seq<char>| t != table@ && #[trigger] old(self).tables().contains_key(t)
                    ==> final(self).tables()[t] == old(self).tables()[t]
                &&& after.row_count == before.row_count
                &&& after.columns@.dom() == before.columns@.dom()
                &&& forall|c: Seq<char>| c != column@ && #[trigger] before.columns@.contains_key(c)
                    ==> after.columns@[c] == before.columns@[c]
                &&& before.columns@.contains_key(column@) ==> after.columns@[column@].distinct_count == distinct_count
                    && after.columns@[column@].column_name@ == before.columns@[column@].column_name@
            },
    {
        self.update_column(table, column, Some(distinct_count), None)
    }

    /// The estimate of a join of two tables; an error when either has no
    /// statistics.
    pub fn estimate_join(&self, left_table: &str, right_table: &str) -> (r: Result<JoinEstimate, PlanError>)
        requires
            self.tables().contains_key(left_table@) && self.tables().contains_key(right_table@) ==> {
                &&& self.tables()[left_table@].row_count * self.tables()[right_table@].row_count <= u64::MAX
                &&& self.tables()[left_table@].row_count * self.tables()[right_table@].row_count
                    * self.tables()[left_table@].avg_row_size <= u64::MAX
            },
        ensures
            !self.tables().contains_key(left_table@) ==> (r matches Err(PlanError::TableNotFound(t)) && t@ == left_table@),
            self.tables().contains_key(left_table@) && !self.tables().contains_key(right_table@) ==> (r matches Err(
                PlanError::TableNotFound(t),
            ) && t@ == right_table@),
            self.tables().contains_key(left_table@) && self.tables().contains_key(right_table@) ==> r == Ok::<
                JoinEstimate,
                PlanError,
            >(
                join_estimate(
                    self.tables()[left_table@].row_count,
                    self.tables()[right_table@].row_count,
                    self.tables()[left_table@].avg_row_size,
                ),
            ),
    {
        let left = match self.table_stats.get(left_table) {
            Some(s) => s,
            None => {
                return Err(PlanError::TableNotFound(owned(left_table)));
            },
        };
        let right = match self.table_stats.get(right_table) {
            Some(s) => s,
            None => {
                return Err(PlanError::TableNotFound(owned(right_table)));
            },
        };
        let l = left.row_count;
        let rr = right.row_count;
        let size = left.avg_row_size;
        let rows_product: u64 = l * rr;
        let estimate_bytes = rows_product * size / 100;
        let plan_type = if estimate_bytes < 10_000_000 {
            PlanType::HashJoin
        } else {
            PlanType::NestedLoop
        };
        Ok(JoinEstimate { plan_type, estimate_bytes, estimated_rows: rows_product / 100 })
    }
}

} // verus!
