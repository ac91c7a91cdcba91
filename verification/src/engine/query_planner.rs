//! The operations of an execution plan.

use vstd::prelude::*;

verus! {

/// The operations that a plan node performs.
#[derive(Debug, Clone, Copy, PartialEq, Eq, Structural)]
pub enum OperationType {
    /// A sequential scan.
    SeqScan,
    /// An index-based scan.
    IndexScan,
    /// An index seek.
    IndexSeek,
    /// A bitmap index scan.
    BitmapScan,
    HashJoin,
    NestedLoopJoin,
    /// A merge join of sorted inputs.
    MergeJoin,
    /// GROUP BY with aggregation.
    GroupAggregate,
    Sort,
    Limit,
    /// A WHERE filter.
    Filter,
    /// The selection of columns.
    Projection,
    Union,
    Append,
}

impl OperationType {
    /// The name an EXPLAIN shows for the operation.
    pub fn explain_name(&self) -> (s: &'static str)
        ensures
            s@ == match *self {
                OperationType::SeqScan => "Seq Scan"@,
                OperationType::IndexScan => "Index Scan"@,
                OperationType::IndexSeek => "Index Seek"@,
                OperationType::BitmapScan => "Bitmap Scan"@,
                OperationType::HashJoin => "Hash Join"@,
                OperationType::NestedLoopJoin => "Nested Loop"@,
                OperationType::MergeJoin => "Merge Join"@,
                OperationType::GroupAggregate => "Group Aggregate"@,
                OperationType::Sort => "Sort"@,
                OperationType::Limit => "Limit"@,
                OperationType::Filter => "Filter"@,
                OperationType::Projection => "Projection"@,
                OperationType::Union => "Union"@,
                OperationType::Append => "Append"@,
            },
    {
        match self {
            OperationType::SeqScan => "Seq Scan",
            OperationType::IndexScan => "Index Scan",
            OperationType::IndexSeek => "Index Seek",
            OperationType::BitmapScan => "Bitmap Scan",
            OperationType::HashJoin => "Hash Join",
            OperationType::NestedLoopJoin => "Nested Loop",
            OperationType::MergeJoin => "Merge Join",
            OperationType::GroupAggregate => "Group Aggregate",
            OperationType::Sort => "Sort",
            OperationType::Limit => "Limit",
            OperationType::Filter => "Filter",
            OperationType::Projection => "Projection",
            OperationType::Union => "Union",
            OperationType::Append => "Append",
        }
    }
}

} // verus!
