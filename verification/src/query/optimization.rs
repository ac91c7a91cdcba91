//! Query optimization: predicate kinds, histograms and their cardinality
//! estimates, and the naming rule for indexed columns.

use vstd::prelude::*;
use crate::types::{Value, ValueModel};
use crate::util::{chars_lt, str_lt, str_eq};

verus! {

/// The kinds of predicate.
#[derive(Debug, Clone, Copy, PartialEq, Eq, Structural)]
pub enum PredicateType {
    Equality,
    Range,
    Like,
    In,
    Between,
    IsNull,
}

impl PredicateType {
    /// The kind's name.
    pub fn as_str(&self) -> (s: &'static str)
        ensures
            s@ == match *self {
                PredicateType::Equality => "Equality"@,
                PredicateType::Range => "Range"@,
                PredicateType::Like => "Like"@,
                PredicateType::In => "In"@,
                PredicateType::Between => "Between"@,
                PredicateType::IsNull => "IsNull"@,
            },
    {
        match self {
            PredicateType::Equality => "Equality",
            PredicateType::Range => "Range",
            PredicateType::Like => "Like",
            PredicateType::In => "In",
            PredicateType::Between => "Between",
            PredicateType::IsNull => "IsNull",
        }
    }
}

/// A histogram bucket: bounds, rows and distinct values.
#[derive(Debug, Clone)]
pub struct HistogramBucket {
    pub lower_bound: Value,
    pub upper_bound: Value,
    pub row_count: i64,
    pub distinct_count: i64,
}

impl HistogramBucket {
    /// A bucket with the given parts.
    pub fn new(lower: Value, upper: Value, row_count: i64, distinct_count: i64) -> (b: Self)
        ensures
            b.lower_bound == lower,
            b.upper_bound == upper,
            b.row_count == row_count,
            b.distinct_count == distinct_count,
    {
        HistogramBucket { lower_bound: lower, upper_bound: upper, row_count, distinct_count }
    }
}

/// The sum of the row counts of buckets.
pub open spec fn rows_total(b: Seq<HistogramBucket>) -> int
    decreases b.len(),
{
    if b.len() == 0 {
        0
    } else {
        rows_total(b.drop_last()) + b.last().row_count
    }
}

/// Whether every partial sum of the row counts fits in an `i64`.
pub open spec fn sums_fit(b: Seq<HistogramBucket>) -> bool {
    forall|k: int| 0 <= k <= b.len() ==> i64::MIN <= #[trigger] rows_total(b.subrange(0, k)) <= i64::MAX
}

/// Whether a value falls in a bucket: both bounds and the value integers, or
/// all three strings, with lower <= value <= upper.
pub open spec fn in_bucket(b: HistogramBucket, v: ValueModel) -> bool {
    match (b.lower_bound@, b.upper_bound@, v) {
        (ValueModel::Integer(l), ValueModel::Integer(u), ValueModel::Integer(x)) => l <= x && x <= u,
        (ValueModel::Str(l), ValueModel::Str(u), ValueModel::Str(x)) => !chars_lt(x, l) && !chars_lt(u, x),
        _ => false,
    }
}

/// Division truncated toward zero by a positive divisor.
pub open spec fn trunc_div(a: int, b: int) -> int {
    if a >= 0 {
        a / b
    } else {
        -((-a) / b)
    }
}

/// The estimate for the first bucket that holds the value: its rows over
/// its distinct values (at least 1); 0 when no bucket holds it.
pub open spec fn cardinality_in(b: Seq<HistogramBucket>, v: ValueModel) -> int
    decreases b.len(),
{
    if b.len() == 0 {
        0
    } else if in_bucket(b[0], v) {
        trunc_div(b[0].row_count as int, if b[0].distinct_count > 1 { b[0].distinct_count as int } else { 1 })
    } else {
        cardinality_in(b.drop_first(), v)
    }
}

/// The buckets of a column's values.
#[derive(Debug, Clone)]
pub struct Histogram {
    pub column_name: String,
    pub buckets: Vec<HistogramBucket>,
    pub total_rows: i64,
}

impl Histogram {
    /// A histogram whose total is the sum of its buckets' rows.
    pub fn new(column_name: String, buckets: Vec<HistogramBucket>) -> (h: Self)
        requires
            sums_fit(buckets@),
        ensures
            h.column_name == column_name,
            h.buckets == buckets,
            h.total_rows == rows_total(buckets@),
    {
        let mut total_rows: i64 = 0;
        let mut i: usize = 0;
        while i < buckets.len()
            invariant
                sums_fit(buckets@),
                i <= buckets@.len(),
                total_rows == rows_total(buckets@.subrange(0, i as int)),
            decreases buckets@.len() - i,
        {
            proof {
                assert(buckets@.subrange(0, i + 1).drop_last() =~= buckets@.subrange(0, i as int));
                assert(i64::MIN <= rows_total(buckets@.subrange(0, i + 1)) <= i64::MAX);
            }
            total_rows = total_rows + buckets[i].row_count;
            i += 1;
        }
        proof {
            assert(buckets@.subrange(0, i as int) =~= buckets@);
        }
        Histogram { column_name, buckets, total_rows }
    }

    /// The estimated rows for a value: see `cardinality_in`.
    pub fn estimate_cardinality(&self, value: &Value) -> (r: i64)
        ensures
            r == cardinality_in(self.buckets@, value@),
    {
        let mut i: usize = 0;
        proof {
            assert(self.buckets@.subrange(0, self.buckets@.len() as int) =~= self.buckets@);
        }
        while i < self.buckets.len()
            invariant
                i <= self.buckets@.len(),
                cardinality_in(self.buckets@, value@) == cardinality_in(self.buckets@.subrange(i as int, self.buckets@.len() as int), value@),
            decreases self.buckets@.len() - i,
        {
            let bucket = &self.buckets[i];
            let ghost rest = self.buckets@.subrange(i as int, self.buckets@.len() as int);
            proof {
                assert(rest[0] == *bucket);
                assert(rest.drop_first() =~= self.buckets@.subrange(i + 1, self.buckets@.len() as int));
            }
            let in_range = match (&bucket.lower_bound, &bucket.upper_bound, value) {
                (Value::Integer(l), Value::Integer(u), Value::Integer(v)) => *v >= *l && *v <= *u,
                (Value::String(l), Value::String(u), Value::String(v)) => !str_lt(v.as_str(), l.as_str())
                    && !str_lt(u.as_str(), v.as_str()),
                _ => false,
            };
            if in_range {
                let d: i64 = if bucket.distinct_count > 1 { bucket.distinct_count } else { 1 };
                let rc = bucket.row_count;
                let q: i64 = rc / d;
                return q;
            }
            i += 1;
        }
        proof {
            assert(self.buckets@.subrange(i as int, self.buckets@.len() as int).len() == 0);
        }
        0
    }

    /// The number of buckets.
    pub fn get_bucket_count(&self) -> (n: usize)
        ensures
            n == self.buckets@.len(),
    {
        self.buckets.len()
    }
}

/// Whether a column is taken to be indexed by its name: `id`, or a name
/// ending in `_id`.
pub open spec fn id_column(column: Seq<char>) -> bool {
    column == "id"@ || (column.len() >= 3 && column.subrange(column.len() - 3, column.len() as int) == "_id"@)
}

/// Whether a column is taken to be indexed by its name.
pub fn is_id_column(column: &str) -> (b: bool)
    ensures
        b == id_column(column@),
{
    proof {
        reveal_strlit("_id");
    }
    if str_eq(column, "id") {
        return true;
    }
    let n = column.unicode_len();
    if n < 3 {
        return false;
    }
    let a = column.get_char(n - 3);
    let b = column.get_char(n - 2);
    let c = column.get_char(n - 1);
    let r = a == '_' && b == 'i' && c == 'd';
    proof {
        let tail = column@.subrange(n - 3, n as int);
        if r {
            assert(tail =~= "_id"@);
        } else {
            if tail == "_id"@ {
                assert(tail[0] == '_' && tail[1] == 'i' && tail[2] == 'd');
            }
        }
    }
    r
}

} // verus!
