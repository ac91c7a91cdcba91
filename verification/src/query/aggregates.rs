//! Aggregate functions: their names, the accumulator of one aggregate, and
//! the grouping of rows by key columns with an accumulator per aggregate.
//!
//! Sums and averages over floating-point values are computed where
//! floating-point numbers are handled; the library computes counts, minima,
//! maxima and sums over integers.

use vstd::prelude::*;
use crate::collections::StrMap;
use crate::types::{Row, Value, ValueModel, value_eq, float_lt64, float_bits_lt64};
use crate::util::{chars_lt, str_lt, str_eq, owned, to_uppercase, uppercase, lemma_chars_lt_irreflexive,
    lemma_chars_lt_transitive};
use crate::storage::caching::str_views;

verus! {

/// The aggregate functions.
#[derive(Debug, Clone, Copy, PartialEq, Eq, Structural, Hash)]
pub enum AggregateFunction {
    Count,
    Sum,
    Avg,
    Min,
    Max,
}

/// The function named by an upper-case name.
pub open spec fn function_named(upper: Seq<char>) -> Option<AggregateFunction> {
    if upper == "COUNT"@ {
        Some(AggregateFunction::Count)
    } else if upper == "SUM"@ {
        Some(AggregateFunction::Sum)
    } else if upper == "AVG"@ {
        Some(AggregateFunction::Avg)
    } else if upper == "MIN"@ {
        Some(AggregateFunction::Min)
    } else if upper == "MAX"@ {
        Some(AggregateFunction::Max)
    } else {
        None
    }
}

impl AggregateFunction {
    /// The function named `s`, in any letter case.
    pub fn from_str(s: &str) -> (r: Option<Self>)
        ensures
            r == function_named(uppercase(s@)),
    {
        let u = to_uppercase(s);
        let t = u.as_str();
        if str_eq(t, "COUNT") {
            Some(AggregateFunction::Count)
        } else if str_eq(t, "SUM") {
            Some(AggregateFunction::Sum)
        } else if str_eq(t, "AVG") {
            Some(AggregateFunction::Avg)
        } else if str_eq(t, "MIN") {
            Some(AggregateFunction::Min)
        } else if str_eq(t, "MAX") {
            Some(AggregateFunction::Max)
        } else {
            None
        }
    }
}

/// Whether `b` is below `a` for MIN: integers, floats (IEEE-754) and
/// strings compare within their kind; other pairs do not.
pub open spec fn below(b: ValueModel, a: ValueModel) -> bool {
    match (a, b) {
        (ValueModel::Integer(x), ValueModel::Integer(y)) => y < x,
        (ValueModel::Float(x), ValueModel::Float(y)) => float_lt64(y, x),
        (ValueModel::Str(x), ValueModel::Str(y)) => chars_lt(y, x),
        _ => false,
    }
}

/// The position of the minimum among the first `n` values: a later value
/// replaces the current minimum only when it is below it.
pub open spec fn min_position(v: Seq<ValueModel>, n: int) -> int
    decreases n,
{
    if n <= 1 {
        0
    } else if below(v[n - 1], v[min_position(v, n - 1)]) {
        n - 1
    } else {
        min_position(v, n - 1)
    }
}

/// The position of the maximum among the first `n` values: a later value
/// replaces the current maximum only when the maximum is below it.
pub open spec fn max_position(v: Seq<ValueModel>, n: int) -> int
    decreases n,
{
    if n <= 1 {
        0
    } else if below(v[max_position(v, n - 1)], v[n - 1]) {
        n - 1
    } else {
        max_position(v, n - 1)
    }
}

proof fn lemma_positions_in_range(v: Seq<ValueModel>, n: int)
    requires
        n >= 1,
    ensures
        0 <= min_position(v, n) < n,
        0 <= max_position(v, n) < n,
    decreases n,
{
    if n > 1 {
        lemma_positions_in_range(v, n - 1);
    }
}

/// Whether `m` is a least value of `v`: no integer of `v` is smaller than an
/// integer `m`, no float of `v` is below a float `m` (IEEE-754 `<`), and no
/// text of `v` comes before a text `m`.
pub open spec fn is_least(m: ValueModel, v: Seq<ValueModel>) -> bool {
    forall|j: int|
        0 <= j < v.len() ==> match (#[trigger] v[j], m) {
            (ValueModel::Integer(x), ValueModel::Integer(y)) => y <= x,
            (ValueModel::Float(x), ValueModel::Float(y)) => !float_lt64(x, y),
            (ValueModel::Str(x), ValueModel::Str(y)) => !chars_lt(x, y),
            _ => true,
        }
}

/// Whether `m` is a greatest value of `v`: no integer of `v` is larger than
/// an integer `m`, no float of `v` is above a float `m`, and no text of `v`
/// comes after a text `m`.
pub open spec fn is_greatest(m: ValueModel, v: Seq<ValueModel>) -> bool {
    forall|j: int|
        0 <= j < v.len() ==> match (#[trigger] v[j], m) {
            (ValueModel::Integer(x), ValueModel::Integer(y)) => x <= y,
            (ValueModel::Float(x), ValueModel::Float(y)) => !float_lt64(y, x),
            (ValueModel::Str(x), ValueModel::Str(y)) => !chars_lt(y, x),
            _ => true,
        }
}

/// IEEE-754 `<` is transitive.
proof fn lemma_float_lt_transitive(a: u64, b: u64, c: u64)
    requires
        float_lt64(a, b),
        float_lt64(b, c),
    ensures
        float_lt64(a, c),
{
}

/// No value is below itself.
proof fn lemma_below_irreflexive(a: ValueModel)
    ensures
        !below(a, a),
{
    if let ValueModel::Str(x) = a {
        lemma_chars_lt_irreflexive(x);
    }
}

/// Being below is transitive.
proof fn lemma_below_transitive(a: ValueModel, b: ValueModel, c: ValueModel)
    requires
        below(a, b),
        below(b, c),
    ensures
        below(a, c),
{
    match (a, b, c) {
        (ValueModel::Float(x), ValueModel::Float(y), ValueModel::Float(z)) => lemma_float_lt_transitive(x, y, z),
        (ValueModel::Str(x), ValueModel::Str(y), ValueModel::Str(z)) => lemma_chars_lt_transitive(x, y, z),
        _ => {},
    }
}

/// Among the first `n` values none is below the one at `min_position`, and
/// the one at `max_position` is below none of them.
proof fn lemma_positions_extreme(v: Seq<ValueModel>, n: int)
    requires
        1 <= n <= v.len(),
    ensures
        forall|j: int| 0 <= j < n ==> !below(#[trigger] v[j], v[min_position(v, n)]),
        forall|j: int| 0 <= j < n ==> !below(v[max_position(v, n)], #[trigger] v[j]),
    decreases n,
{
    lemma_positions_in_range(v, n);
    if n == 1 {
        lemma_below_irreflexive(v[0]);
    } else {
        lemma_positions_extreme(v, n - 1);
        lemma_positions_in_range(v, n - 1);
        let w = v[n - 1];
        let m = v[min_position(v, n - 1)];
        let x = v[max_position(v, n - 1)];
        lemma_below_irreflexive(w);
        assert forall|j: int| 0 <= j < n implies !below(#[trigger] v[j], v[min_position(v, n)]) by {
            if below(w, m) && j < n - 1 && below(v[j], w) {
                lemma_below_transitive(v[j], w, m);
            }
        }
        assert forall|j: int| 0 <= j < n implies !below(v[max_position(v, n)], #[trigger] v[j]) by {
            if below(x, w) && j < n - 1 && below(w, v[j]) {
                lemma_below_transitive(x, w, v[j]);
            }
        }
    }
}

/// The value that MIN picks is a least value of all values, and the value
/// that MAX picks a greatest one.
pub proof fn lemma_min_max_extreme(v: Seq<ValueModel>)
    requires
        v.len() >= 1,
    ensures
        0 <= min_position(v, v.len() as int) < v.len(),
        0 <= max_position(v, v.len() as int) < v.len(),
        is_least(v[min_position(v, v.len() as int)], v),
        is_greatest(v[max_position(v, v.len() as int)], v),
{
    lemma_positions_extreme(v, v.len() as int);
    lemma_positions_in_range(v, v.len() as int);
    let m = v[min_position(v, v.len() as int)];
    let x = v[max_position(v, v.len() as int)];
    assert forall|j: int| 0 <= j < v.len() implies match (#[trigger] v[j], m) {
        (ValueModel::Integer(a), ValueModel::Integer(b)) => b <= a,
        (ValueModel::Float(a), ValueModel::Float(b)) => !float_lt64(a, b),
        (ValueModel::Str(a), ValueModel::Str(b)) => !chars_lt(a, b),
        _ => true,
    } by {
        assert(!below(v[j], m));
    }
    assert forall|j: int| 0 <= j < v.len() implies match (#[trigger] v[j], x) {
        (ValueModel::Integer(a), ValueModel::Integer(b)) => a <= b,
        (ValueModel::Float(a), ValueModel::Float(b)) => !float_lt64(b, a),
        (ValueModel::Str(a), ValueModel::Str(b)) => !chars_lt(b, a),
        _ => true,
    } by {
        assert(!below(x, v[j]));
    }
}

/// Whether some value is a float.
pub open spec fn has_float(v: Seq<ValueModel>) -> bool {
    exists|i: int| 0 <= i < v.len() && (#[trigger] v[i]) is Float
}

/// The sum of the integers among the values (other values count 0).
pub open spec fn integer_total(v: Seq<ValueModel>) -> int
    decreases v.len(),
{
    if v.len() == 0 {
        0
    } else {
        integer_total(v.drop_last()) + match v.last() {
            ValueModel::Integer(i) => i as int,
            _ => 0int,
        }
    }
}

/// The views of some values.
pub open spec fn value_views(v: Seq<Value>) -> Seq<ValueModel> {
    v.map_values(|x: Value| x@)
}

/// Collects the values of one aggregate and computes it.
#[derive(Debug, Clone)]
pub struct AggregateAccumulator {
    function: AggregateFunction,
    values: Vec<Value>,
}

impl AggregateAccumulator {
    /// The aggregate function.
    pub closed spec fn func(&self) -> AggregateFunction {
        self.function
    }

    /// The values collected, in order.
    pub closed spec fn collected(&self) -> Seq<ValueModel> {
        value_views(self.values@)
    }

    /// An accumulator with no value.
    pub fn new(function: AggregateFunction) -> (a: Self)
        ensures
            a.func() == function,
            a.collected() == Seq::<ValueModel>::empty(),
    {
        let a = AggregateAccumulator { function, values: Vec::new() };
        assert(a.collected() =~= Seq::<ValueModel>::empty());
        a
    }

    /// Collects a value.
    pub fn add(&mut self, value: Value)
        ensures
            final(self).func() == old(self).func(),
            final(self).collected() == old(self).collected().push(value@),
    {
        self.values.push(value);
        proof {
            assert(self.collected() =~= old(self).collected().push(value@));
        }
    }

    /// The aggregate function.
    pub fn function(&self) -> (f: AggregateFunction)
        ensures
            f == self.func(),
    {
        self.function
    }

    /// The values collected, in order.
    pub fn values(&self) -> (v: &[Value])
        ensures
            value_views(v@) == self.collected(),
    {
        self.values.as_slice()
    }

    /// COUNT: the number of values (as a 64-bit integer).
    pub fn compute_count(&self) -> (r: Value)
        ensures
            r@ == ValueModel::Integer(self.collected().len() as i64),
    {
        Value::Integer(self.values.len() as i64)
    }

    /// MIN: NULL without values; else the first value, replaced by each
    /// later value that is below the current minimum (see `below`).
    pub fn compute_min(&self) -> (r: Value)
        ensures
            self.collected().len() == 0 ==> r@ == ValueModel::Null,
            self.collected().len() > 0 ==> r@ == self.collected()[min_position(
                self.collected(),
                self.collected().len() as int,
            )],
            self.collected().len() > 0 ==> (exists|i: int|
                0 <= i < self.collected().len() && #[trigger] self.collected()[i] == r@) && is_least(
                r@,
                self.collected(),
            ),
    {
        if self.values.len() == 0 {
            return Value::Null;
        }
        let mut best: usize = 0;
        let mut i: usize = 1;
        while i < self.values.len()
            invariant
                1 <= i <= self.values@.len(),
                best as int == min_position(self.collected(), i as int),
            decreases self.values@.len() - i,
        {
            proof {
                lemma_positions_in_range(self.collected(), i as int);
            }
            let b = below_exec(&self.values[i], &self.values[best]);
            if b {
                best = i;
            }
            i += 1;
        }
        proof {
            lemma_positions_in_range(self.collected(), i as int);
            lemma_min_max_extreme(self.collected());
        }
        self.values[best].duplicate()
    }

    /// MAX: NULL without values; else the first value, replaced by each
    /// later value that the current maximum is below.
    pub fn compute_max(&self) -> (r: Value)
        ensures
            self.collected().len() == 0 ==> r@ == ValueModel::Null,
            self.collected().len() > 0 ==> r@ == self.collected()[max_position(
                self.collected(),
                self.collected().len() as int,
            )],
            self.collected().len() > 0 ==> (exists|i: int|
                0 <= i < self.collected().len() && #[trigger] self.collected()[i] == r@) && is_greatest(
                r@,
                self.collected(),
            ),
    {
        if self.values.len() == 0 {
            return Value::Null;
        }
        let mut best: usize = 0;
        let mut i: usize = 1;
        while i < self.values.len()
            invariant
                1 <= i <= self.values@.len(),
                best as int == max_position(self.collected(), i as int),
            decreases self.values@.len() - i,
        {
            proof {
                lemma_positions_in_range(self.collected(), i as int);
            }
            let b = below_exec(&self.values[best], &self.values[i]);
            if b {
                best = i;
            }
            i += 1;
        }
        proof {
            lemma_positions_in_range(self.collected(), i as int);
            lemma_min_max_extreme(self.collected());
        }
        self.values[best].duplicate()
    }

    /// SUM when no value is a float: NULL without values, else the sum of
    /// the integers (other values are skipped). `None` when a float is
    /// present: that sum is computed in floating point.
    pub fn integer_sum(&self) -> (r: Option<Value>)
        requires
            !has_float(self.collected()) ==> forall|k: int|
                0 <= k <= self.collected().len() ==> i64::MIN <= #[trigger] integer_total(
                    self.collected().subrange(0, k),
                ) <= i64::MAX,
        ensures
            has_float(self.collected()) <==> r is None,
            r matches Some(v) ==> v@ == if self.collected().len() == 0 {
                ValueModel::Null
            } else {
                ValueModel::Integer(integer_total(self.collected()) as i64)
            },
    {
        let mut k: usize = 0;
        while k < self.values.len()
            invariant
                k <= self.values@.len(),
                forall|j: int| 0 <= j < k ==> !(#[trigger] self.collected()[j] is Float),
            decreases self.values@.len() - k,
        {
            match &self.values[k] {
                Value::Float(_) => {
                    proof {
                        assert(self.collected()[k as int] is Float);
                    }
                    return None;
                },
                _ => {},
            }
            k += 1;
        }
        if self.values.len() == 0 {
            return Some(Value::Null);
        }
        let mut sum: i64 = 0;
        let mut i: usize = 0;
        while i < self.values.len()
            invariant
                !has_float(self.collected()),
                forall|k: int|
                    0 <= k <= self.collected().len() ==> i64::MIN <= #[trigger] integer_total(
                        self.collected().subrange(0, k),
                    ) <= i64::MAX,
                i <= self.values@.len(),
                sum == integer_total(self.collected().subrange(0, i as int)),
            decreases self.values@.len() - i,
        {
            proof {
                assert(self.collected().subrange(0, i + 1).drop_last() =~= self.collected().subrange(0, i as int));
                assert(self.collected().subrange(0, i + 1).last() == self.values@[i as int]@);
                assert(i64::MIN <= integer_total(self.collected().subrange(0, i + 1)) <= i64::MAX);
            }
            match &self.values[i] {
                Value::Integer(x) => {
                    sum = sum + *x;
                },
                _ => {},
            }
            i += 1;
        }
        proof {
            assert(self.collected().subrange(0, i as int) =~= self.collected());
        }
        Some(Value::Integer(sum))
    }
}

/// Whether `b` is below `a` (see `below`).
fn below_exec(b: &Value, a: &Value) -> (r: bool)
    ensures
        r == below(b@, a@),
{
    match (a, b) {
        (Value::Integer(x), Value::Integer(y)) => *y < *x,
        (Value::Float(x), Value::Float(y)) => float_bits_lt64(*y, *x),
        (Value::String(x), Value::String(y)) => str_lt(y.as_str(), x.as_str()),
        _ => false,
    }
}

/// The errors of grouping.
#[derive(Debug, Clone)]
pub enum AggregateError {
    /// A grouping column is missing from a row.
    ColumnNotFound(String),
}

/// What an accumulator holds: its function and its values.
pub open spec fn acc_model(a: AggregateAccumulator) -> (AggregateFunction, Seq<ValueModel>) {
    (a.func(), a.collected())
}

/// The accumulators of a group, by aggregate name.
pub open spec fn accs_view(m: Map<Seq<char>, AggregateAccumulator>) -> Map<Seq<char>, (AggregateFunction, Seq<ValueModel>)> {
    m.map_values(|a: AggregateAccumulator| acc_model(a))
}

/// Whether two keys are equal value by value (as `==` compares values).
pub open spec fn keys_eq(a: Seq<ValueModel>, b: Seq<ValueModel>) -> bool {
    a.len() == b.len() && forall|i: int| 0 <= i < a.len() ==> value_eq(#[trigger] a[i], b[i])
}

/// The key of a row on the grouping columns; `None` when one is missing.
pub open spec fn key_of(row: Row, cols: Seq<Seq<char>>) -> Option<Seq<ValueModel>> {
    if forall|i: int| 0 <= i < cols.len() ==> row@.contains_key(#[trigger] cols[i]) {
        Some(Seq::new(cols.len(), |i: int| row@[cols[i]]))
    } else {
        None
    }
}

/// The first grouping column that a row lacks.
pub open spec fn first_missing(row: Row, cols: Seq<Seq<char>>) -> int {
    choose|i: int| 0 <= i < cols.len() && !row@.contains_key(cols[i]) && forall|j: int|
        0 <= j < i ==> row@.contains_key(#[trigger] cols[j])
}

/// The accumulators of an existing group after a row is added: each named
/// aggregate gets an accumulator if it has none, and the row's value of its
/// column when present.
pub open spec fn feed_group(
    m: Map<Seq<char>, (AggregateFunction, Seq<ValueModel>)>,
    aggs: Seq<(String, AggregateFunction, String)>,
    row: Row,
) -> Map<Seq<char>, (AggregateFunction, Seq<ValueModel>)>
    decreases aggs.len(),
{
    if aggs.len() == 0 {
        m
    } else {
        let m1 = feed_group(m, aggs.drop_last(), row);
        let a = aggs.last();
        let base = if m1.contains_key(a.0@) {
            m1[a.0@]
        } else {
            (a.1, Seq::empty())
        };
        let upd = if row@.contains_key(a.2@) {
            (base.0, base.1.push(row@[a.2@]))
        } else {
            base
        };
        m1.insert(a.0@, upd)
    }
}

/// The accumulators of a new group for a row: one per named aggregate (a
/// later one of the same name replaces an earlier one), holding the row's
/// value of its column when present.
pub open spec fn new_group(aggs: Seq<(String, AggregateFunction, String)>, row: Row) -> Map<
    Seq<char>,
    (AggregateFunction, Seq<ValueModel>),
>
    decreases aggs.len(),
{
    if aggs.len() == 0 {
        Map::empty()
    } else {
        let a = aggs.last();
        new_group(aggs.drop_last(), row).insert(
            a.0@,
            (a.1, if row@.contains_key(a.2@) {
                seq![row@[a.2@]]
            } else {
                Seq::empty()
            }),
        )
    }
}

/// Groups rows by key columns, with an accumulator per aggregate and group.
#[derive(Debug)]
pub struct GroupByProcessor {
    group_keys: Vec<String>,
    groups: Vec<(Vec<Value>, StrMap<AggregateAccumulator>)>,
}

/// The content of a group: its key and its accumulators.
pub open spec fn group_view(g: (Vec<Value>, StrMap<AggregateAccumulator>)) -> (
    Seq<ValueModel>,
    Map<Seq<char>, (AggregateFunction, Seq<ValueModel>)>,
) {
    (value_views(g.0@), accs_view(g.1@))
}

/// The position of the first group whose key equals `key`, or -1.
pub open spec fn first_group(groups: Seq<(Seq<ValueModel>, Map<Seq<char>, (AggregateFunction, Seq<ValueModel>)>)>, key: Seq<ValueModel>) -> int
    decreases groups.len(),
{
    if groups.len() == 0 {
        -1
    } else {
        let r = first_group(groups.drop_last(), key);
        if r >= 0 {
            r
        } else if keys_eq(groups.last().0, key) {
            groups.len() - 1
        } else {
            -1
        }
    }
}

proof fn lemma_first_group(groups: Seq<(Seq<ValueModel>, Map<Seq<char>, (AggregateFunction, Seq<ValueModel>)>)>, key: Seq<ValueModel>)
    ensures
        -1 <= first_group(groups, key) < groups.len(),
        first_group(groups, key) >= 0 ==> keys_eq(groups[first_group(groups, key)].0, key),
        first_group(groups, key) == -1 <==> forall|j: int| 0 <= j < groups.len() ==> !keys_eq(#[trigger] groups[j].0, key),
        first_group(groups, key) >= 0 ==> forall|j: int| 0 <= j < first_group(groups, key) ==> !keys_eq(#[trigger] groups[j].0, key),
    decreases groups.len(),
{
    if groups.len() > 0 {
        let d = groups.drop_last();
        lemma_first_group(d, key);
        assert forall|j: int| 0 <= j < groups.len() - 1 implies groups[j] == #[trigger] d[j] by {}
        let r = first_group(groups, key);
        if r == -1 {
            assert forall|j: int| 0 <= j < groups.len() implies !keys_eq(#[trigger] groups[j].0, key) by {
                if j < groups.len() - 1 {
                    assert(groups[j] == d[j]);
                }
            }
        } else {
            assert forall|j: int| 0 <= j < r implies !keys_eq(#[trigger] groups[j].0, key) by {
                assert(groups[j] == d[j]);
            }
            if first_group(d, key) >= 0 {
                assert(groups[r] == d[r]);
            }
        }
        if forall|j: int| 0 <= j < groups.len() ==> !keys_eq(#[trigger] groups[j].0, key) {
            assert forall|j: int| 0 <= j < d.len() implies !keys_eq(#[trigger] d[j].0, key) by {
                assert(groups[j] == d[j]);
            }
            assert(!keys_eq(groups[groups.len() - 1].0, key));
        }
    }
}

impl GroupByProcessor {
    /// The grouping columns.
    pub closed spec fn keys(&self) -> Seq<Seq<char>> {
        str_views(self.group_keys@)
    }

    /// The groups, in the order first seen.
    pub closed spec fn group_list(&self) -> Seq<(Seq<ValueModel>, Map<Seq<char>, (AggregateFunction, Seq<ValueModel>)>)> {
        self.groups@.map_values(|g: (Vec<Value>, StrMap<AggregateAccumulator>)| group_view(g))
    }

    /// No group yet.
    pub fn new(group_keys: Vec<String>) -> (p: Self)
        ensures
            p.keys() == str_views(group_keys@),
            p.group_list().len() == 0,
    {
        GroupByProcessor { group_keys, groups: Vec::new() }
    }

    /// The grouping columns.
    pub fn group_keys(&self) -> (r: &Vec<String>)
        ensures
            str_views(r@) == self.keys(),
    {
        &self.group_keys
    }

    /// The key of a row: its values of the grouping columns; an error names
    /// the first grouping column it lacks.
    pub fn extract_group_key(&self, row: &Row) -> (r: Result<Vec<Value>, AggregateError>)
        ensures
            key_of(*row, self.keys()) matches Some(k) ==> (r matches Ok(v) && value_views(v@) == k),
            key_of(*row, self.keys()) is None ==> (r matches Err(AggregateError::ColumnNotFound(c)) && c@
                == self.keys()[first_missing(*row, self.keys())]),
    {
        let mut key: Vec<Value> = Vec::new();
        let mut i: usize = 0;
        while i < self.group_keys.len()
            invariant
                i <= self.group_keys@.len(),
                key@.len() == i,
                forall|j: int| 0 <= j < i ==> row@.contains_key(#[trigger] self.keys()[j]),
                forall|j: int| 0 <= j < i ==> (#[trigger] key@[j])@ == row@[self.keys()[j]],
            decreases self.group_keys@.len() - i,
        {
            let col = &self.group_keys[i];
            proof {
                assert(self.keys()[i as int] == col@);
            }
            match row.get(col.as_str()) {
                Some(v) => {
                    key.push(v.duplicate());
                },
                None => {
                    proof {
                        let m = first_missing(*row, self.keys());
                        assert(0 <= i < self.keys().len() && !row@.contains_key(self.keys()[i as int]) && forall|j: int|
                            0 <= j < i ==> row@.contains_key(#[trigger] self.keys()[j]));
                        let w = i as int;
                        if m != w {
                            if m < w {
                                assert(row@.contains_key(self.keys()[m]));
                            } else {
                                assert(row@.contains_key(self.keys()[w]));
                            }
                        }
                    }
                    return Err(AggregateError::ColumnNotFound(col.clone()));
                },
            }
            i += 1;
        }
        proof {
            assert(value_views(key@) =~= Seq::new(self.keys().len(), |i: int| row@[self.keys()[i]]));
        }
        Ok(key)
    }

    /// Whether two keys are equal value by value.
    fn same_key(a: &Vec<Value>, b: &Vec<Value>) -> (r: bool)
        ensures
            r == keys_eq(value_views(a@), value_views(b@)),
    {
        if a.len() != b.len() {
            return false;
        }
        let mut i: usize = 0;
        while i < a.len()
            invariant
                a@.len() == b@.len(),
                i <= a@.len(),
                forall|j: int| 0 <= j < i ==> value_eq(#[trigger] value_views(a@)[j], value_views(b@)[j]),
            decreases a@.len() - i,
        {
            if !a[i].equals(&b[i]) {
                proof {
                    assert(!value_eq(value_views(a@)[i as int], value_views(b@)[i as int]));
                }
                return false;
            }
            i += 1;
        }
        true
    }

    /// Feeds a row to one group's accumulators (`feed_group`).
    fn feed(accs: &mut StrMap<AggregateAccumulator>, aggregates: &Vec<(String, AggregateFunction, String)>, row: &Row)
        ensures
            accs_view(final(accs)@) == feed_group(accs_view(old(accs)@), aggregates@, *row),
    {
        let mut i: usize = 0;
        while i < aggregates.len()
            invariant
                i <= aggregates@.len(),
                accs_view(accs@) == feed_group(accs_view(old(accs)@), aggregates@.subrange(0, i as int), *row),
            decreases aggregates@.len() - i,
        {
            let ghost before = accs_view(accs@);
            let (name, func, col) = (&aggregates[i].0, aggregates[i].1, &aggregates[i].2);
            proof {
                let sub = aggregates@.subrange(0, i + 1);
                assert(sub.drop_last() =~= aggregates@.subrange(0, i as int));
                assert(sub.last() == aggregates@[i as int]);
            }
            let mut acc = match accs.remove(name.as_str()) {
                Some(a) => a,
                None => AggregateAccumulator::new(func),
            };
            match row.get(col.as_str()) {
                Some(v) => {
                    acc.add(v.duplicate());
                },
                None => {},
            }
            let _ = accs.insert(name.clone(), acc);
            proof {
                assert(accs_view(accs@) =~= feed_group(accs_view(old(accs)@), aggregates@.subrange(0, i + 1), *row));
            }
            i += 1;
        }
        proof {
            assert(aggregates@.subrange(0, i as int) =~= aggregates@);
        }
    }

    /// The accumulators of a new group for a row (`new_group`).
    fn fresh(aggregates: Vec<(String, AggregateFunction, String)>, row: &Row) -> (r: StrMap<AggregateAccumulator>)
        ensures
            accs_view(r@) == new_group(aggregates@, *row),
    {
        let mut accs: StrMap<AggregateAccumulator> = StrMap::new();
        let mut i: usize = 0;
        proof {
            assert(accs_view(accs@) =~= new_group(aggregates@.subrange(0, 0), *row));
        }
        while i < aggregates.len()
            invariant
                i <= aggregates@.len(),
                accs_view(accs@) == new_group(aggregates@.subrange(0, i as int), *row),
            decreases aggregates@.len() - i,
        {
            let (name, func, col) = (&aggregates[i].0, aggregates[i].1, &aggregates[i].2);
            proof {
                let sub = aggregates@.subrange(0, i + 1);
                assert(sub.drop_last() =~= aggregates@.subrange(0, i as int));
                assert(sub.last() == aggregates@[i as int]);
            }
            let mut acc = AggregateAccumulator::new(func);
            match row.get(col.as_str()) {
                Some(v) => {
                    acc.add(v.duplicate());
                },
                None => {},
            }
            proof {
                if row@.contains_key(col@) {
                    assert(acc.collected() =~= seq![row@[col@]]);
                }
            }
            let _ = accs.insert(name.clone(), acc);
            proof {
                assert(accs_view(accs@) =~= new_group(aggregates@.subrange(0, i + 1), *row));
            }
            i += 1;
        }
        proof {
            assert(aggregates@.subrange(0, i as int) =~= aggregates@);
        }
        accs
    }

    /// Adds a row: its aggregates' values go to the first group with an
    /// equal key, or to a new group at the end. An error when the row lacks
    /// a grouping column.
    pub fn add_row(&mut self, row: &Row, aggregates: Vec<(String, AggregateFunction, String)>) -> (r: Result<
        (),
        AggregateError,
    >)
        ensures
            final(self).keys() == old(self).keys(),
            key_of(*row, old(self).keys()) is None ==> (r matches Err(AggregateError::ColumnNotFound(c)) && c@
                == old(self).keys()[first_missing(*row, old(self).keys())]) && final(self).group_list() == old(
                self,
            ).group_list(),
            key_of(*row, old(self).keys()) matches Some(k) ==> {
                let i = first_group(old(self).group_list(), k);
                &&& r is Ok
                &&& i >= 0 ==> final(self).group_list() == old(self).group_list().update(
                    i,
                    (old(self).group_list()[i].0, feed_group(old(self).group_list()[i].1, aggregates@, *row)),
                )
                &&& i < 0 ==> final(self).group_list() == old(self).group_list().push((k, new_group(aggregates@, *row)))
            },
    {
        let key = match self.extract_group_key(row) {
            Ok(k) => k,
            Err(e) => {
                return Err(e);
            },
        };
        let ghost k = value_views(key@);
        let ghost gl = self.group_list();
        proof {
            lemma_first_group(gl, k);
        }
        let mut i: usize = 0;
        while i < self.groups.len() && !Self::same_key(&self.groups[i].0, &key)
            invariant
                i <= self.groups@.len(),
                gl == self.group_list(),
                k == value_views(key@),
                forall|j: int| 0 <= j < i ==> !keys_eq(#[trigger] gl[j].0, k),
            decreases self.groups@.len() - i,
        {
            proof {
                assert(gl[i as int].0 == value_views(self.groups@[i as int].0@));
            }
            i += 1;
        }
        if i < self.groups.len() {
            proof {
                assert(gl[i as int].0 == value_views(self.groups@[i as int].0@));
                assert(keys_eq(gl[i as int].0, k));
                assert(first_group(gl, k) == i);
            }
            let (gkey, mut accs) = self.groups.remove(i);
            Self::feed(&mut accs, &aggregates, row);
            self.groups.insert(i, (gkey, accs));
            proof {
                assert(self.group_list() =~= gl.update(i as int, (gl[i as int].0, feed_group(gl[i as int].1, aggregates@, *row))));
            }
        } else {
            proof {
                assert(first_group(gl, k) == -1);
            }
            let accs = Self::fresh(aggregates, row);
            self.groups.push((key, accs));
            proof {
                assert(self.group_list() =~= gl.push((k, new_group(aggregates@, *row))));
            }
        }
        Ok(())
    }

    /// The number of groups.
    pub fn group_count(&self) -> (n: usize)
        ensures
            n == self.group_list().len(),
    {
        self.groups.len()
    }

    /// The key and accumulators of a group.
    pub fn group_at(&self, i: usize) -> (r: (&Vec<Value>, &StrMap<AggregateAccumulator>))
        requires
            i < self.group_list().len(),
        ensures
            value_views(r.0@) == self.group_list()[i as int].0,
            accs_view(r.1@) == self.group_list()[i as int].1,
    {
        (&self.groups[i].0, &self.groups[i].1)
    }
}

} // verus!
