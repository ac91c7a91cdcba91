//! Common table expressions and subqueries: their definitions, the
//! registry and result cache of CTEs, and the evaluation of EXISTS, IN and
//! scalar subqueries over result rows.

use vstd::prelude::*;
use crate::collections::StrMap;
use crate::storage::caching::str_views;
use crate::types::{Row, Value, ValueModel};
use crate::util::{owned, str_eq};

verus! {

/// A named subquery of a WITH clause.
#[derive(Debug, Clone)]
pub struct CommonTableExpression {
    pub name: String,
    pub columns: Vec<String>,
    pub query: String,
    pub is_recursive: bool,
}

impl CommonTableExpression {
    /// A CTE with the given parts.
    pub fn new(name: String, columns: Vec<String>, query: String, is_recursive: bool) -> (c: Self)
        ensures
            c.name == name,
            c.columns == columns,
            c.query == query,
            c.is_recursive == is_recursive,
    {
        CommonTableExpression { name, columns, query, is_recursive }
    }

    /// The number of columns.
    pub fn get_column_count(&self) -> (n: usize)
        ensures
            n == self.columns@.len(),
    {
        self.columns.len()
    }

    /// The columns.
    pub fn get_columns(&self) -> (r: &[String])
        ensures
            r@ == self.columns@,
    {
        self.columns.as_slice()
    }
}

/// The kinds of subquery.
#[derive(Debug, Clone, Copy, PartialEq, Eq, Structural)]
pub enum SubqueryType {
    /// Returns a single value.
    Scalar,
    /// Refers to the outer query.
    Correlated,
    /// Independent of the outer query.
    Uncorrelated,
    /// An EXISTS clause.
    Exists,
    /// An IN clause.
    In,
}

impl SubqueryType {
    /// The kind's name.
    pub fn as_str(&self) -> (s: &'static str)
        ensures
            s@ == match *self {
                SubqueryType::Scalar => "Scalar"@,
                SubqueryType::Correlated => "Correlated"@,
                SubqueryType::Uncorrelated => "Uncorrelated"@,
                SubqueryType::Exists => "Exists"@,
                SubqueryType::In => "In"@,
            },
    {
        match self {
            SubqueryType::Scalar => "Scalar",
            SubqueryType::Correlated => "Correlated",
            SubqueryType::Uncorrelated => "Uncorrelated",
            SubqueryType::Exists => "Exists",
            SubqueryType::In => "In",
        }
    }
}

/// A subquery, with the outer columns it refers to.
#[derive(Debug, Clone)]
pub struct Subquery {
    pub query: String,
    pub subquery_type: SubqueryType,
    pub correlation_columns: Vec<String>,
}

impl Subquery {
    /// A subquery that refers to no outer column.
    pub fn new(query: String, subquery_type: SubqueryType) -> (s: Self)
        ensures
            s.query == query,
            s.subquery_type == subquery_type,
            s.correlation_columns@.len() == 0,
    {
        Subquery { query, subquery_type, correlation_columns: Vec::new() }
    }

    /// The subquery with these outer columns.
    pub fn with_correlation(self, columns: Vec<String>) -> (s: Self)
        ensures
            s.query == self.query,
            s.subquery_type == self.subquery_type,
            s.correlation_columns == columns,
    {
        Subquery { correlation_columns: columns, ..self }
    }

    /// Whether the subquery refers to outer columns.
    pub fn is_correlated(&self) -> (b: bool)
        ensures
            b == (self.correlation_columns@.len() > 0),
    {
        self.correlation_columns.len() > 0
    }
}

/// The errors of CTE and subquery handling.
#[derive(Debug, Clone)]
pub enum CteError {
    /// A CTE of this name is registered already.
    AlreadyRegistered(String),
    /// A subquery with this id exists already.
    SubqueryExists(String),
    /// A scalar subquery returned more than one row.
    ScalarSubqueryRows,
}

/// Whether `s` occurs among the strings of `v`.
fn contains_str(v: &Vec<String>, s: &str) -> (b: bool)
    ensures
        b == str_views(v@).contains(s@),
{
    let mut i: usize = 0;
    while i < v.len()
        invariant
            i <= v@.len(),
            forall|j: int| 0 <= j < i ==> v@[j]@ != s@,
        decreases v@.len() - i,
    {
        if str_eq(v[i].as_str(), s) {
            proof {
                assert(str_views(v@)[i as int] == s@);
            }
            return true;
        }
        i += 1;
    }
    proof {
        if str_views(v@).contains(s@) {
            let j = choose|j: int| 0 <= j < str_views(v@).len() && #[trigger] str_views(v@)[j] == s@;
            assert(v@[j]@ == s@);
        }
    }
    false
}

/// Registers CTEs, caches their results, and orders their execution.
#[derive(Debug)]
pub struct CteMaterializer {
    ctes: StrMap<CommonTableExpression>,
    cache: StrMap<Vec<Row>>,
    execution_order: Vec<String>,
}

impl CteMaterializer {
    /// The registered CTEs by name.
    pub closed spec fn registered(&self) -> Map<Seq<char>, CommonTableExpression> {
        self.ctes@
    }

    /// The names of the registered CTEs, in the order registered.
    pub closed spec fn names(&self) -> Seq<Seq<char>> {
        self.ctes.key_order()
    }

    /// The cached results by CTE name.
    pub closed spec fn cached(&self) -> Map<Seq<char>, Vec<Row>> {
        self.cache@
    }

    /// The execution order last built.
    pub closed spec fn order(&self) -> Seq<Seq<char>> {
        str_views(self.execution_order@)
    }

    /// Nothing registered or cached.
    pub fn new() -> (m: Self)
        ensures
            m.registered() == Map::<Seq<char>, CommonTableExpression>::empty(),
            m.names() == Seq::<Seq<char>>::empty(),
            m.cached() == Map::<Seq<char>, Vec<Row>>::empty(),
            m.order() == Seq::<Seq<char>>::empty(),
    {
        let m = CteMaterializer { ctes: StrMap::new(), cache: StrMap::new(), execution_order: Vec::new() };
        assert(m.order() =~= Seq::<Seq<char>>::empty());
        m
    }

    /// Registers a CTE under its name; refused when the name is taken.
    pub fn register_cte(&mut self, cte: CommonTableExpression) -> (r: Result<(), CteError>)
        ensures
            r is Err <==> old(self).registered().contains_key(cte.name@),
            r is Err ==> (r matches Err(CteError::AlreadyRegistered(n)) && n@ == cte.name@) && final(self).registered()
                == old(self).registered() && final(self).names() == old(self).names(),
            r is Ok ==> final(self).registered() == old(self).registered().insert(cte.name@, cte)
                && final(self).names() == old(self).names().push(cte.name@),
            final(self).cached() == old(self).cached(),
            final(self).order() == old(self).order(),
    {
        if self.ctes.contains_key(cte.name.as_str()) {
            return Err(CteError::AlreadyRegistered(cte.name));
        }
        let name = cte.name.clone();
        let _ = self.ctes.insert(name, cte);
        Ok(())
    }

    /// The CTE registered under a name.
    pub fn get_cte(&self, name: &str) -> (r: Option<&CommonTableExpression>)
        ensures
            match r {
                Some(c) => self.registered().contains_key(name@) && *c == self.registered()[name@],
                None => !self.registered().contains_key(name@),
            },
    {
        self.ctes.get(name)
    }

    /// Caches the rows of a CTE, replacing what was cached for it.
    pub fn cache_results(&mut self, name: String, rows: Vec<Row>) -> (r: Result<(), CteError>)
        ensures
            r is Ok,
            final(self).cached() == old(self).cached().insert(name@, rows),
            final(self).registered() == old(self).registered(),
            final(self).names() == old(self).names(),
            final(self).order() == old(self).order(),
    {
        let _ = self.cache.insert(name, rows);
        Ok(())
    }

    /// The cached rows of a CTE.
    pub fn get_cached_rows(&self, name: &str) -> (r: Option<&Vec<Row>>)
        ensures
            match r {
                Some(v) => self.cached().contains_key(name@) && *v == self.cached()[name@],
                None => !self.cached().contains_key(name@),
            },
    {
        self.cache.get(name)
    }

    /// Drops the cached rows of one CTE, or of all of them.
    pub fn clear_cache(&mut self, cte_name: Option<&str>)
        ensures
            match cte_name {
                Some(n) => final(self).cached() == old(self).cached().remove(n@),
                None => final(self).cached() == Map::<Seq<char>, Vec<Row>>::empty(),
            },
            final(self).registered() == old(self).registered(),
            final(self).names() == old(self).names(),
            final(self).order() == old(self).order(),
    {
        match cte_name {
            Some(name) => {
                let _ = self.cache.remove(name);
            },
            None => {
                self.cache.clear();
            },
        }
    }

    /// The number of registered CTEs.
    pub fn get_cte_count(&self) -> (n: usize)
        ensures
            n == self.registered().len(),
    {
        self.ctes.len()
    }

    /// The number of CTEs with cached rows.
    pub fn get_cache_size(&self) -> (n: usize)
        ensures
            n == self.cached().len(),
    {
        self.cache.len()
    }

    /// Orders the CTEs for execution: each registered name once, visiting
    /// them in the order registered; the order is also kept.
    pub fn build_execution_order(&mut self) -> (r: Result<Vec<String>, CteError>)
        ensures
            r is Ok,
            str_views(r->Ok_0@) == old(self).names(),
            final(self).order() == old(self).names(),
            final(self).registered() == old(self).registered(),
            final(self).names() == old(self).names(),
            final(self).cached() == old(self).cached(),
    {
        let mut order: Vec<String> = Vec::new();
        let mut visited: Vec<String> = Vec::new();
        let keys = self.ctes.keys();
        proof {
            use_type_invariant(&self.ctes);
            self.ctes.lemma_view_consistent();
        }
        let mut i: usize = 0;
        while i < keys.len()
            invariant
                str_views(keys@) == self.names(),
                self.names().no_duplicates(),
                i <= keys@.len(),
                str_views(order@) == self.names().subrange(0, i as int),
                str_views(visited@) == self.names().subrange(0, i as int),
            decreases keys@.len() - i,
        {
            let name = &keys[i];
            let seen = contains_str(&visited, name.as_str());
            proof {
                assert(str_views(keys@)[i as int] == name@);
                if seen {
                    let j = choose|j: int| 0 <= j < str_views(visited@).len() && #[trigger] str_views(visited@)[j] == name@;
                    assert(self.names()[j] == self.names()[i as int]);
                }
            }
            if !seen {
                let _ = self.topological_sort(name.as_str(), &mut visited, &mut order);
            }
            proof {
                assert(str_views(order@) =~= self.names().subrange(0, i + 1));
                assert(str_views(visited@) =~= self.names().subrange(0, i + 1));
            }
            i += 1;
        }
        proof {
            assert(self.names().subrange(0, i as int) =~= self.names());
        }
        self.execution_order = crate::storage::caching::copy_strings(&order);
        Ok(order)
    }

    /// Places a CTE in the order: it is marked visited and appended (no
    /// dependency between CTEs is followed).
    fn topological_sort(&self, name: &str, visited: &mut Vec<String>, order: &mut Vec<String>) -> (r: Result<
        (),
        CteError,
    >)
        ensures
            r is Ok,
            str_views(final(visited)@) == str_views(old(visited)@).push(name@),
            str_views(final(order)@) == str_views(old(order)@).push(name@),
    {
        visited.push(owned(name));
        order.push(owned(name));
        proof {
            assert(str_views(visited@) =~= str_views(old(visited)@).push(name@));
            assert(str_views(order@) =~= str_views(old(order)@).push(name@));
        }
        Ok(())
    }

    /// The names of the registered CTEs.
    pub fn list_cte_names(&self) -> (r: Vec<String>)
        ensures
            str_views(r@) == self.names(),
    {
        let r = self.ctes.keys();
        proof {
            assert(str_views(r@) =~= r@.map_values(|s: String| s@));
        }
        r
    }
}

/// The values that rows have in a column, in row order, skipping rows
/// without it.
pub open spec fn column_values(rows: Seq<Row>, column: Seq<char>) -> Seq<ValueModel>
    decreases rows.len(),
{
    if rows.len() == 0 {
        Seq::empty()
    } else if rows.last()@.contains_key(column) {
        column_values(rows.drop_last(), column).push(rows.last()@[column])
    } else {
        column_values(rows.drop_last(), column)
    }
}

/// The views of some values.
pub open spec fn value_views(v: Seq<Value>) -> Seq<ValueModel> {
    v.map_values(|x: Value| x@)
}

/// Registers subqueries and evaluates them over result rows.
#[derive(Debug)]
pub struct SubqueryExecutor {
    subqueries: StrMap<Subquery>,
}

impl SubqueryExecutor {
    /// The registered subqueries by id.
    pub closed spec fn registered(&self) -> Map<Seq<char>, Subquery> {
        self.subqueries@
    }

    /// The ids, in the order registered.
    pub closed spec fn ids(&self) -> Seq<Seq<char>> {
        self.subqueries.key_order()
    }

    /// Nothing registered.
    pub fn new() -> (e: Self)
        ensures
            e.registered() == Map::<Seq<char>, Subquery>::empty(),
            e.ids() == Seq::<Seq<char>>::empty(),
    {
        SubqueryExecutor { subqueries: StrMap::new() }
    }

    /// Registers a subquery under an id; refused when the id is taken.
    pub fn add_subquery(&mut self, id: String, subquery: Subquery) -> (r: Result<(), CteError>)
        ensures
            r is Err <==> old(self).registered().contains_key(id@),
            r is Err ==> (r matches Err(CteError::SubqueryExists(n)) && n@ == id@) && final(self).registered() == old(
                self,
            ).registered() && final(self).ids() == old(self).ids(),
            r is Ok ==> final(self).registered() == old(self).registered().insert(id@, subquery) && final(self).ids()
                == old(self).ids().push(id@),
    {
        if self.subqueries.contains_key(id.as_str()) {
            return Err(CteError::SubqueryExists(id));
        }
        let _ = self.subqueries.insert(id, subquery);
        Ok(())
    }

    /// The subquery registered under an id.
    pub fn get_subquery(&self, id: &str) -> (r: Option<&Subquery>)
        ensures
            match r {
                Some(s) => self.registered().contains_key(id@) && *s == self.registered()[id@],
                None => !self.registered().contains_key(id@),
            },
    {
        self.subqueries.get(id)
    }

    /// EXISTS: whether the subquery returned a row.
    pub fn eval_exists(&self, rows: &[Row]) -> (b: bool)
        ensures
            b == (rows@.len() > 0),
    {
        rows.len() > 0
    }

    /// IN: the values of the column in the returned rows, skipping rows
    /// without it.
    pub fn eval_in(&self, rows: &[Row], column: &str) -> (r: Result<Vec<Value>, CteError>)
        ensures
            r is Ok,
            value_views(r->Ok_0@) == column_values(rows@, column@),
    {
        let mut values: Vec<Value> = Vec::new();
        let mut i: usize = 0;
        while i < rows.len()
            invariant
                i <= rows@.len(),
                value_views(values@) == column_values(rows@.subrange(0, i as int), column@),
            decreases rows@.len() - i,
        {
            let ghost before = values@;
            proof {
                assert(rows@.subrange(0, i + 1).drop_last() =~= rows@.subrange(0, i as int));
            }
            match rows[i].get(column) {
                Some(v) => {
                    values.push(v.duplicate());
                    proof {
                        assert(value_views(values@) =~= value_views(before).push(v@));
                    }
                },
                None => {},
            }
            i += 1;
        }
        proof {
            assert(rows@.subrange(0, i as int) =~= rows@);
        }
        Ok(values)
    }

    /// A scalar subquery: NULL for no row, the column's value (NULL when
    /// missing) for one row, an error for more.
    pub fn eval_scalar(&self, rows: &[Row], column: &str) -> (r: Result<Value, CteError>)
        ensures
            rows@.len() == 0 ==> (r matches Ok(v) && v@ == ValueModel::Null),
            rows@.len() > 1 ==> (r matches Err(CteError::ScalarSubqueryRows)),
            rows@.len() == 1 ==> (r matches Ok(v) && v@ == if rows@[0]@.contains_key(column@) {
                rows@[0]@[column@]
            } else {
                ValueModel::Null
            }),
    {
        if rows.len() == 0 {
            return Ok(Value::Null);
        }
        if rows.len() > 1 {
            return Err(CteError::ScalarSubqueryRows);
        }
        match rows[0].get(column) {
            Some(v) => Ok(v.duplicate()),
            None => Ok(Value::Null),
        }
    }

    /// The number of registered subqueries.
    pub fn get_subquery_count(&self) -> (n: usize)
        ensures
            n == self.registered().len(),
    {
        self.subqueries.len()
    }

    /// The ids of the registered subqueries.
    pub fn list_subquery_ids(&self) -> (r: Vec<String>)
        ensures
            str_views(r@) == self.ids(),
    {
        let r = self.subqueries.keys();
        proof {
            assert(str_views(r@) =~= r@.map_values(|s: String| s@));
        }
        r
    }
}

} // verus!
