//! Distributed query execution: planning fragments over shards, running them
//! under a coordination strategy and merging what they return.

use vstd::prelude::*;
use crate::storage::caching::{rows_view, str_views, copy_rows};
use crate::util::owned;

verus! {

/// Identifies a shard: the node that holds it and its number.
#[derive(Debug, Clone, Copy, PartialEq, Eq, Structural, Hash)]
pub struct ShardId {
    pub node_id: usize,
    pub shard_number: usize,
}

/// Where a shard lives.
#[derive(Debug, Clone)]
pub struct ShardLocation {
    pub shard_id: ShardId,
    pub host: String,
    pub port: u16,
    pub is_primary: bool,
}

impl ShardLocation {
    /// A copy of the location.
    pub fn duplicate(&self) -> (r: ShardLocation)
        ensures
            r == *self,
    {
        ShardLocation { shard_id: self.shard_id, host: self.host.clone(), port: self.port, is_primary: self.is_primary }
    }
}

/// A piece of a query to run on one shard.
#[derive(Debug, Clone)]
pub struct QueryFragment {
    pub fragment_id: usize,
    pub shard_id: ShardId,
    pub sql: String,
    pub expected_rows: usize,
}

/// What one shard returned for a fragment.
#[derive(Debug, Clone)]
pub struct ExecutionResult {
    pub fragment_id: usize,
    pub shard_id: ShardId,
    pub rows_returned: usize,
    pub execution_time_ms: u64,
    pub data: Vec<Vec<String>>,
}

/// How the fragments of a query are coordinated.
#[derive(Debug, Clone, Copy, PartialEq, Eq, Structural)]
pub enum CoordinationStrategy {
    /// One fragment after another.
    Sequential,
    /// All fragments at once.
    Parallel,
    /// Pipelined, with asynchronous I/O.
    PipelineAsync,
    /// A map phase, then a reduce phase.
    MapReduce,
}

/// The errors of distributed execution.
#[derive(Debug, Clone, Copy, PartialEq, Eq, Structural)]
pub enum DistributedError {
    /// No shard is registered.
    NoShardsRegistered,
}

/// The time a fragment takes under a strategy, in milliseconds.
pub open spec fn strategy_time(s: CoordinationStrategy) -> u64 {
    match s {
        CoordinationStrategy::Sequential => 10,
        CoordinationStrategy::Parallel => 5,
        CoordinationStrategy::PipelineAsync => 3,
        CoordinationStrategy::MapReduce => 12,
    }
}

/// The rows a fragment returns under a strategy, given the rows expected.
pub open spec fn strategy_rows(s: CoordinationStrategy, expected: usize) -> usize {
    if s == CoordinationStrategy::MapReduce {
        (expected / 2) as usize
    } else {
        expected
    }
}

/// The row that a shard answers with.
pub open spec fn answer_row(s: CoordinationStrategy) -> Seq<Seq<char>> {
    if s == CoordinationStrategy::MapReduce {
        seq!["key"@, "value"@]
    } else {
        seq!["value1"@, "value2"@]
    }
}

/// `n` copies of the answer row.
pub open spec fn answer_rows(s: CoordinationStrategy, n: nat) -> Seq<Seq<Seq<char>>> {
    Seq::new(n, |i: int| answer_row(s))
}

/// Whether `r` is the result of running fragment `f` under strategy `s`.
pub open spec fn result_of(f: QueryFragment, s: CoordinationStrategy, r: ExecutionResult) -> bool {
    &&& r.fragment_id == f.fragment_id
    &&& r.shard_id == f.shard_id
    &&& r.rows_returned == strategy_rows(s, f.expected_rows)
    &&& r.execution_time_ms == strategy_time(s)
    &&& rows_view(r.data@) == answer_rows(s, f.expected_rows as nat)
}

/// The fragment planned for shard `i` of `sql`.
pub open spec fn planned_fragment(sql: Seq<char>, i: int, f: QueryFragment) -> bool {
    &&& f.fragment_id == i
    &&& f.shard_id == ShardId { node_id: (i / 2) as usize, shard_number: i as usize }
    &&& f.sql@ == sql
    &&& f.expected_rows == 100
}

/// The text of a join of two tables on their `id` columns.
pub open spec fn join_sql(t1: Seq<char>, t2: Seq<char>) -> Seq<char> {
    "SELECT * FROM "@ + t1 + " JOIN "@ + t2 + " ON "@ + t1 + ".id = "@ + t2 + ".id"@
}

/// The rows of several results, one result after another.
pub open spec fn all_rows(results: Seq<ExecutionResult>) -> Seq<Seq<Seq<char>>>
    decreases results.len(),
{
    if results.len() == 0 {
        Seq::empty()
    } else {
        all_rows(results.drop_last()) + rows_view(results.last().data@)
    }
}

/// The answer row as strings.
fn answer_row_exec(s: CoordinationStrategy) -> (r: Vec<String>)
    ensures
        str_views(r@) == answer_row(s),
{
    let mut r: Vec<String> = Vec::new();
    if s == CoordinationStrategy::MapReduce {
        r.push(owned("key"));
        r.push(owned("value"));
        proof {
            reveal_strlit("key");
            reveal_strlit("value");
        }
    } else {
        r.push(owned("value1"));
        r.push(owned("value2"));
        proof {
            reveal_strlit("value1");
            reveal_strlit("value2");
        }
    }
    assert(str_views(r@) =~= answer_row(s));
    r
}

/// `n` copies of the answer row.
fn answer_rows_exec(s: CoordinationStrategy, n: usize) -> (r: Vec<Vec<String>>)
    ensures
        rows_view(r@) == answer_rows(s, n as nat),
{
    let mut r: Vec<Vec<String>> = Vec::new();
    let mut i: usize = 0;
    while i < n
        invariant
            i <= n,
            rows_view(r@) == answer_rows(s, i as nat),
        decreases n - i,
    {
        let ghost before = r@;
        r.push(answer_row_exec(s));
        i += 1;
        proof {
            assert(rows_view(r@) =~= answer_rows(s, i as nat)) by {
                assert(rows_view(r@) =~= rows_view(before).push(answer_row(s)));
            }
        }
    }
    r
}

/// Plans, runs and merges queries over registered shards.
#[derive(Debug)]
pub struct DistributedQueryExecutor {
    shards: Vec<ShardLocation>,
    strategy: CoordinationStrategy,
    max_parallel_queries: usize,
}

impl DistributedQueryExecutor {
    /// The registered shards, in the order registered.
    pub closed spec fn shard_list(&self) -> Seq<ShardLocation> {
        self.shards@
    }

    /// The coordination strategy.
    pub closed spec fn strategy(&self) -> CoordinationStrategy {
        self.strategy
    }

    /// An executor with no shard and the given strategy.
    pub fn new(strategy: CoordinationStrategy) -> (e: Self)
        ensures
            e.shard_list() == Seq::<ShardLocation>::empty(),
            e.strategy() == strategy,
    {
        DistributedQueryExecutor { shards: Vec::new(), strategy, max_parallel_queries: 4 }
    }

    /// Registers a shard.
    pub fn register_shard(&mut self, location: ShardLocation)
        ensures
            final(self).shard_list() == old(self).shard_list().push(location),
            final(self).strategy() == old(self).strategy(),
    {
        self.shards.push(location);
    }

    /// One fragment of `sql` per shard number below `num_shards`; shard `i`
    /// lives on node `i / 2`.
    pub fn plan_distributed_query(&self, sql: &str, num_shards: usize) -> (r: Result<
        Vec<QueryFragment>,
        DistributedError,
    >)
        ensures
            r is Ok,
            r->Ok_0@.len() == num_shards,
            forall|i: int| 0 <= i < num_shards ==> planned_fragment(sql@, i, #[trigger] r->Ok_0@[i]),
    {
        let mut fragments: Vec<QueryFragment> = Vec::new();
        let mut i: usize = 0;
        while i < num_shards
            invariant
                i <= num_shards,
                fragments@.len() == i,
                forall|j: int| 0 <= j < i ==> planned_fragment(sql@, j, #[trigger] fragments@[j]),
            decreases num_shards - i,
        {
            let shard_id = ShardId { node_id: i / 2, shard_number: i };
            fragments.push(QueryFragment { fragment_id: i, shard_id, sql: owned(sql), expected_rows: 100 });
            i += 1;
        }
        Ok(fragments)
    }

    /// Runs each fragment under a strategy other than map-reduce.
    fn simulate(fragments: &[QueryFragment], s: CoordinationStrategy) -> (r: Vec<ExecutionResult>)
        requires
            s != CoordinationStrategy::MapReduce,
        ensures
            r@.len() == fragments@.len(),
            forall|i: int| 0 <= i < fragments@.len() ==> result_of(fragments@[i], s, #[trigger] r@[i]),
    {
        let time: u64 = match s {
            CoordinationStrategy::Sequential => 10,
            CoordinationStrategy::Parallel => 5,
            _ => 3,
        };
        let mut results: Vec<ExecutionResult> = Vec::new();
        let mut i: usize = 0;
        while i < fragments.len()
            invariant
                s != CoordinationStrategy::MapReduce,
                time == strategy_time(s),
                i <= fragments@.len(),
                results@.len() == i,
                forall|j: int| 0 <= j < i ==> result_of(fragments@[j], s, #[trigger] results@[j]),
            decreases fragments@.len() - i,
        {
            let fragment = &fragments[i];
            results.push(
                ExecutionResult {
                    fragment_id: fragment.fragment_id,
                    shard_id: fragment.shard_id,
                    rows_returned: fragment.expected_rows,
                    execution_time_ms: time,
                    data: answer_rows_exec(s, fragment.expected_rows),
                },
            );
            i += 1;
        }
        results
    }

    fn execute_sequential(&self, fragments: &[QueryFragment]) -> (r: Vec<ExecutionResult>)
        ensures
            r@.len() == fragments@.len(),
            forall|i: int|
                0 <= i < fragments@.len() ==> result_of(
                    fragments@[i],
                    CoordinationStrategy::Sequential,
                    #[trigger] r@[i],
                ),
    {
        Self::simulate(fragments, CoordinationStrategy::Sequential)
    }

    fn execute_parallel(&self, fragments: &[QueryFragment]) -> (r: Vec<ExecutionResult>)
        ensures
            r@.len() == fragments@.len(),
            forall|i: int|
                0 <= i < fragments@.len() ==> result_of(
                    fragments@[i],
                    CoordinationStrategy::Parallel,
                    #[trigger] r@[i],
                ),
    {
        Self::simulate(fragments, CoordinationStrategy::Parallel)
    }

    fn execute_pipeline(&self, fragments: &[QueryFragment]) -> (r: Vec<ExecutionResult>)
        ensures
            r@.len() == fragments@.len(),
            forall|i: int|
                0 <= i < fragments@.len() ==> result_of(
                    fragments@[i],
                    CoordinationStrategy::PipelineAsync,
                    #[trigger] r@[i],
                ),
    {
        Self::simulate(fragments, CoordinationStrategy::PipelineAsync)
    }

    /// A map phase over every fragment, then a reduce phase that halves the
    /// row counts and adds the reduce time.
    fn execute_mapreduce(&self, fragments: &[QueryFragment]) -> (r: Vec<ExecutionResult>)
        ensures
            r@.len() == fragments@.len(),
            forall|i: int|
                0 <= i < fragments@.len() ==> result_of(
                    fragments@[i],
                    CoordinationStrategy::MapReduce,
                    #[trigger] r@[i],
                ),
    {
        let s = CoordinationStrategy::MapReduce;
        let mut map_results: Vec<ExecutionResult> = Vec::new();
        let mut i: usize = 0;
        while i < fragments.len()
            invariant
                s == CoordinationStrategy::MapReduce,
                i <= fragments@.len(),
                map_results@.len() == i,
                forall|j: int|
                    0 <= j < i ==> {
                        &&& (#[trigger] map_results@[j]).fragment_id == fragments@[j].fragment_id
                        &&& map_results@[j].shard_id == fragments@[j].shard_id
                        &&& map_results@[j].rows_returned == fragments@[j].expected_rows
                        &&& map_results@[j].execution_time_ms == 8
                        &&& rows_view(map_results@[j].data@) == answer_rows(s, fragments@[j].expected_rows as nat)
                    },
            decreases fragments@.len() - i,
        {
            let fragment = &fragments[i];
            map_results.push(
                ExecutionResult {
                    fragment_id: fragment.fragment_id,
                    shard_id: fragment.shard_id,
                    rows_returned: fragment.expected_rows,
                    execution_time_ms: 8,
                    data: answer_rows_exec(s, fragment.expected_rows),
                },
            );
            i += 1;
        }
        let mut final_results: Vec<ExecutionResult> = Vec::new();
        let mut k: usize = 0;
        while k < map_results.len()
            invariant
                s == CoordinationStrategy::MapReduce,
                map_results@.len() == fragments@.len(),
                k <= map_results@.len(),
                final_results@.len() == k,
                forall|j: int|
                    0 <= j < map_results@.len() ==> {
                        &&& (#[trigger] map_results@[j]).fragment_id == fragments@[j].fragment_id
                        &&& map_results@[j].shard_id == fragments@[j].shard_id
                        &&& map_results@[j].rows_returned == fragments@[j].expected_rows
                        &&& map_results@[j].execution_time_ms == 8
                        &&& rows_view(map_results@[j].data@) == answer_rows(s, fragments@[j].expected_rows as nat)
                    },
                forall|j: int| 0 <= j < k ==> result_of(fragments@[j], s, #[trigger] final_results@[j]),
            decreases map_results@.len() - k,
        {
            let result = &map_results[k];
            final_results.push(
                ExecutionResult {
                    fragment_id: result.fragment_id,
                    shard_id: result.shard_id,
                    rows_returned: result.rows_returned / 2,
                    execution_time_ms: result.execution_time_ms + 4,
                    data: copy_rows(&result.data),
                },
            );
            k += 1;
        }
        final_results
    }

    /// Runs the fragments under the executor's strategy.
    pub fn execute_fragments(&self, fragments: &[QueryFragment]) -> (r: Result<
        Vec<ExecutionResult>,
        DistributedError,
    >)
        ensures
            r is Ok,
            r->Ok_0@.len() == fragments@.len(),
            forall|i: int|
                0 <= i < fragments@.len() ==> result_of(fragments@[i], self.strategy(), #[trigger] r->Ok_0@[i]),
    {
        match self.strategy {
            CoordinationStrategy::Sequential => Ok(self.execute_sequential(fragments)),
            CoordinationStrategy::Parallel => Ok(self.execute_parallel(fragments)),
            CoordinationStrategy::PipelineAsync => Ok(self.execute_pipeline(fragments)),
            CoordinationStrategy::MapReduce => Ok(self.execute_mapreduce(fragments)),
        }
    }

    /// The rows of all results, one result after another.
    pub fn aggregate_results(&self, results: &[ExecutionResult]) -> (r: Result<
        Vec<Vec<String>>,
        DistributedError,
    >)
        ensures
            r is Ok,
            rows_view(r->Ok_0@) == all_rows(results@),
    {
        let mut aggregated: Vec<Vec<String>> = Vec::new();
        let mut i: usize = 0;
        while i < results.len()
            invariant
                i <= results@.len(),
                rows_view(aggregated@) == all_rows(results@.subrange(0, i as int)),
            decreases results@.len() - i,
        {
            let rows = &results[i].data;
            let mut k: usize = 0;
            let ghost start = rows_view(aggregated@);
            while k < rows.len()
                invariant
                    k <= rows@.len(),
                    rows_view(aggregated@) == start + rows_view(rows@).subrange(0, k as int),
                decreases rows@.len() - k,
            {
                let ghost before = aggregated@;
                aggregated.push(crate::storage::caching::copy_strings(&rows[k]));
                proof {
                    assert(rows_view(aggregated@) =~= rows_view(before).push(str_views(rows@[k as int]@)));
                    assert(rows_view(aggregated@) =~= start + rows_view(rows@).subrange(0, k + 1));
                }
                k += 1;
            }
            proof {
                assert(rows_view(rows@).subrange(0, k as int) =~= rows_view(rows@));
                assert(results@.subrange(0, i + 1).drop_last() =~= results@.subrange(0, i as int));
            }
            i += 1;
        }
        proof {
            assert(results@.subrange(0, i as int) =~= results@);
        }
        Ok(aggregated)
    }

    /// The shard at position (length of the key in bytes) modulo the number of
    /// shards; an error when no shard is registered.
    pub fn get_shard_for_key(&self, key: &str) -> (r: Result<ShardLocation, DistributedError>)
        ensures
            self.shard_list().len() == 0 <==> r is Err,
            r is Err ==> r == Err::<ShardLocation, DistributedError>(DistributedError::NoShardsRegistered),
            r is Ok ==> r->Ok_0 == self.shard_list()[(key.len() as int) % (self.shard_list().len() as int)],
    {
        if self.shards.len() == 0 {
            return Err(DistributedError::NoShardsRegistered);
        }
        let hash = key.len() % self.shards.len();
        Ok(self.shards[hash].duplicate())
    }

    /// One join fragment per registered shard, each joining the two tables on
    /// their `id` columns.
    pub fn plan_distributed_join(&self, table1: &str, table2: &str) -> (r: Result<
        Vec<QueryFragment>,
        DistributedError,
    >)
        ensures
            r is Ok,
            r->Ok_0@.len() == self.shard_list().len(),
            forall|i: int|
                0 <= i < self.shard_list().len() ==> {
                    &&& (#[trigger] r->Ok_0@[i]).fragment_id == i
                    &&& r->Ok_0@[i].shard_id == self.shard_list()[i].shard_id
                    &&& r->Ok_0@[i].sql@ == join_sql(table1@, table2@)
                    &&& r->Ok_0@[i].expected_rows == 50
                },
    {
        let mut fragments: Vec<QueryFragment> = Vec::new();
        let mut i: usize = 0;
        while i < self.shards.len()
            invariant
                i <= self.shards@.len(),
                fragments@.len() == i,
                forall|j: int|
                    0 <= j < i ==> {
                        &&& (#[trigger] fragments@[j]).fragment_id == j
                        &&& fragments@[j].shard_id == self.shards@[j].shard_id
                        &&& fragments@[j].sql@ == join_sql(table1@, table2@)
                        &&& fragments@[j].expected_rows == 50
                    },
            decreases self.shards@.len() - i,
        {
            let mut sql = String::new();
            sql.append("SELECT * FROM ");
            sql.append(table1);
            sql.append(" JOIN ");
            sql.append(table2);
            sql.append(" ON ");
            sql.append(table1);
            sql.append(".id = ");
            sql.append(table2);
            sql.append(".id");
            proof {
                assert(sql@ =~= join_sql(table1@, table2@));
            }
            fragments.push(
                QueryFragment { fragment_id: i, shard_id: self.shards[i].shard_id, sql, expected_rows: 50 },
            );
            i += 1;
        }
        Ok(fragments)
    }

    /// Sets the coordination strategy.
    pub fn set_coordination_strategy(&mut self, strategy: CoordinationStrategy)
        ensures
            final(self).strategy() == strategy,
            final(self).shard_list() == old(self).shard_list(),
    {
        self.strategy = strategy;
    }

    /// The number of registered shards.
    pub fn get_shard_count(&self) -> (n: usize)
        ensures
            n == self.shard_list().len(),
    {
        self.shards.len()
    }
}

} // verus!
