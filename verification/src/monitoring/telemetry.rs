//! Telemetry: per-query metrics, a bounded log of slow queries, and
//! performance counters.

use vstd::prelude::*;
use crate::util::system_clock;
use crate::collections::StrMap;

verus! {

/// The kinds of metric.
#[derive(Debug, Clone, Copy, PartialEq, Eq, Structural)]
pub enum MetricType {
    Counter,
    Gauge,
    Histogram,
    Timer,
}

impl MetricType {
    /// The kind's name.
    pub fn as_str(&self) -> (s: &'static str)
        ensures
            s@ == match *self {
                MetricType::Counter => "Counter"@,
                MetricType::Gauge => "Gauge"@,
                MetricType::Histogram => "Histogram"@,
                MetricType::Timer => "Timer"@,
            },
    {
        match self {
            MetricType::Counter => "Counter",
            MetricType::Gauge => "Gauge",
            MetricType::Histogram => "Histogram",
            MetricType::Timer => "Timer",
        }
    }
}

/// The time in milliseconds since the UNIX epoch, as the system clock
/// reports it (0 for a clock before the epoch), cut to 64 bits.
fn current_time_ms() -> u64 {
    let (secs, nanos) = system_clock();
    let ms: u128 = secs as u128 * 1000 + (nanos / 1_000_000) as u128;
    ms as u64
}

/// The metrics of one query execution.
#[derive(Debug, Clone)]
pub struct QueryMetrics {
    pub query_id: String,
    pub query_text: String,
    pub start_time: u64,
    pub end_time: u64,
    pub rows_scanned: i64,
    pub rows_returned: i64,
    pub execution_time_ms: u32,
    pub has_index: bool,
    pub full_scan: bool,
}

/// Whether `m` is `a` ended at some time: the execution time is the end
/// minus the start (modulo 2^64, truncated to 32 bits), everything else as
/// before.
pub open spec fn completion_of(a: QueryMetrics, m: QueryMetrics) -> bool {
    &&& m.execution_time_ms == (m.end_time - m.start_time) as u32
    &&& m == QueryMetrics { end_time: m.end_time, execution_time_ms: m.execution_time_ms, ..a }
}

impl QueryMetrics {
    /// A copy of the metrics.
    pub fn duplicate(&self) -> (r: QueryMetrics)
        ensures
            r == *self,
    {
        QueryMetrics {
            query_id: self.query_id.clone(),
            query_text: self.query_text.clone(),
            start_time: self.start_time,
            end_time: self.end_time,
            rows_scanned: self.rows_scanned,
            rows_returned: self.rows_returned,
            execution_time_ms: self.execution_time_ms,
            has_index: self.has_index,
            full_scan: self.full_scan,
        }
    }

    /// Metrics of a query that starts now.
    pub fn new(query_id: String, query_text: String) -> (m: Self)
        ensures
            m.query_id == query_id,
            m.query_text == query_text,
            m.end_time == 0,
            m.rows_scanned == 0,
            m.rows_returned == 0,
            m.execution_time_ms == 0,
            !m.has_index,
            !m.full_scan,
    {
        QueryMetrics {
            query_id,
            query_text,
            start_time: current_time_ms(),
            end_time: 0,
            rows_scanned: 0,
            rows_returned: 0,
            execution_time_ms: 0,
            has_index: false,
            full_scan: false,
        }
    }

    /// Ends the query at time `now`: the execution time is the difference
    /// from the start, taken modulo 2^64 and then truncated to 32 bits.
    pub fn complete_at(&mut self, now: u64)
        ensures
            final(self).end_time == now,
            final(self).execution_time_ms == (now - old(self).start_time) as u32,
            completion_of(*old(self), *final(self)),
    {
        self.end_time = now;
        let diff: u64 = now.wrapping_sub(self.start_time);
        let start: u64 = self.start_time;
        assert((diff as u32) == ((now - start) as u32)) by (bit_vector)
            requires
                diff == (if now >= start {
                    now - start
                } else {
                    now - start + 0x1_0000_0000_0000_0000
                }),
        ;
        self.execution_time_ms = diff as u32;
    }

    /// Ends the query now.
    pub fn complete(&mut self)
        ensures
            completion_of(*old(self), *final(self)),
    {
        let now = current_time_ms();
        self.complete_at(now);
    }

    /// Whether the query took longer than the threshold.
    pub fn is_slow(&self, threshold_ms: u32) -> (b: bool)
        ensures
            b == (self.execution_time_ms > threshold_ms),
    {
        self.execution_time_ms > threshold_ms
    }
}

/// The log after a query is offered: a slow one is appended, the oldest
/// being dropped first when the log is full.
pub open spec fn log_after_add(queries: Seq<QueryMetrics>, capacity: usize, threshold_ms: u32, m: QueryMetrics) -> Seq<
    QueryMetrics,
> {
    if m.execution_time_ms > threshold_ms {
        if queries.len() >= capacity {
            queries.drop_first().push(m)
        } else {
            queries.push(m)
        }
    } else {
        queries
    }
}


/// The slow query log keeps its promises: it never grows beyond its
/// capacity, it holds only queries slower than its threshold, and a slow
/// query offered to it becomes its newest entry.
pub proof fn lemma_slow_log_bounded(queries: Seq<QueryMetrics>, capacity: usize, threshold_ms: u32, m: QueryMetrics)
    requires
        capacity > 0,
        queries.len() <= capacity,
        forall|i: int| 0 <= i < queries.len() ==> (#[trigger] queries[i]).execution_time_ms > threshold_ms,
    ensures
        log_after_add(queries, capacity, threshold_ms, m).len() <= capacity,
        forall|i: int|
            0 <= i < log_after_add(queries, capacity, threshold_ms, m).len() ==> (#[trigger] log_after_add(
                queries,
                capacity,
                threshold_ms,
                m,
            )[i]).execution_time_ms > threshold_ms,
        m.execution_time_ms > threshold_ms ==> log_after_add(queries, capacity, threshold_ms, m).last() == m,
{
    let r = log_after_add(queries, capacity, threshold_ms, m);
    if m.execution_time_ms > threshold_ms && queries.len() >= capacity {
        assert forall|i: int| 0 <= i < r.len() implies (#[trigger] r[i]).execution_time_ms > threshold_ms by {
            if i < r.len() - 1 {
                assert(r[i] == queries[i + 1]);
            }
        }
    } else if m.execution_time_ms > threshold_ms {
        assert forall|i: int| 0 <= i < r.len() implies (#[trigger] r[i]).execution_time_ms > threshold_ms by {
            if i < r.len() - 1 {
                assert(r[i] == queries[i]);
            }
        }
    }
}

/// Whether position `i` holds the slowest query, the last one among equals.
pub open spec fn is_slowest(queries: Seq<QueryMetrics>, i: int) -> bool {
    &&& 0 <= i < queries.len()
    &&& forall|j: int| 0 <= j < queries.len() ==> (#[trigger] queries[j]).execution_time_ms <= queries[i].execution_time_ms
    &&& forall|j: int| i < j < queries.len() ==> (#[trigger] queries[j]).execution_time_ms < queries[i].execution_time_ms
}

/// A bounded log of the queries slower than a threshold.
#[derive(Debug, Clone)]
pub struct SlowQueryLog {
    pub threshold_ms: u32,
    pub capacity: usize,
    pub queries: Vec<QueryMetrics>,
}

impl SlowQueryLog {
    /// An empty log.
    pub fn new(threshold_ms: u32, capacity: usize) -> (l: Self)
        ensures
            l.threshold_ms == threshold_ms,
            l.capacity == capacity,
            l.queries@.len() == 0,
    {
        SlowQueryLog { threshold_ms, capacity, queries: Vec::new() }
    }

    /// Logs a query if it is slow, dropping the oldest entry when full.
    pub fn add_query(&mut self, metrics: QueryMetrics)
        requires
            old(self).capacity == 0 && metrics.execution_time_ms > old(self).threshold_ms ==> old(self).queries@.len() > 0,
        ensures
            final(self).threshold_ms == old(self).threshold_ms,
            final(self).capacity == old(self).capacity,
            final(self).queries@ == log_after_add(old(self).queries@, old(self).capacity, old(self).threshold_ms, metrics),
    {
        if metrics.is_slow(self.threshold_ms) {
            if self.queries.len() >= self.capacity {
                self.queries.remove(0);
            }
            self.queries.push(metrics);
        }
    }

    /// The logged queries, oldest first.
    pub fn get_slow_queries(&self) -> (r: &[QueryMetrics])
        ensures
            r@ == self.queries@,
    {
        self.queries.as_slice()
    }

    /// The slowest logged query (the latest among equally slow ones).
    pub fn get_slowest_query(&self) -> (r: Option<&QueryMetrics>)
        ensures
            self.queries@.len() == 0 <==> r is None,
            r is Some ==> exists|i: int| is_slowest(self.queries@, i) && *r->0 == self.queries@[i],
    {
        if self.queries.len() == 0 {
            return None;
        }
        let mut best: usize = 0;
        let mut i: usize = 1;
        while i < self.queries.len()
            invariant
                1 <= i <= self.queries@.len(),
                best < i,
                forall|j: int| 0 <= j < i ==> (#[trigger] self.queries@[j]).execution_time_ms <= self.queries@[best as int].execution_time_ms,
                forall|j: int| best < j < i ==> (#[trigger] self.queries@[j]).execution_time_ms < self.queries@[best as int].execution_time_ms,
            decreases self.queries@.len() - i,
        {
            if self.queries[i].execution_time_ms >= self.queries[best].execution_time_ms {
                best = i;
            }
            i += 1;
        }
        proof {
            assert(is_slowest(self.queries@, best as int));
        }
        Some(&self.queries[best])
    }

    /// Empties the log.
    pub fn clear(&mut self)
        ensures
            final(self).queries@.len() == 0,
            final(self).threshold_ms == old(self).threshold_ms,
            final(self).capacity == old(self).capacity,
    {
        self.queries.clear();
    }
}

/// The health of the database.
#[derive(Debug, Clone, Copy, PartialEq, Eq, Structural)]
pub enum HealthStatus {
    Healthy,
    Degraded,
    Unhealthy,
}

impl HealthStatus {
    /// The status's name.
    pub fn as_str(&self) -> (s: &'static str)
        ensures
            s@ == match *self {
                HealthStatus::Healthy => "Healthy"@,
                HealthStatus::Degraded => "Degraded"@,
                HealthStatus::Unhealthy => "Unhealthy"@,
            },
    {
        match self {
            HealthStatus::Healthy => "Healthy",
            HealthStatus::Degraded => "Degraded",
            HealthStatus::Unhealthy => "Unhealthy",
        }
    }
}

/// Connection pool counters.
#[derive(Debug, Clone)]
pub struct ConnectionStats {
    pub total_connections: u32,
    pub active_connections: u32,
    pub idle_connections: u32,
    pub waiting_connections: u32,
    pub peak_connections: u32,
}

impl ConnectionStats {
    /// All counters zero.
    pub fn new() -> (s: Self)
        ensures
            s.total_connections == 0,
            s.active_connections == 0,
            s.idle_connections == 0,
            s.waiting_connections == 0,
            s.peak_connections == 0,
    {
        ConnectionStats {
            total_connections: 0,
            active_connections: 0,
            idle_connections: 0,
            waiting_connections: 0,
            peak_connections: 0,
        }
    }
}

/// The threshold, in milliseconds, above which the monitor counts a query as
/// slow.
pub const SLOW_QUERY_MS: u32 = 500;

/// Counters over all queries.
#[derive(Debug, Clone)]
pub struct PerformanceMonitor {
    pub total_queries: u64,
    pub total_errors: u64,
    pub total_rows_processed: i64,
    pub avg_query_time_ms: u32,
    pub slow_query_count: u64,
    pub connection_stats: ConnectionStats,
}

impl PerformanceMonitor {
    /// All counters zero.
    pub fn new() -> (m: Self)
        ensures
            m.total_queries == 0,
            m.total_errors == 0,
            m.total_rows_processed == 0,
            m.avg_query_time_ms == 0,
            m.slow_query_count == 0,
            m.connection_stats.total_connections == 0,
            m.connection_stats.active_connections == 0,
            m.connection_stats.idle_connections == 0,
            m.connection_stats.waiting_connections == 0,
            m.connection_stats.peak_connections == 0,
    {
        PerformanceMonitor {
            total_queries: 0,
            total_errors: 0,
            total_rows_processed: 0,
            avg_query_time_ms: 0,
            slow_query_count: 0,
            connection_stats: ConnectionStats::new(),
        }
    }

    /// Counts a query, its returned rows, and whether it was slow.
    pub fn record_query(&mut self, metrics: &QueryMetrics)
        requires
            old(self).total_queries < u64::MAX,
            i64::MIN <= old(self).total_rows_processed + metrics.rows_returned <= i64::MAX,
            old(self).slow_query_count < u64::MAX,
        ensures
            final(self).total_queries == old(self).total_queries + 1,
            final(self).total_rows_processed == old(self).total_rows_processed + metrics.rows_returned,
            final(self).slow_query_count == old(self).slow_query_count + if metrics.execution_time_ms > SLOW_QUERY_MS {
                1int
            } else {
                0int
            },
            final(self).total_errors == old(self).total_errors,
            final(self).avg_query_time_ms == old(self).avg_query_time_ms,
            final(self).connection_stats == old(self).connection_stats,
    {
        self.total_queries += 1;
        self.total_rows_processed += metrics.rows_returned;
        if metrics.is_slow(SLOW_QUERY_MS) {
            self.slow_query_count += 1;
        }
    }

    /// Counts an error.
    pub fn record_error(&mut self)
        requires
            old(self).total_errors < u64::MAX,
        ensures
            final(self).total_errors == old(self).total_errors + 1,
            final(self).total_queries == old(self).total_queries,
            final(self).total_rows_processed == old(self).total_rows_processed,
            final(self).slow_query_count == old(self).slow_query_count,
    {
        self.total_errors += 1;
    }
}

/// A health sample that can grade itself from its readings.
pub trait HealthSample {
    /// Sets the sample's status from its readings.
    fn update_status(&mut self);
}

/// What the monitor's counters become when a query is counted.
pub open spec fn counted(before: PerformanceMonitor, after: PerformanceMonitor, m: QueryMetrics) -> bool {
    &&& after.total_queries == before.total_queries + 1
    &&& after.total_rows_processed == before.total_rows_processed + m.rows_returned
    &&& after.slow_query_count == before.slow_query_count + if m.execution_time_ms > SLOW_QUERY_MS {
        1int
    } else {
        0int
    }
    &&& after.total_errors == before.total_errors
    &&& after.avg_query_time_ms == before.avg_query_time_ms
}

/// The metrics recorded per query id after one more.
pub open spec fn recorded_after(
    recorded: Map<Seq<char>, Seq<QueryMetrics>>,
    m: QueryMetrics,
) -> Map<Seq<char>, Seq<QueryMetrics>> {
    let id = m.query_id@;
    let list = if recorded.contains_key(id) {
        recorded[id]
    } else {
        Seq::empty()
    };
    recorded.insert(id, list.push(m))
}

/// The most health samples kept.
pub const HEALTH_HISTORY_LIMIT: usize = 1000;

/// Collects query metrics, slow queries, counters and health samples.
#[derive(Debug)]
pub struct TelemetryCollector<H> {
    metrics: StrMap<Vec<QueryMetrics>>,
    slow_queries: SlowQueryLog,
    monitor: PerformanceMonitor,
    health_history: Vec<H>,
}

impl<H> TelemetryCollector<H> {
    /// The metrics recorded for each query id, in the order collected.
    pub closed spec fn recorded(&self) -> Map<Seq<char>, Seq<QueryMetrics>> {
        self.metrics@.map_values(|v: Vec<QueryMetrics>| v@)
    }

    /// The slow query log.
    pub closed spec fn log(&self) -> SlowQueryLog {
        self.slow_queries
    }

    /// The counters.
    pub closed spec fn counters(&self) -> PerformanceMonitor {
        self.monitor
    }

    /// The health samples, oldest first.
    pub closed spec fn history(&self) -> Seq<H> {
        self.health_history@
    }

    /// The log has room, and at most `HEALTH_HISTORY_LIMIT` samples are kept.
    pub closed spec fn wf(&self) -> bool {
        &&& self.slow_queries.capacity > 0
        &&& self.health_history@.len() <= HEALTH_HISTORY_LIMIT
    }

    /// A collector with nothing collected, logging queries slower than the
    /// threshold (up to 100 of them).
    pub fn new(slow_query_threshold_ms: u32) -> (t: Self)
        ensures
            t.wf(),
            t.recorded() == Map::<Seq<char>, Seq<QueryMetrics>>::empty(),
            t.log().threshold_ms == slow_query_threshold_ms,
            t.log().capacity == 100,
            t.log().queries@.len() == 0,
            t.counters().total_queries == 0,
            t.counters().total_errors == 0,
            t.counters().slow_query_count == 0,
            t.counters().total_rows_processed == 0,
            t.history().len() == 0,
    {
        let t = TelemetryCollector {
            metrics: StrMap::new(),
            slow_queries: SlowQueryLog::new(slow_query_threshold_ms, 100),
            monitor: PerformanceMonitor::new(),
            health_history: Vec::new(),
        };
        assert(t.recorded() =~= Map::<Seq<char>, Seq<QueryMetrics>>::empty());
        t
    }

    /// Ends a query now and collects it: it is offered to the slow query
    /// log, counted, and recorded under its id.
    pub fn collect_query_metrics(&mut self, metrics: QueryMetrics)
        requires
            old(self).wf(),
            old(self).counters().total_queries < u64::MAX,
            old(self).counters().slow_query_count < u64::MAX,
            i64::MIN <= old(self).counters().total_rows_processed + metrics.rows_returned <= i64::MAX,
        ensures
            final(self).wf(),
            final(self).history() == old(self).history(),
            exists|m: QueryMetrics| {
                &&& completion_of(metrics, m)
                &&& final(self).recorded() == recorded_after(old(self).recorded(), m)
                &&& final(self).log().queries@ == log_after_add(
                    old(self).log().queries@,
                    old(self).log().capacity,
                    old(self).log().threshold_ms,
                    m,
                )
                &&& final(self).log().capacity == old(self).log().capacity
                &&& final(self).log().threshold_ms == old(self).log().threshold_ms
                &&& counted(old(self).counters(), final(self).counters(), m)
            },
    {
        let mut m = metrics;
        m.complete();
        let copy = m.duplicate();
        self.slow_queries.add_query(copy);
        self.monitor.record_query(&m);
        let id = m.query_id.clone();
        let ghost before = self.metrics@;
        let ghost mm = m;
        let mut list = match self.metrics.remove(id.as_str()) {
            Some(l) => l,
            None => Vec::new(),
        };
        list.push(m);
        let _ = self.metrics.insert(id, list);
        proof {
            let r = recorded_after(old(self).recorded(), mm);
            assert(self.recorded() =~= r);
        }
    }

    /// Grades a health sample and keeps it, dropping the oldest when more
    /// than `HEALTH_HISTORY_LIMIT` would be kept.
    pub fn collect_health_check(&mut self, health: H)
        where H: HealthSample,
        requires
            old(self).wf(),
        ensures
            final(self).wf(),
            final(self).recorded() == old(self).recorded(),
            final(self).log() == old(self).log(),
            final(self).counters() == old(self).counters(),
            old(self).history().len() < HEALTH_HISTORY_LIMIT ==> final(self).history().len() == old(self).history().len() + 1
                && final(self).history().drop_last() == old(self).history(),
            old(self).history().len() == HEALTH_HISTORY_LIMIT ==> final(self).history().len() == HEALTH_HISTORY_LIMIT
                && final(self).history().drop_last() == old(self).history().drop_first(),
    {
        let mut h = health;
        h.update_status();
        let ghost before = self.health_history@;
        self.health_history.push(h);
        if self.health_history.len() > HEALTH_HISTORY_LIMIT {
            self.health_history.remove(0);
            proof {
                assert(self.health_history@.drop_last() =~= before.drop_first());
            }
        } else {
            proof {
                assert(self.health_history@.drop_last() =~= before);
            }
        }
    }

    /// The metrics recorded for a query id.
    pub fn get_query_metrics(&self, query_id: &str) -> (r: Option<&Vec<QueryMetrics>>)
        ensures
            match r {
                Some(v) => self.recorded().contains_key(query_id@) && v@ == self.recorded()[query_id@],
                None => !self.recorded().contains_key(query_id@),
            },
    {
        self.metrics.get(query_id)
    }

    /// The logged slow queries, oldest first.
    pub fn get_slow_queries(&self) -> (r: &[QueryMetrics])
        ensures
            r@ == self.log().queries@,
    {
        self.slow_queries.get_slow_queries()
    }

    /// The counters.
    pub fn get_performance_stats(&self) -> (r: &PerformanceMonitor)
        ensures
            *r == self.counters(),
    {
        &self.monitor
    }

    /// The newest health sample.
    pub fn get_latest_health(&self) -> (r: Option<&H>)
        ensures
            self.history().len() == 0 ==> r is None,
            self.history().len() > 0 ==> r == Some(&self.history().last()),
    {
        if self.health_history.len() == 0 {
            None
        } else {
            Some(&self.health_history[self.health_history.len() - 1])
        }
    }

    /// The health samples, oldest first.
    pub fn get_health_history(&self) -> (r: &[H])
        ensures
            r@ == self.history(),
    {
        self.health_history.as_slice()
    }
}

} // verus!
