use nexus_db::monitoring::telemetry::{
    ConnectionStats, HealthSample, HealthStatus, MetricType, PerformanceMonitor, QueryMetrics, SlowQueryLog,
    TelemetryCollector,
};

fn metrics_taking(id: &str, ms: u32) -> QueryMetrics {
    let mut m = QueryMetrics::new(id.to_string(), "SELECT *".to_string());
    m.execution_time_ms = ms;
    m
}

#[test]
fn test_query_metrics_creation() {
    let metrics = QueryMetrics::new("q1".to_string(), "SELECT * FROM users".to_string());
    assert_eq!(metrics.query_id, "q1");
    assert_eq!(metrics.execution_time_ms, 0);
}

#[test]
fn test_query_metrics_is_slow() {
    let mut metrics = QueryMetrics::new("q1".to_string(), "SELECT *".to_string());
    metrics.execution_time_ms = 1000;
    assert!(metrics.is_slow(500));
    assert!(!metrics.is_slow(2000));
}

#[test]
fn query_at_the_threshold_is_not_slow() {
    assert!(!metrics_taking("q", 500).is_slow(500));
    assert!(metrics_taking("q", 501).is_slow(500));
}

#[test]
fn completing_at_a_time_sets_the_duration() {
    let mut m = QueryMetrics::new("q".to_string(), "SELECT 1".to_string());
    let start = m.start_time;
    m.complete_at(start + 250);
    assert_eq!(m.end_time, start + 250);
    assert_eq!(m.execution_time_ms, 250);
}

#[test]
fn test_slow_query_log_creation() {
    let log = SlowQueryLog::new(500, 10);
    assert_eq!(log.threshold_ms, 500);
    assert_eq!(log.capacity, 10);
}

#[test]
fn test_slow_query_log_add() {
    let mut log = SlowQueryLog::new(500, 10);
    let mut metrics = QueryMetrics::new("q1".to_string(), "SELECT *".to_string());
    metrics.execution_time_ms = 1000;
    log.add_query(metrics);
    assert_eq!(log.get_slow_queries().len(), 1);
}

#[test]
fn test_slow_query_log_capacity() {
    let mut log = SlowQueryLog::new(0, 2);
    for i in 0..3 {
        let mut metrics = QueryMetrics::new(format!("q{}", i), "SELECT *".to_string());
        metrics.execution_time_ms = 100;
        log.add_query(metrics);
    }
    assert_eq!(log.get_slow_queries().len(), 2);
    assert_eq!(log.get_slow_queries()[0].query_id, "q1");
    assert_eq!(log.get_slow_queries()[1].query_id, "q2");
}

#[test]
fn fast_queries_are_not_logged() {
    let mut log = SlowQueryLog::new(500, 10);
    log.add_query(metrics_taking("fast", 10));
    assert!(log.get_slow_queries().is_empty());
    assert!(log.get_slowest_query().is_none());
}

#[test]
fn slowest_query_is_the_latest_of_the_slowest() {
    let mut log = SlowQueryLog::new(0, 10);
    log.add_query(metrics_taking("a", 700));
    log.add_query(metrics_taking("b", 900));
    log.add_query(metrics_taking("c", 900));
    log.add_query(metrics_taking("d", 100));
    assert_eq!(log.get_slowest_query().unwrap().query_id, "c");
    log.clear();
    assert!(log.get_slow_queries().is_empty());
}

#[test]
fn test_performance_monitor_record_query() {
    let mut monitor = PerformanceMonitor::new();
    let metrics = QueryMetrics::new("q1".to_string(), "SELECT *".to_string());
    monitor.record_query(&metrics);
    assert_eq!(monitor.total_queries, 1);
}

#[test]
fn monitor_counts_slow_queries_rows_and_errors() {
    let mut monitor = PerformanceMonitor::new();
    let mut m = metrics_taking("slow", 800);
    m.rows_returned = 12;
    monitor.record_query(&m);
    monitor.record_query(&metrics_taking("fast", 20));
    monitor.record_error();
    assert_eq!(monitor.total_queries, 2);
    assert_eq!(monitor.slow_query_count, 1);
    assert_eq!(monitor.total_rows_processed, 12);
    assert_eq!(monitor.total_errors, 1);
}

#[test]
fn new_connection_stats_are_zero() {
    let stats = ConnectionStats::new();
    assert_eq!(stats.total_connections, 0);
    assert_eq!(stats.active_connections, 0);
}

#[test]
fn test_metric_type_string() {
    assert_eq!(MetricType::Counter.as_str(), "Counter");
    assert_eq!(MetricType::Gauge.as_str(), "Gauge");
    assert_eq!(MetricType::Timer.as_str(), "Timer");
}

#[test]
fn test_health_status_string() {
    assert_eq!(HealthStatus::Healthy.as_str(), "Healthy");
    assert_eq!(HealthStatus::Degraded.as_str(), "Degraded");
    assert_eq!(HealthStatus::Unhealthy.as_str(), "Unhealthy");
}

/// A health sample graded by a CPU reading, as the server's samples are.
#[derive(Debug, Clone, PartialEq)]
struct HealthCheck {
    cpu_usage: f64,
    degraded: bool,
}

impl HealthCheck {
    fn new() -> Self {
        HealthCheck { cpu_usage: 0.0, degraded: false }
    }
}

impl HealthSample for HealthCheck {
    fn update_status(&mut self) {
        self.degraded = self.cpu_usage > 70.0;
    }
}

#[test]
fn test_telemetry_collector_creation() {
    let collector: TelemetryCollector<HealthCheck> = TelemetryCollector::new(500);
    assert_eq!(collector.get_slow_queries().len(), 0);
}

#[test]
fn test_telemetry_collector_collect_metrics() {
    let mut collector: TelemetryCollector<HealthCheck> = TelemetryCollector::new(500);
    let metrics = QueryMetrics::new("q1".to_string(), "SELECT *".to_string());
    collector.collect_query_metrics(metrics);
    assert!(collector.get_query_metrics("q1").is_some());
}

#[test]
fn test_telemetry_collector_health() {
    let mut collector = TelemetryCollector::new(500);
    let health = HealthCheck::new();
    collector.collect_health_check(health);
    assert!(collector.get_latest_health().is_some());
}

#[test]
fn telemetry_keeps_the_newest_thousand_health_samples() {
    let mut collector = TelemetryCollector::new(500);
    for i in 0..1005 {
        let mut h = HealthCheck::new();
        h.cpu_usage = i as f64;
        collector.collect_health_check(h);
    }
    let history = collector.get_health_history();
    assert_eq!(history.len(), 1000);
    assert_eq!(history[0].cpu_usage, 5.0);
    assert_eq!(collector.get_latest_health().unwrap().cpu_usage, 1004.0);
    assert!(collector.get_latest_health().unwrap().degraded);
}

#[test]
fn telemetry_records_each_collection_under_its_id() {
    let mut collector: TelemetryCollector<HealthCheck> = TelemetryCollector::new(0);
    collector.collect_query_metrics(QueryMetrics::new("q".to_string(), "SELECT 1".to_string()));
    let mut slow = QueryMetrics::new("q".to_string(), "SELECT 2".to_string());
    slow.rows_returned = 7;
    collector.collect_query_metrics(slow);
    assert_eq!(collector.get_query_metrics("q").unwrap().len(), 2);
    assert_eq!(collector.get_performance_stats().total_queries, 2);
    assert_eq!(collector.get_performance_stats().total_rows_processed, 7);
    assert!(collector.get_query_metrics("other").is_none());
}
