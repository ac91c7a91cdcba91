//! The kinds of engine metric and the health levels that analytics reports.

use vstd::prelude::*;

verus! {

/// The kinds of engine metric.
#[derive(Debug, Clone, Copy, PartialEq, Eq, Structural, Hash)]
pub enum MetricType {
    QueryCount,
    QueryLatency,
    InsertCount,
    DeleteCount,
    UpdateCount,
    CacheHitRate,
    MemoryUsage,
    DiskUsage,
    ConnectionCount,
    TransactionCount,
    LockWaits,
    NetworkLatency,
}

/// The health levels of the engine.
#[derive(Debug, Clone, Copy, PartialEq, Eq, Structural)]
pub enum HealthStatus {
    Healthy,
    Warning,
    Critical,
    Down,
}

} // verus!
