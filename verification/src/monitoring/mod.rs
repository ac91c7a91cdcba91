//! Monitoring: query metrics, the slow query log and performance counters.

pub mod telemetry;
