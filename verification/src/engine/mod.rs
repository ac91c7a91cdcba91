//! The engine: authentication, constraints, distributed execution,
//! replication and sharding.

pub mod analytics;
pub mod auth;
pub mod constraints;
pub mod distributed;
pub mod indexing;
pub mod query_planner;
pub mod replication;
pub mod sharding;
pub mod multimodel;
pub mod query_cache;
