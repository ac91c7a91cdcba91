//! NexusDB: a multi-model database engine with MVCC transactions, Raft-style
//! replication, consistent-hash sharding, query planning and full-text search.

pub mod util;
pub mod text;
pub mod collections;
pub mod idmap;
pub mod types;
pub mod storage;
pub mod engine;
pub mod monitoring;
pub mod protocol;
pub mod query;
pub mod sql;
