//! Storage: caching and buffer management, MVCC, transactions and persistence.

pub mod caching;
pub mod mvcc;
pub mod transactions;
pub mod persistence;
