//! Query processing: common table expressions and subqueries.

pub mod aggregates;
pub mod cte;
pub mod dml;
pub mod executor;
pub mod fulltext;
pub mod functions;
pub mod joins;
pub mod planning;
pub mod window_functions;
pub mod optimization;
pub mod parser;
