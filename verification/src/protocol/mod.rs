//! Client protocols: the framing of the PostgreSQL wire protocol.

pub mod rest_api;
pub mod tcp;
