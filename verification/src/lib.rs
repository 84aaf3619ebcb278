//! A small SQL database: a lexer and parser for a subset of SQL, a planner,
//! executors, and a multi-version key/value store underneath.

pub mod error;
pub mod sql;
pub mod storage;
