//! Read models: bounded keyset scans over declared read-model tables.
pub mod scan;
pub mod sql;
