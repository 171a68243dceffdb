//! Per-partition document engine: a coordinator that serializes document
//! writes, keeps a primary key-value table and a derived search index in
//! lock-step with a replicated operation log, and recovers either store by
//! replaying the log from its persisted sequence number.

pub mod doc;
pub mod engine;
pub mod json;
pub mod latch;
pub mod oplog;
pub mod table;
