//! An incremental index of timed updates: batches, traces, a shared
//! reader/writer broker for traces, and the operators built on them.
//!
//! Logical times are `u64` values under their usual total order, keys and
//! values are `u64`, and the weight of an update is an `i64`.

pub mod frontier;
pub mod consolidate;
pub mod identifier;

pub mod batch;
pub mod cursor;
pub mod trace;
pub mod agent;

pub mod arrange;
pub mod import;
pub mod lookup;
pub mod enter;
pub mod freeze;
