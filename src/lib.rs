//! Per-process network throughput bookkeeping: byte value types, a
//! fixed-capacity history ring and the tracker that ingests counter
//! snapshots and answers windowed-rate and total queries.

pub mod bytes;
pub mod history_buffer;
pub mod tracker;
pub mod snapshot;
pub mod events;
pub mod table;
