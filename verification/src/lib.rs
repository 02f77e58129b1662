//! The storage of a shard: an append-only log of records, one record to a line, cut into
//! segment files that are named after the position of their first byte in the log.

pub mod dir;
pub mod line;
pub mod log;
pub mod number;
pub mod order;
pub mod reader;
pub mod record;
pub mod request;
pub mod writer;
