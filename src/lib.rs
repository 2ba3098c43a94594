//! An append-only event log with an index by aggregate. A log is a sequence of
//! frames, each a 4-byte big-endian length followed by that many bytes of a
//! serialized record. The engine finds the log's frames, stops cleanly at a
//! trailing frame that is not whole, groups frame offsets by the records'
//! aggregate identifiers, and loads one aggregate's records by offset.
pub mod frame;
pub mod record;
pub mod storage;
