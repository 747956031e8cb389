//! Tracks the time spent working on files: a log of `enter` / `leave`
//! events is reduced to intervals, and the intervals are summed up.

pub mod aggregate;
pub mod display;
pub mod ingest;
pub mod pairing;
pub mod parse;

pub use display::{millis_to_readable, FormatError};
