//! Core of a personal time tracker: minute-granularity durations,
//! clock entries with an overlap-free store invariant, a clock-in /
//! clock-out state machine, monthly aggregation, and parsing of
//! user-supplied start times.
//!
//! Everything here is verified. Reading and writing the store, the
//! command line, and table rendering live outside this crate.

pub mod clock;
pub mod digits;
pub mod duration;
pub mod entry;
pub mod error;
pub mod parse;
pub mod summary;
pub mod timestamp;
