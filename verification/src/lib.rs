//! Sequential modification-time scheduling for the files of one directory.
//!
//! The library holds the verified core of a small command-line utility:
//! it validates a requested calendar date and clock time, converts them to
//! an absolute instant anchored at a UTC offset, orders directory entries
//! by name, and lays out one planned instant per entry, each exactly one
//! configured step after the previous one.

pub mod calendar;
pub mod clock;
pub mod config;
pub mod confirm;
pub mod entries;
pub mod schedule;
