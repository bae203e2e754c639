//! Tails a growing text log, extracts fixed-point time-series samples from
//! lines that match configured patterns, keeps a duration-bounded history and
//! hands each consumer only the blocks it has not seen yet.

pub mod config;
pub mod cursor;
pub mod fixed;
pub mod logrecord;
pub mod once;
pub mod pattern;
pub mod retention;
pub mod tail;
pub mod text;
