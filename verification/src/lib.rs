//! Statistics, decisions and text layout of a command benchmarking tool.
//!
//! Timings are held as whole nanoseconds; every statistic is computed exactly
//! over integers, as a fraction where it is not a whole number.
pub mod natural;
pub mod stats;
pub mod runner;
pub mod compare;
pub mod output;
