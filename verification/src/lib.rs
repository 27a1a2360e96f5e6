//! Bandwidth control and reporting for a network throughput tester.
//!
//! - [`limiter`] decides how long a sender waits, so that a session keeps to its
//!   rate.
//! - [`state`] keeps the counters, the byte budget and the totals of a session.
//! - [`parse`] reads a bandwidth from text.
//! - [`parse_laws`] states which texts [`parse`] accepts, and what they stand for.
//! - [`report`] writes bandwidths and status lines.
//! - [`report_laws`] states what can be read off what [`report`] writes.
//! - [`double`] and [`decimal`] hold the arithmetic behind the last two:
//!   double-precision rounding in integers, and decimal digits.
//!
//! Nothing here reads a clock, sleeps, locks or prints: callers hand in the time
//! and do what the answers say.

pub mod decimal;
pub mod double;
pub mod limiter;
pub mod parse;
pub mod parse_laws;
pub mod report;
pub mod report_laws;
pub mod state;
