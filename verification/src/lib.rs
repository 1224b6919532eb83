//! Per-bin statistics of a second variable over equal-width bins of a first
//! one, with every decision that does not need floating-point arithmetic
//! verified.
//!
//! Floating-point samples are carried as their IEEE-754 binary64 bit
//! patterns (`u64`). The modules here decide everything that is a matter of
//! order, counting, selection and parsing structure: which bin a value falls
//! in, how many values each bin holds, which values are a bin's extreme or its
//! two middle values, how a text table splits into fields, and whether a
//! request is well formed. The arithmetic on the values themselves (edges,
//! sums, means, square roots, rounding) is done by the program around this
//! library.

pub mod binned;
pub mod edges;
pub mod ieee;
pub mod input;
pub mod request;
pub mod statistic;

pub use statistic::{Stat, Statistic};
