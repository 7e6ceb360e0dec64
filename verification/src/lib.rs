//! Layoff analytics: a connectivity graph over company names and an
//! industry ledger with exact-arithmetic descriptive statistics.
//!
//! All averaging queries return [`ratio::Ratio`] values (exact integer
//! numerator and denominator) so that every result is total and precise;
//! a renderer may divide them out in floating point if it wishes.

pub mod assoc;
pub mod graph;
pub mod ratio;
pub mod relation;
pub mod stats;
