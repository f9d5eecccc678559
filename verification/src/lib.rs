//! Reconciles planned work-hour commitments against recorded time-tracking
//! entries, producing per-client / per-project pacing figures.
//!
//! The crate turns a work-day policy for a period of calendar days into a
//! per-day expectation curve, pro-rates expected hours up to "now", folds
//! externally recorded time entries into per-period buckets, and merges the
//! buckets into all-time totals.

pub mod accrual;
pub mod dates;
pub mod fraction;
pub mod order;
pub mod processor;
pub mod table_utils;
pub mod totals;
pub mod types;
