//! Forecasting engine for an invitation-pool admission process.
//!
//! The library models a waiting pool that is partitioned into score bands,
//! separates province-specific invitation rounds from the general timeline,
//! estimates entry rates and category shares from history, and simulates the
//! pool forward to predict a score cutoff per category and forecast date.

use vstd::prelude::*;

pub mod category;
pub mod category_analyzer;
pub mod chart;
pub mod data;
pub mod date;
pub mod non_pnp;
pub mod predict;
pub mod rate;
pub mod score_pool;

verus! {

/// Number of score bands in the fixed band schema.
pub const NUM_BANDS: usize = 7;

/// How far back, in days, the analyses look from the latest record.
pub const LOOKBEHIND_DAYS: i64 = 365;

/// Conditions the analyses report.
#[derive(Clone, Copy, Debug, PartialEq, Eq, Structural)]
pub enum AnalyzeError {
    /// A score-vector operation was asked of vectors whose band counts
    /// differ from the fixed schema.
    ShapeMismatch,
    /// A category was looked up by an index outside the closed enumeration.
    UnknownCategory,
    /// No pool snapshot and no invitation round at all: no date anchor.
    EmptyHistory,
}

} // verus!
