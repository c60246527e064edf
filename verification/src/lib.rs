//! A storage engine for time series: compressed, sorted tables under a write-ahead log.
pub mod compression;
pub mod lsm;
pub mod types;

pub use lsm::engine::TsdbEngine;
pub use types::TimeSeriesPoint;
