use vstd::prelude::*;

verus! {

/// One sample of a series.
#[derive(Debug, Clone, Copy, PartialEq, Eq, Structural)]
pub struct TimeSeriesPoint {
    /// When the sample was taken.
    pub timestamp: i64,
    /// The IEEE 754 bit pattern of the sampled double.
    pub value_bits: u64,
}

/// Identifies one series among several.
pub type SeriesId = u64;

} // verus!
