//! Error and score types shared by all metrics.

use vstd::prelude::*;

verus! {

/// The ways a metric call can fail.
#[derive(Clone, Copy, Debug, PartialEq, Eq, Structural)]
pub enum QualityError {
    /// An empty or malformed image buffer was supplied.
    InvalidInput,
    /// A comparison image's size or channel count disagrees with the stored
    /// reference (full-reference metrics only).
    DimensionMismatch,
    /// BRISQUE model or range data is missing or structurally invalid.
    ModelLoad,
}

/// An exact rational score.  The value is `num / den`; `den` is positive.
/// Ratios are kept unreduced so that contracts can state `num` and `den`
/// exactly.
#[derive(Clone, Copy, Debug, PartialEq, Eq, Structural)]
pub struct Ratio {
    pub num: i128,
    pub den: i128,
}

} // verus!
