//! The abstract contract every metric implements.

use vstd::prelude::*;
use crate::image::Image;

verus! {

/// Common lifecycle of a quality metric: read back the quality map stored by
/// the most recent `compute`, drop per-call state, and report whether usable
/// reference or model state is present.  Each metric's own `compute` lives in
/// its per-metric trait, since the scores mean different things.
pub trait QualityBase: Sized {
    /// Whether the metric holds usable reference or model state.
    spec fn ready(&self) -> bool;

    /// The quality map stored by the most recent `compute`, if any.
    spec fn map_view(&self) -> Option<Image>;

    /// The metric with only its per-call state dropped: what `clear`
    /// leaves behind.  Reference and model state is untouched.
    spec fn cleared(&self) -> Self;

    /// Returns the quality map generated during the most recent `compute`
    /// call; `None` if `compute` has not run since construction or the last
    /// `clear`.  Asking before any `compute` is not an error.
    fn get_quality_map(&self) -> (r: &Option<Image>)
        ensures
            *r == self.map_view(),
    ;

    /// Drops the cached quality map.  Reference and model state is kept.
    fn clear(&mut self)
        ensures
            *final(self) == old(self).cleared(),
            final(self).map_view() is None,
            final(self).ready() == old(self).ready(),
    ;

    /// True when the metric has no usable reference or model state.
    fn empty(&self) -> (r: bool)
        ensures
            r == !self.ready(),
    ;
}

} // verus!
