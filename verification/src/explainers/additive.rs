//! Explanations read directly from additive (generalised additive) models.
use vstd::prelude::*;

verus! {

/// Explainer for generalized additive models: the callback returns base
/// values and already-separated per-feature term contributions.
pub struct AdditiveExplainer<F> {
    decompose: F,
}

impl<F> AdditiveExplainer<F> {
    /// The decomposition callback.
    pub closed spec fn spec_decompose(&self) -> F {
        self.decompose
    }

    /// Wraps a decomposition callback.
    pub fn new(decompose: F) -> (r: Self)
        ensures
            r.spec_decompose() == decompose,
    {
        Self { decompose }
    }

    /// The decomposition callback.
    pub fn decompose(&self) -> (r: &F)
        ensures
            *r == self.spec_decompose(),
    {
        &self.decompose
    }
}

} // verus!
