//! Exact TreeSHAP configuration for a tree ensemble.
use vstd::prelude::*;

verus! {

/// Exact polynomial-time TreeSHAP for a tree ensemble of type `T`.
pub struct TreeExplainer<'a, T> {
    model: &'a T,
}

impl<'a, T> TreeExplainer<'a, T> {
    /// The explained ensemble.
    pub closed spec fn spec_model(&self) -> &'a T {
        self.model
    }

    /// An explainer for `model`.
    pub fn new(model: &'a T) -> (r: Self)
        ensures
            r.spec_model() == model,
    {
        Self { model }
    }

    /// The explained ensemble.
    pub fn model(&self) -> (r: &'a T)
        ensures
            r == self.spec_model(),
    {
        self.model
    }
}

} // verus!
