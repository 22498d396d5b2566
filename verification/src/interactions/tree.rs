//! Configuration of exact pairwise interactions for native tree ensembles.
use vstd::prelude::*;

verus! {

/// Exact polynomial-time pairwise Shapley interactions for a tree ensemble
/// of type `T`, limited to `max_features` features.
pub struct TreeInteractionExplainer<'a, T> {
    model: &'a T,
    max_features: usize,
}

impl<'a, T> TreeInteractionExplainer<'a, T> {
    /// The explained ensemble.
    pub closed spec fn spec_model(&self) -> &'a T {
        self.model
    }

    /// The largest supported feature count.
    pub closed spec fn spec_max_features(&self) -> usize {
        self.max_features
    }

    /// An explainer for `model` supporting up to 1024 features.
    pub fn new(model: &'a T) -> (r: Self)
        ensures
            r.spec_model() == model,
            r.spec_max_features() == 1024,
    {
        Self { model, max_features: 1024 }
    }

    /// Sets the largest supported feature count.
    pub fn with_max_features(self, n: usize) -> (r: Self)
        ensures
            r.spec_model() == self.spec_model(),
            r.spec_max_features() == n,
    {
        Self { max_features: n, ..self }
    }

    /// The explained ensemble.
    pub fn model(&self) -> (r: &'a T)
        ensures
            r == self.spec_model(),
    {
        self.model
    }

    /// The largest supported feature count.
    pub fn max_features(&self) -> (n: usize)
        ensures
            n == self.spec_max_features(),
    {
        self.max_features
    }
}

} // verus!
