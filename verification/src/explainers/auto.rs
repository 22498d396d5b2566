//! Choosing between exact and kernel estimation.
use vstd::prelude::*;

verus! {

/// The algorithm an automatic explainer uses for its feature count.
#[derive(Debug, Clone, Copy, PartialEq, Eq, Structural)]
pub enum AutoAlgorithm {
    Exact,
    Kernel,
}

impl AutoAlgorithm {
    /// Exact enumeration when there are at most `exact_threshold` features;
    /// Kernel SHAP otherwise.
    pub fn select(n_features: usize, exact_threshold: usize) -> (a: Self)
        ensures
            a == if n_features <= exact_threshold {
                AutoAlgorithm::Exact
            } else {
                AutoAlgorithm::Kernel
            },
    {
        if n_features <= exact_threshold {
            AutoAlgorithm::Exact
        } else {
            AutoAlgorithm::Kernel
        }
    }
}

} // verus!
