//! Pairwise Shapley interaction configurations and their selection helpers.
pub mod exact;
pub mod tree;

pub use exact::ExactInteractionExplainer;
pub use tree::TreeInteractionExplainer;
