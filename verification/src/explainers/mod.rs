//! Explainer configurations and the combinatorial structures they rely on.
pub mod additive;
pub mod auto;
pub mod causal;
pub mod clustering;
pub mod exact;
pub mod kernel;
pub mod input_checks;
pub mod kernel_coalitions;
pub mod coalition_sampler;
pub mod partition;
pub mod permutation;
pub mod sampling;
pub mod tree;

pub use additive::AdditiveExplainer;
pub use auto::AutoAlgorithm;
pub use causal::{CausalExplainer, CausalGraph};
pub use exact::ExactExplainer;
pub use permutation::PermutationExplainer;
pub use sampling::SamplingExplainer;
pub use kernel::KernelSolver;
pub use partition::{FeaturePartition, HierarchicalPartitionExplainer, PartitionExplainer, PartitionNode, PartitionTree};
pub use tree::TreeExplainer;
