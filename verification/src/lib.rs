//! Model explainability with Shapley values: the verified combinatorial and
//! structural core (coalitions, partitions, causal orders, metadata and
//! configuration validation).
pub mod analysis;
pub mod error;

pub use error::{checked_f64_shape, Result, ShapError};
pub mod evaluation;
pub mod link;

pub use evaluation::EvaluationConfig;
pub use link::Link;
pub mod explainers;

pub use explainers::CausalGraph;
pub mod coalition;
pub mod kernel;
pub mod metadata;

pub use metadata::{FeatureKind, FeatureMetadata, OutputKind, OutputMetadata};
pub mod explanation;

pub use explanation::AttributionSemantics;
pub mod interactions;
pub mod explainer;

pub use explainer::{ExplainerExt, MetadataExplainer};
pub mod model;

pub use model::{DeviceModel, ExecutionDevice, FnAcceleratedModel, FnModel, FnOwnedAcceleratedModel};
pub mod masker;

pub use masker::{FnMasker, FnStreamingMasker, GroupedMasker, Masker};
pub mod background;
pub mod grouping;
pub mod parallel;
pub mod prediction_cache;
pub mod random;

pub use background::BackgroundSampling;
pub use masker::SpecialTokenPolicy;
