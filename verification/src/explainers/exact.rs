//! Exact interventional Shapley values configuration.
use vstd::prelude::*;
use crate::error::{decimal, decimal_text, is_dimension_mismatch, is_invalid_configuration, Result, ShapError};
use crate::evaluation::EvaluationConfig;
use crate::link::Link;

verus! {

/// Exact interventional Shapley values over every coalition of at most
/// `max_features` features.
pub struct ExactExplainer<M, K> {
    model: M,
    masker: K,
    max_features: usize,
    evaluation: EvaluationConfig,
    link: Link,
}

impl<M, K> ExactExplainer<M, K> {
    /// The prediction model.
    pub closed spec fn spec_model(&self) -> M {
        self.model
    }

    /// The masker.
    pub closed spec fn spec_masker(&self) -> K {
        self.masker
    }

    /// The largest number of features explained exactly.
    pub closed spec fn spec_max_features(&self) -> usize {
        self.max_features
    }

    /// The coalition evaluation limits.
    pub closed spec fn spec_evaluation(&self) -> EvaluationConfig {
        self.evaluation
    }

    /// The output transform.
    pub closed spec fn spec_link(&self) -> Link {
        self.link
    }

    /// An explainer for at most 20 features, evaluating coalitions in batches
    /// of 64 with a `2^20`-entry cache and no row limit, in the identity link.
    pub fn from_masker(model: M, masker: K) -> (r: Self)
        ensures
            r.spec_model() == model,
            r.spec_masker() == masker,
            r.spec_max_features() == 20,
            r.spec_evaluation() == (EvaluationConfig { coalition_batch_size: 64, cache_capacity: 1048576, max_model_rows: None }),
            r.spec_link() == Link::Identity,
    {
        Self { model, masker, max_features: 20, evaluation: EvaluationConfig { coalition_batch_size: 64, cache_capacity: 1048576, max_model_rows: None }, link: Link::Identity }
    }

    /// Sets the largest number of features.
    pub fn with_max_features(self, value: usize) -> (r: Self)
        ensures
            r.spec_model() == self.spec_model(),
            r.spec_masker() == self.spec_masker(),
            r.spec_max_features() == value,
            r.spec_evaluation() == self.spec_evaluation(),
            r.spec_link() == self.spec_link(),
    {
        Self { max_features: value, ..self }
    }

    /// Sets the coalition evaluation limits.
    pub fn with_evaluation_config(self, value: EvaluationConfig) -> (r: Self)
        ensures
            r.spec_model() == self.spec_model(),
            r.spec_masker() == self.spec_masker(),
            r.spec_max_features() == self.spec_max_features(),
            r.spec_evaluation() == value,
            r.spec_link() == self.spec_link(),
    {
        Self { evaluation: value, ..self }
    }

    /// Sets the output transform.
    pub fn with_link(self, value: Link) -> (r: Self)
        ensures
            r.spec_model() == self.spec_model(),
            r.spec_masker() == self.spec_masker(),
            r.spec_max_features() == self.spec_max_features(),
            r.spec_evaluation() == self.spec_evaluation(),
            r.spec_link() == value,
    {
        Self { link: value, ..self }
    }

    /// The prediction model.
    pub fn model(&self) -> (r: &M)
        ensures
            *r == self.spec_model(),
    {
        &self.model
    }

    /// The masker.
    pub fn masker(&self) -> (r: &K)
        ensures
            *r == self.spec_masker(),
    {
        &self.masker
    }

    /// The largest number of features explained exactly.
    pub fn max_features(&self) -> (r: usize)
        ensures
            r == self.spec_max_features(),
    {
        self.max_features
    }

    /// The coalition evaluation limits.
    pub fn evaluation(&self) -> (r: EvaluationConfig)
        ensures
            r == self.spec_evaluation(),
    {
        self.evaluation
    }

    /// The output transform.
    pub fn link(&self) -> (r: Link)
        ensures
            r == self.spec_link(),
    {
        self.link
    }

}

/// The message for an exact explanation over too many features.
pub open spec fn exact_limit_message(max_features: usize) -> Seq<char> {
    "exact SHAP supports at most "@ + decimal(max_features as nat) + " features"@
}

impl<M, K> ExactExplainer<M, K> {
    /// Checks a data matrix of `rows` by `cols` against a masker with `m`
    /// coalition players over `n_input` input columns, in the order: some
    /// rows, `n_input` columns, `m` within the feature limit and below 63.
    pub fn check_input(&self, m: usize, n_input: usize, rows: usize, cols: usize) -> (r: Result<()>)
        ensures
            r is Ok <==> rows > 0 && cols == n_input && m <= self.spec_max_features() && m < 63,
            rows == 0 ==> r == Err::<(), ShapError>(ShapError::EmptyData),
            rows > 0 && cols != n_input ==> r is Err && is_dimension_mismatch(
                r->Err_0,
                decimal(n_input as nat) + " input features"@,
                decimal(cols as nat) + " features"@,
            ),
            rows > 0 && cols == n_input && (m > self.spec_max_features() || m >= 63) ==> r is Err
                && is_invalid_configuration(r->Err_0, exact_limit_message(self.spec_max_features())),
    {
        if rows == 0 {
            return Err(ShapError::EmptyData);
        }
        if cols != n_input {
            let mut expected = decimal_text(n_input);
            expected.append(" input features");
            let mut found = decimal_text(cols);
            found.append(" features");
            return Err(ShapError::DimensionMismatch { expected, found });
        }
        if m > self.max_features || m >= 63 {
            let mut message = String::from_str("exact SHAP supports at most ");
            let count = decimal_text(self.max_features);
            message.append(count.as_str());
            message.append(" features");
            return Err(ShapError::InvalidConfiguration(message));
        }
        Ok(())
    }
}

} // verus!
