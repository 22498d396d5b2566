//! Monte-Carlo Sampling SHAP configuration.
use vstd::prelude::*;
use crate::error::{invalid_configuration, is_invalid_configuration, Result};
use crate::evaluation::EvaluationConfig;
use crate::link::Link;

verus! {

/// Monte-Carlo Sampling SHAP: averages marginal contributions over random
/// feature orderings, with the permutation estimator's engine.
pub struct SamplingExplainer<M, K> {
    model: M,
    masker: K,
    nsamples: usize,
    seed: u64,
    antithetic: bool,
    link: Link,
    evaluation: EvaluationConfig,
}

impl<M, K> SamplingExplainer<M, K> {
    /// The prediction model.
    pub closed spec fn spec_model(&self) -> M {
        self.model
    }

    /// The masker.
    pub closed spec fn spec_masker(&self) -> K {
        self.masker
    }

    /// The number of orderings drawn per sample.
    pub closed spec fn spec_nsamples(&self) -> usize {
        self.nsamples
    }

    /// The base seed of the ordering generator.
    pub closed spec fn spec_seed(&self) -> u64 {
        self.seed
    }

    /// Whether every second ordering reverses the one before.
    pub closed spec fn spec_antithetic(&self) -> bool {
        self.antithetic
    }

    /// The output transform.
    pub closed spec fn spec_link(&self) -> Link {
        self.link
    }

    /// The coalition evaluation limits.
    pub closed spec fn spec_evaluation(&self) -> EvaluationConfig {
        self.evaluation
    }

    /// An estimator drawing 256 antithetically paired orderings from seed 0,
    /// evaluating coalitions in batches of 64 with a 65536-entry cache and no
    /// row limit, in the identity link.
    pub fn from_masker(model: M, masker: K) -> (r: Self)
        ensures
            r.spec_model() == model,
            r.spec_masker() == masker,
            r.spec_nsamples() == 256,
            r.spec_seed() == 0,
            r.spec_antithetic() == true,
            r.spec_link() == Link::Identity,
            r.spec_evaluation() == (EvaluationConfig { coalition_batch_size: 64, cache_capacity: 65536, max_model_rows: None }),
    {
        Self { model, masker, nsamples: 256, seed: 0, antithetic: true, link: Link::Identity, evaluation: EvaluationConfig { coalition_batch_size: 64, cache_capacity: 65536, max_model_rows: None } }
    }

    /// Sets the number of orderings.
    pub fn with_nsamples(self, value: usize) -> (r: Self)
        ensures
            r.spec_model() == self.spec_model(),
            r.spec_masker() == self.spec_masker(),
            r.spec_nsamples() == value,
            r.spec_seed() == self.spec_seed(),
            r.spec_antithetic() == self.spec_antithetic(),
            r.spec_link() == self.spec_link(),
            r.spec_evaluation() == self.spec_evaluation(),
    {
        Self { nsamples: value, ..self }
    }

    /// Sets the base seed.
    pub fn with_seed(self, value: u64) -> (r: Self)
        ensures
            r.spec_model() == self.spec_model(),
            r.spec_masker() == self.spec_masker(),
            r.spec_nsamples() == self.spec_nsamples(),
            r.spec_seed() == value,
            r.spec_antithetic() == self.spec_antithetic(),
            r.spec_link() == self.spec_link(),
            r.spec_evaluation() == self.spec_evaluation(),
    {
        Self { seed: value, ..self }
    }

    /// Enables or disables reverse-order pairing.
    pub fn with_antithetic(self, value: bool) -> (r: Self)
        ensures
            r.spec_model() == self.spec_model(),
            r.spec_masker() == self.spec_masker(),
            r.spec_nsamples() == self.spec_nsamples(),
            r.spec_seed() == self.spec_seed(),
            r.spec_antithetic() == value,
            r.spec_link() == self.spec_link(),
            r.spec_evaluation() == self.spec_evaluation(),
    {
        Self { antithetic: value, ..self }
    }

    /// Sets the output transform.
    pub fn with_link(self, value: Link) -> (r: Self)
        ensures
            r.spec_model() == self.spec_model(),
            r.spec_masker() == self.spec_masker(),
            r.spec_nsamples() == self.spec_nsamples(),
            r.spec_seed() == self.spec_seed(),
            r.spec_antithetic() == self.spec_antithetic(),
            r.spec_link() == value,
            r.spec_evaluation() == self.spec_evaluation(),
    {
        Self { link: value, ..self }
    }

    /// Sets the coalition evaluation limits.
    pub fn with_evaluation_config(self, value: EvaluationConfig) -> (r: Self)
        ensures
            r.spec_model() == self.spec_model(),
            r.spec_masker() == self.spec_masker(),
            r.spec_nsamples() == self.spec_nsamples(),
            r.spec_seed() == self.spec_seed(),
            r.spec_antithetic() == self.spec_antithetic(),
            r.spec_link() == self.spec_link(),
            r.spec_evaluation() == value,
    {
        Self { evaluation: value, ..self }
    }

    /// The prediction model.
    pub fn model(&self) -> (r: &M)
        ensures
            *r == self.spec_model(),
    {
        &self.model
    }

    /// The masker.
    pub fn masker(&self) -> (r: &K)
        ensures
            *r == self.spec_masker(),
    {
        &self.masker
    }

    /// The number of orderings drawn per sample.
    pub fn nsamples(&self) -> (r: usize)
        ensures
            r == self.spec_nsamples(),
    {
        self.nsamples
    }

    /// The base seed of the ordering generator.
    pub fn seed(&self) -> (r: u64)
        ensures
            r == self.spec_seed(),
    {
        self.seed
    }

    /// Whether every second ordering reverses the one before.
    pub fn antithetic(&self) -> (r: bool)
        ensures
            r == self.spec_antithetic(),
    {
        self.antithetic
    }

    /// The output transform.
    pub fn link(&self) -> (r: Link)
        ensures
            r == self.spec_link(),
    {
        self.link
    }

    /// The coalition evaluation limits.
    pub fn evaluation(&self) -> (r: EvaluationConfig)
        ensures
            r == self.spec_evaluation(),
    {
        self.evaluation
    }

}

impl<M, K> SamplingExplainer<M, K> {
    /// Uncertainty estimates need at least two repeated runs.
    pub fn check_repeats(&self, repeats: usize) -> (r: Result<()>)
        ensures
            r is Ok <==> repeats >= 2,
            r is Err ==> is_invalid_configuration(
                r->Err_0,
                "uncertainty estimation requires at least two repeats"@,
            ),
    {
        if repeats < 2 {
            return Err(invalid_configuration("uncertainty estimation requires at least two repeats"));
        }
        Ok(())
    }

    /// The seed of repeated run `run`: the base seed advanced by `run`,
    /// wrapping around.
    pub fn repeat_seed(&self, run: usize) -> (s: u64)
        ensures
            s == (self.spec_seed() as int + run as int) % 0x1_0000_0000_0000_0000int,
    {
        let step = run as u64;
        assert(step == run);
        let s = self.seed.wrapping_add(step);
        s
    }
}

} // verus!
