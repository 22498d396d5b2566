//! Model adapters: prediction closures with declared dimensions and
//! device-bound accelerated models, and the shape rules predictions obey.
use vstd::prelude::*;
use crate::error::{count_mismatch, decimal, decimal_text, is_dimension_mismatch, Result, ShapError};

verus! {

/// Execution target exposed by accelerated model adapters.
#[derive(Debug, Clone, Copy, PartialEq, Eq, Structural)]
pub enum ExecutionDevice {
    Cpu,
    Cuda(u16),
    Metal,
    Vulkan,
    WebGpu,
}

/// A batch prediction closure usable as a model, with optionally declared
/// input and output counts.
pub struct FnModel<F> {
    predict_fn: F,
    n_features: Option<usize>,
    n_outputs: Option<usize>,
}

impl<F> FnModel<F> {
    /// The prediction closure.
    pub closed spec fn spec_predict_fn(&self) -> F {
        self.predict_fn
    }

    /// The configured input feature count.
    pub closed spec fn spec_n_features(&self) -> Option<usize> {
        self.n_features
    }

    /// The configured output count.
    pub closed spec fn spec_n_outputs(&self) -> Option<usize> {
        self.n_outputs
    }

    /// Wraps `predict_fn` with no declared dimensions.
    pub fn new(predict_fn: F) -> (r: Self)
        ensures
            r.spec_predict_fn() == predict_fn,
            r.spec_n_features() is None,
            r.spec_n_outputs() is None,
    {
        Self { predict_fn, n_features: None, n_outputs: None }
    }

    /// Declares the expected number of input features.
    pub fn with_n_features(self, n_features: usize) -> (r: Self)
        ensures
            r.spec_predict_fn() == self.spec_predict_fn(),
            r.spec_n_features() == Some(n_features),
            r.spec_n_outputs() == self.spec_n_outputs(),
    {
        Self { n_features: Some(n_features), ..self }
    }

    /// Declares the number of model outputs.
    pub fn with_n_outputs(self, n_outputs: usize) -> (r: Self)
        ensures
            r.spec_predict_fn() == self.spec_predict_fn(),
            r.spec_n_features() == self.spec_n_features(),
            r.spec_n_outputs() == Some(n_outputs),
    {
        Self { n_outputs: Some(n_outputs), ..self }
    }

    /// The prediction closure.
    pub fn predict_fn(&self) -> (r: &F)
        ensures
            *r == self.spec_predict_fn(),
    {
        &self.predict_fn
    }

    /// The declared input feature count, if any.
    pub fn configured_n_features(&self) -> (r: Option<usize>)
        ensures
            r == self.spec_n_features(),
    {
        self.n_features
    }

    /// The declared output count, if any.
    pub fn configured_n_outputs(&self) -> (r: Option<usize>)
        ensures
            r == self.spec_n_outputs(),
    {
        self.n_outputs
    }
}

/// A device-aware prediction closure (borrowed batches) usable as a model;
/// ordinary prediction runs it on the CPU.
pub struct FnAcceleratedModel<F> {
    predict_fn: F,
    n_features: Option<usize>,
    n_outputs: Option<usize>,
}

impl<F> FnAcceleratedModel<F> {
    /// The prediction closure.
    pub closed spec fn spec_predict_fn(&self) -> F {
        self.predict_fn
    }

    /// The configured input feature count.
    pub closed spec fn spec_n_features(&self) -> Option<usize> {
        self.n_features
    }

    /// The configured output count.
    pub closed spec fn spec_n_outputs(&self) -> Option<usize> {
        self.n_outputs
    }

    /// Wraps `predict_fn` with no declared dimensions.
    pub fn new(predict_fn: F) -> (r: Self)
        ensures
            r.spec_predict_fn() == predict_fn,
            r.spec_n_features() is None,
            r.spec_n_outputs() is None,
    {
        Self { predict_fn, n_features: None, n_outputs: None }
    }

    /// Declares the expected number of input features.
    pub fn with_n_features(self, n_features: usize) -> (r: Self)
        ensures
            r.spec_predict_fn() == self.spec_predict_fn(),
            r.spec_n_features() == Some(n_features),
            r.spec_n_outputs() == self.spec_n_outputs(),
    {
        Self { n_features: Some(n_features), ..self }
    }

    /// Declares the number of model outputs.
    pub fn with_n_outputs(self, n_outputs: usize) -> (r: Self)
        ensures
            r.spec_predict_fn() == self.spec_predict_fn(),
            r.spec_n_features() == self.spec_n_features(),
            r.spec_n_outputs() == Some(n_outputs),
    {
        Self { n_outputs: Some(n_outputs), ..self }
    }

    /// The prediction closure.
    pub fn predict_fn(&self) -> (r: &F)
        ensures
            *r == self.spec_predict_fn(),
    {
        &self.predict_fn
    }

    /// The declared input feature count, if any.
    pub fn configured_n_features(&self) -> (r: Option<usize>)
        ensures
            r == self.spec_n_features(),
    {
        self.n_features
    }

    /// The declared output count, if any.
    pub fn configured_n_outputs(&self) -> (r: Option<usize>)
        ensures
            r == self.spec_n_outputs(),
    {
        self.n_outputs
    }
}

/// A device-aware prediction closure that takes ownership of each batch,
/// so a combined coalition batch moves into it exactly once.
pub struct FnOwnedAcceleratedModel<F> {
    predict_fn: F,
    n_features: Option<usize>,
    n_outputs: Option<usize>,
}

impl<F> FnOwnedAcceleratedModel<F> {
    /// The prediction closure.
    pub closed spec fn spec_predict_fn(&self) -> F {
        self.predict_fn
    }

    /// The configured input feature count.
    pub closed spec fn spec_n_features(&self) -> Option<usize> {
        self.n_features
    }

    /// The configured output count.
    pub closed spec fn spec_n_outputs(&self) -> Option<usize> {
        self.n_outputs
    }

    /// Wraps `predict_fn` with no declared dimensions.
    pub fn new(predict_fn: F) -> (r: Self)
        ensures
            r.spec_predict_fn() == predict_fn,
            r.spec_n_features() is None,
            r.spec_n_outputs() is None,
    {
        Self { predict_fn, n_features: None, n_outputs: None }
    }

    /// Declares the expected number of input features.
    pub fn with_n_features(self, n_features: usize) -> (r: Self)
        ensures
            r.spec_predict_fn() == self.spec_predict_fn(),
            r.spec_n_features() == Some(n_features),
            r.spec_n_outputs() == self.spec_n_outputs(),
    {
        Self { n_features: Some(n_features), ..self }
    }

    /// Declares the number of model outputs.
    pub fn with_n_outputs(self, n_outputs: usize) -> (r: Self)
        ensures
            r.spec_predict_fn() == self.spec_predict_fn(),
            r.spec_n_features() == self.spec_n_features(),
            r.spec_n_outputs() == Some(n_outputs),
    {
        Self { n_outputs: Some(n_outputs), ..self }
    }

    /// The prediction closure.
    pub fn predict_fn(&self) -> (r: &F)
        ensures
            *r == self.spec_predict_fn(),
    {
        &self.predict_fn
    }

    /// The declared input feature count, if any.
    pub fn configured_n_features(&self) -> (r: Option<usize>)
        ensures
            r == self.spec_n_features(),
    {
        self.n_features
    }

    /// The declared output count, if any.
    pub fn configured_n_outputs(&self) -> (r: Option<usize>)
        ensures
            r == self.spec_n_outputs(),
    {
        self.n_outputs
    }
}

/// Binds an accelerated model to a device while keeping the ordinary
/// prediction interface.
pub struct DeviceModel<'a, M> {
    model: &'a M,
    device: ExecutionDevice,
}

impl<'a, M> DeviceModel<'a, M> {
    /// The bound model.
    pub closed spec fn spec_model(&self) -> &'a M {
        self.model
    }

    /// The bound device.
    pub closed spec fn spec_device(&self) -> ExecutionDevice {
        self.device
    }

    /// Binds `model` to `device`.
    pub fn new(model: &'a M, device: ExecutionDevice) -> (r: Self)
        ensures
            r.spec_model() == model,
            r.spec_device() == device,
    {
        Self { model, device }
    }

    /// The bound device.
    pub fn device(&self) -> (d: ExecutionDevice)
        ensures
            d == self.spec_device(),
    {
        self.device
    }

    /// The bound model.
    pub fn model(&self) -> (r: &'a M)
        ensures
            r == self.spec_model(),
    {
        self.model
    }
}

/// The expectation reported for a prediction batch of the wrong shape.
pub open spec fn prediction_shape_expected(rows: nat) -> Seq<char> {
    "("@ + decimal(rows) + ", outputs>0)"@
}

/// A two-dimensional shape as `(rows, cols)`.
pub open spec fn shape_text(rows: nat, cols: nat) -> Seq<char> {
    "("@ + decimal(rows) + ", "@ + decimal(cols) + ")"@
}

/// A prediction batch must have one row per input row and at least one
/// output column.
pub fn check_prediction_shape(expected_rows: usize, rows: usize, cols: usize) -> (r: Result<()>)
    ensures
        r is Ok <==> rows == expected_rows && cols > 0,
        r is Err ==> is_dimension_mismatch(
            r->Err_0,
            prediction_shape_expected(expected_rows as nat),
            shape_text(rows as nat, cols as nat),
        ),
{
    if rows != expected_rows || cols == 0 {
        let mut expected = String::from_str("(");
        let e = decimal_text(expected_rows);
        expected.append(e.as_str());
        expected.append(", outputs>0)");
        let mut found = String::from_str("(");
        let a = decimal_text(rows);
        found.append(a.as_str());
        found.append(", ");
        let b = decimal_text(cols);
        found.append(b.as_str());
        found.append(")");
        return Err(ShapError::DimensionMismatch { expected, found });
    }
    Ok(())
}

/// A model that declares its input width accepts only inputs of that width.
pub fn check_model_features(declared: Option<usize>, found: usize) -> (r: Result<()>)
    ensures
        r is Ok <==> !(declared matches Some(n) && n != found),
        r is Err ==> is_dimension_mismatch(
            r->Err_0,
            decimal(declared->0 as nat) + " model features"@,
            decimal(found as nat),
        ),
{
    if let Some(n) = declared {
        if n != found {
            return Err(count_mismatch(n, " model features", found));
        }
    }
    Ok(())
}

} // verus!
