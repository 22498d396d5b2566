use shap_rs::{checked_f64_shape, Result, ShapError};

#[test]
fn result_alias_works() {
    fn returns_result() -> Result<()> {
        Ok(())
    }

    assert!(returns_result().is_ok());
}

#[test]
fn rejects_overflowing_or_unaddressable_shapes() {
    assert!(checked_f64_shape(&[usize::MAX, 2], "test").is_err());
    assert!(checked_f64_shape(&[isize::MAX as usize / 8 + 1], "test").is_err());
    assert!(checked_f64_shape(&[2, 3, 4], "test").is_ok());
}

#[test]
fn shape_overflow_names_its_context() {
    assert_eq!(
        checked_f64_shape(&[usize::MAX, 2], "masked batch"),
        Err(ShapError::InvalidConfiguration(
            "masked batch dimensions overflow the addressable allocation size".to_string()
        ))
    );
}

#[test]
fn largest_addressable_shape_is_accepted() {
    assert!(checked_f64_shape(&[isize::MAX as usize / 8], "test").is_ok());
    assert!(checked_f64_shape(&[], "test").is_ok());
    assert!(checked_f64_shape(&[0, usize::MAX], "test").is_ok());
}

#[test]
fn displays_dimension_mismatch() {
    let error = ShapError::DimensionMismatch { expected: "10 features".to_string(), found: "8 features".to_string() };
    assert_eq!(error.to_string(), "dimension mismatch: expected 10 features, found 8 features");
}

#[test]
fn displays_invalid_feature_index() {
    let error = ShapError::InvalidFeatureIndex { index: 10, n_features: 5 };
    assert_eq!(error.to_string(), "invalid feature index 10; dataset contains 5 features");
}

#[test]
fn displays_invalid_sample_and_output_indices() {
    assert_eq!(
        ShapError::InvalidSampleIndex { index: 3, n_samples: 2 }.to_string(),
        "invalid sample index 3; explanation contains 2 samples"
    );
    assert_eq!(
        ShapError::InvalidOutputIndex { index: 2, n_outputs: 1 }.to_string(),
        "invalid output index 2; explanation contains 1 outputs"
    );
}

#[test]
fn every_error_has_its_display_text() {
    assert_eq!(ShapError::EmptyData.to_string(), "input data is empty");
    assert_eq!(ShapError::EmptyBackground.to_string(), "background dataset is empty");
    assert_eq!(ShapError::InvalidConfiguration("x".to_string()).to_string(), "invalid configuration: x");
    assert_eq!(ShapError::ModelError("x".to_string()).to_string(), "model error: x");
    assert_eq!(ShapError::MaskerError("x".to_string()).to_string(), "masker error: x");
    assert_eq!(ShapError::NumericalError("x".to_string()).to_string(), "numerical error: x");
    assert_eq!(ShapError::SolverError("x".to_string()).to_string(), "solver error: x");
    assert_eq!(ShapError::Unsupported("x".to_string()).to_string(), "unsupported operation: x");
    assert_eq!(ShapError::MissingMetadata("x".to_string()).to_string(), "missing metadata: x");
    assert_eq!(
        ShapError::OutputDimensionMismatch { expected: 2, found: 3 }.to_string(),
        "output dimension mismatch: expected 2, found 3"
    );
    assert_eq!(ShapError::Other("plain".to_string()).to_string(), "plain");
}
