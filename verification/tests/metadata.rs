use shap_rs::{FeatureKind, FeatureMetadata, OutputKind, OutputMetadata, ShapError};

#[test]
fn validates_directly_constructed_feature_metadata() {
    let metadata = FeatureMetadata {
        names: vec!["a".into(), "b".into()],
        display_names: Some(vec!["A".into()]),
        kinds: None,
        units: None,
    };
    assert!(matches!(
        metadata.validate(),
        Err(ShapError::DimensionMismatch { .. })
    ));
}

#[test]
fn validates_directly_constructed_output_metadata() {
    let metadata = OutputMetadata {
        names: vec!["prediction".into()],
        kinds: Some(vec![OutputKind::Regression, OutputKind::Probability]),
    };
    assert!(matches!(
        metadata.validate(),
        Err(ShapError::DimensionMismatch { .. })
    ));
}

#[test]
fn built_feature_metadata_validates() {
    let metadata = FeatureMetadata::new(vec!["age".to_string(), "income".to_string()])
        .unwrap()
        .with_kinds(vec![FeatureKind::Continuous, FeatureKind::Continuous])
        .unwrap()
        .with_display_names(vec!["Age".to_string(), "Income".to_string()])
        .unwrap();
    assert!(metadata.validate().is_ok());
    assert_eq!(metadata.names, vec!["age".to_string(), "income".to_string()]);
}

#[test]
fn feature_names_must_be_present_and_unique() {
    assert_eq!(
        FeatureMetadata::new(vec!["a".to_string(), "".to_string()]).err(),
        Some(ShapError::InvalidConfiguration("feature names cannot be empty".to_string()))
    );
    assert_eq!(
        FeatureMetadata::new(vec!["a".to_string(), "a".to_string()]).err(),
        Some(ShapError::InvalidConfiguration("feature names must be unique".to_string()))
    );
}

#[test]
fn feature_kinds_must_match_names() {
    let err = FeatureMetadata::new(vec!["a".to_string(), "b".to_string()])
        .unwrap()
        .with_kinds(vec![FeatureKind::Boolean])
        .err();
    assert_eq!(
        err,
        Some(ShapError::DimensionMismatch {
            expected: "2 feature kinds".to_string(),
            found: "1".to_string()
        })
    );
}

#[test]
fn output_metadata_rejects_empty_names() {
    assert_eq!(
        OutputMetadata::new(vec![]).err(),
        Some(ShapError::InvalidConfiguration("output names cannot be empty".to_string()))
    );
    let metadata = OutputMetadata::new(vec!["score".to_string()])
        .unwrap()
        .with_kinds(vec![OutputKind::LogOdds])
        .unwrap();
    assert!(metadata.validate().is_ok());
}
