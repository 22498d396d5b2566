use shap_rs::explanation::{check_error_shape, check_explanation_shape, check_interaction_shape};
use shap_rs::explanation::{validate_indices, SelectionAxis};
use shap_rs::interactions::exact::{single_output_metadata, subset_feature_metadata, validate_indices as validate_interaction_indices};
use shap_rs::{AttributionSemantics, FeatureKind, FeatureMetadata, OutputKind, OutputMetadata, ShapError};

#[test]
fn selections_must_be_non_empty_distinct_and_in_range() {
    assert_eq!(
        validate_indices(&[], 3, SelectionAxis::Feature),
        Err(ShapError::InvalidConfiguration("feature selection cannot be empty".to_string()))
    );
    assert_eq!(
        validate_indices(&[0, 3], 3, SelectionAxis::Sample),
        Err(ShapError::InvalidSampleIndex { index: 3, n_samples: 3 })
    );
    assert_eq!(
        validate_indices(&[4], 2, SelectionAxis::Feature),
        Err(ShapError::InvalidFeatureIndex { index: 4, n_features: 2 })
    );
    assert_eq!(
        validate_indices(&[2], 1, SelectionAxis::Output),
        Err(ShapError::InvalidOutputIndex { index: 2, n_outputs: 1 })
    );
    assert_eq!(
        validate_indices(&[1, 1], 3, SelectionAxis::Output),
        Err(ShapError::InvalidConfiguration("duplicate output index 1".to_string()))
    );
    assert_eq!(validate_indices(&[2, 0], 3, SelectionAxis::Sample), Ok(()));
    assert_eq!(SelectionAxis::Sample.label(), "sample");
}

#[test]
fn interaction_selections_allow_repeats() {
    assert_eq!(validate_interaction_indices(&[], 3, "feature"), Err(ShapError::EmptyData));
    assert_eq!(validate_interaction_indices(&[1, 1], 3, "feature"), Ok(()));
    assert_eq!(
        validate_interaction_indices(&[0, 7], 3, "sample"),
        Err(ShapError::InvalidConfiguration("sample index 7 is out of bounds for length 3".to_string()))
    );
}

#[test]
fn metadata_follows_selected_features() {
    let metadata = FeatureMetadata::new(vec!["a".to_string(), "b".to_string(), "c".to_string()])
        .unwrap()
        .with_kinds(vec![FeatureKind::Continuous, FeatureKind::Boolean, FeatureKind::Ordinal])
        .unwrap();
    let picked = subset_feature_metadata(&metadata, &[2, 0]);
    assert_eq!(picked.names, vec!["c".to_string(), "a".to_string()]);
    assert_eq!(picked.kinds, Some(vec![FeatureKind::Ordinal, FeatureKind::Continuous]));
    assert_eq!(picked.display_names, None);
    assert_eq!(AttributionSemantics::default(), AttributionSemantics::Unspecified);
}

#[test]
fn selections_report_typed_bounds_errors() {
    assert!(matches!(validate_indices(&[1], 1, SelectionAxis::Sample), Err(ShapError::InvalidSampleIndex { .. })));
    assert!(matches!(validate_indices(&[2], 2, SelectionAxis::Feature), Err(ShapError::InvalidFeatureIndex { .. })));
    assert!(matches!(validate_indices(&[1], 1, SelectionAxis::Output), Err(ShapError::InvalidOutputIndex { .. })));
}

#[test]
fn rejects_empty_explanation_axes() {
    assert!(matches!(check_explanation_shape((0, 1, 1), (0, 1), (0, 1)), Err(ShapError::EmptyData)));
    assert!(check_explanation_shape((1, 0, 1), (1, 1), (1, 0)).is_err());
    assert!(check_explanation_shape((1, 1, 0), (1, 0), (1, 1)).is_err());
}

#[test]
fn explanation_shapes_are_reported_together() {
    assert_eq!(check_explanation_shape((2, 3, 1), (2, 1), (2, 3)), Ok(()));
    assert_eq!(
        check_explanation_shape((2, 3, 1), (2, 1), (2, 4)),
        Err(ShapError::DimensionMismatch {
            expected: "consistent sample/feature/output dimensions".to_string(),
            found: "values (2, 3, 1), base (2, 1), data (2, 4)".to_string(),
        })
    );
    assert_eq!(
        check_interaction_shape((1, 2, 3, 1), (1, 1), (1, 2)),
        Err(ShapError::DimensionMismatch {
            expected: "non-empty square interaction feature axes".to_string(),
            found: "interaction values (1, 2, 3, 1)".to_string(),
        })
    );
    assert_eq!(
        check_interaction_shape((1, 2, 2, 1), (1, 2), (1, 2)),
        Err(ShapError::DimensionMismatch {
            expected: "data (1, 2) and base values (1, 1)".to_string(),
            found: "data (1, 2), base values (1, 2)".to_string(),
        })
    );
    assert_eq!(check_interaction_shape((0, 2, 2, 1), (0, 1), (0, 2)), Err(ShapError::EmptyData));
    assert_eq!(
        check_error_shape((1, 2, 1), (1, 3, 1)),
        Err(ShapError::DimensionMismatch {
            expected: "(1, 2, 1) standard errors".to_string(),
            found: "(1, 3, 1)".to_string(),
        })
    );
}

#[test]
fn selecting_an_output_keeps_its_name_and_kind() {
    let metadata = OutputMetadata::new(vec!["x".to_string(), "y".to_string()])
        .unwrap()
        .with_kinds(vec![OutputKind::Probability, OutputKind::LogOdds])
        .unwrap();
    let single = single_output_metadata(&metadata, 1);
    assert_eq!(single.names, vec!["y".to_string()]);
    assert_eq!(single.kinds, Some(vec![OutputKind::LogOdds]));
    let plain = OutputMetadata::new(vec!["x".to_string()]).unwrap();
    assert_eq!(single_output_metadata(&plain, 0).kinds, None);
}
