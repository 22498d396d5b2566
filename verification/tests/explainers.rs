use shap_rs::explainers::input_checks::check_deep_input;
use shap_rs::explainers::input_checks::{check_background_predictions, check_model_outputs};
use shap_rs::explainers::input_checks::{check_correlated_input, check_gradient_input};
use shap_rs::explainers::{AdditiveExplainer, AutoAlgorithm, ExactExplainer};
use shap_rs::interactions::exact::ExactInteractionExplainer;
use shap_rs::{EvaluationConfig, FeatureMetadata, Link, MetadataExplainer, OutputMetadata, ShapError};

#[test]
fn auto_selects_exact_for_small_problems() {
    assert_eq!(AutoAlgorithm::select(10, 12), AutoAlgorithm::Exact);
    assert_eq!(AutoAlgorithm::select(12, 12), AutoAlgorithm::Exact);
    assert_eq!(AutoAlgorithm::select(14, 12), AutoAlgorithm::Kernel);
    assert_eq!(AutoAlgorithm::select(2, 12), AutoAlgorithm::Exact);
    assert_eq!(Link::default(), Link::Identity);
}

#[test]
fn exact_explainer_checks_input_in_order() {
    let explainer = ExactExplainer::from_masker((), ()).with_max_features(3);
    assert_eq!(explainer.check_input(2, 2, 0, 2), Err(ShapError::EmptyData));
    assert_eq!(
        explainer.check_input(2, 4, 1, 2),
        Err(ShapError::DimensionMismatch { expected: "4 input features".to_string(), found: "2 features".to_string() })
    );
    assert_eq!(
        explainer.check_input(4, 4, 1, 4),
        Err(ShapError::InvalidConfiguration("exact SHAP supports at most 3 features".to_string()))
    );
    assert_eq!(explainer.check_input(3, 4, 1, 4), Ok(()));
    assert_eq!(
        ExactExplainer::from_masker((), ()).evaluation(),
        EvaluationConfig { coalition_batch_size: 64, cache_capacity: 1 << 20, max_model_rows: None }
    );
}

#[test]
fn metadata_decorator_validates_what_it_attaches() {
    let explainer = MetadataExplainer::new(5u8)
        .with_feature_metadata(FeatureMetadata::new(vec!["x".to_string()]).unwrap())
        .unwrap()
        .with_output_metadata(OutputMetadata::new(vec!["y".to_string()]).unwrap())
        .unwrap();
    assert_eq!(explainer.feature_metadata().unwrap().names, vec!["x".to_string()]);
    assert_eq!(explainer.output_metadata().unwrap().names, vec!["y".to_string()]);
    assert_eq!(*explainer.inner(), 5);
    let broken = FeatureMetadata {
        names: vec!["x".to_string()],
        display_names: None,
        kinds: Some(vec![]),
        units: None,
    };
    assert!(MetadataExplainer::new(5u8).with_feature_metadata(broken).is_err());
    assert_eq!(MetadataExplainer::new(5u8).into_inner(), 5);
}

#[test]
fn interaction_and_additive_configurations() {
    let explainer = ExactInteractionExplainer::new((), ()).with_max_features(4);
    assert_eq!(explainer.max_features(), 4);
    let additive = AdditiveExplainer::new(3u8);
    assert_eq!(*additive.decompose(), 3);
}

#[test]
fn rejects_zero_parallel_chunk_size() {
    assert!(shap_rs::parallel::parallel_chunks(1, 0).is_err());
}

#[test]
fn exact_interactions_check_input_in_order() {
    let explainer = ExactInteractionExplainer::new((), ()).with_max_features(2);
    assert_eq!(explainer.check_input(2, 0, 2), Err(ShapError::EmptyData));
    assert_eq!(
        explainer.check_input(2, 1, 3),
        Err(ShapError::DimensionMismatch { expected: "2 features".to_string(), found: "3".to_string() })
    );
    assert_eq!(
        explainer.check_input(3, 1, 3),
        Err(ShapError::InvalidConfiguration("exact interactions support at most 2 features".to_string()))
    );
    assert_eq!(explainer.check_input(2, 1, 2), Ok(()));
}

#[test]
fn deep_input_is_checked_in_order() {
    assert_eq!(
        check_deep_input(true, 0, 1, 2, 2, None),
        Err(ShapError::InvalidConfiguration(
            "Deep SHAP tolerance must be finite and non-negative and batch size positive".to_string()
        ))
    );
    assert_eq!(check_deep_input(true, 4, 0, 2, 2, None), Err(ShapError::EmptyData));
    assert_eq!(
        check_deep_input(true, 4, 1, 3, 2, None),
        Err(ShapError::DimensionMismatch { expected: "2 features".to_string(), found: "3".to_string() })
    );
    assert_eq!(
        check_deep_input(true, 4, 1, 2, 2, Some(5)),
        Err(ShapError::DimensionMismatch {
            expected: "model with 2 features".to_string(),
            found: "model reports Some(5)".to_string(),
        })
    );
    assert_eq!(check_deep_input(true, 4, 1, 2, 2, Some(2)), Ok(()));
}

#[test]
fn model_predictions_and_outputs_are_checked() {
    assert_eq!(
        check_background_predictions(3, 2, 1),
        Err(ShapError::DimensionMismatch {
            expected: "3 background predictions".to_string(),
            found: "(2, 1)".to_string(),
        })
    );
    assert!(check_background_predictions(3, 3, 0).is_err());
    assert_eq!(check_background_predictions(3, 3, 2), Ok(()));
    assert_eq!(check_model_outputs(Some(2), 3), Err(ShapError::OutputDimensionMismatch { expected: 2, found: 3 }));
    assert_eq!(check_model_outputs(None, 3), Ok(()));
}

#[test]
fn gradient_and_linear_inputs_are_checked_in_order() {
    let config = |m: &str| Err(ShapError::InvalidConfiguration(m.to_string()));
    assert_eq!(check_gradient_input(2, 0, 2, 0, false), Err(ShapError::EmptyData));
    assert_eq!(check_gradient_input(2, 1, 2, 0, true), config("nsamples must be positive and local smoothing non-negative"));
    assert_eq!(check_gradient_input(2, 1, 2, 8, true), Ok(()));
    assert_eq!(check_correlated_input(3, 2, 1, 3, false), config("correlated linear SHAP supports at most 2 features"));
    assert_eq!(check_correlated_input(2, 8, 1, 2, false), config("ridge must be finite and non-negative"));
    assert_eq!(
        check_correlated_input(2, 8, 1, 1, true),
        Err(ShapError::DimensionMismatch { expected: "2 features".to_string(), found: "1".to_string() })
    );
    assert_eq!(check_correlated_input(2, 8, 1, 2, true), Ok(()));
}

#[test]
fn metadata_chain_keeps_the_wrapped_explainer() {
    let features = FeatureMetadata::new(vec!["x".to_string()]).unwrap();
    let outputs = OutputMetadata::new(vec!["y".to_string()]).unwrap();
    let chained = MetadataExplainer::new(9u8)
        .with_feature_metadata(features.clone())
        .unwrap()
        .with_output_metadata(outputs)
        .unwrap()
        .with_feature_metadata(features)
        .unwrap();
    assert_eq!(*chained.inner(), 9);
    assert_eq!(chained.into_inner(), 9);
}
