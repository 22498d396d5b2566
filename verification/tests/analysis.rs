use shap_rs::analysis::{check_cohort_labels, check_feature_groups, check_sample_selection, class_members};
use shap_rs::ShapError;

#[test]
fn sample_selection_rejects_empty_and_out_of_range() {
    assert_eq!(check_sample_selection(&[], 3), Err(ShapError::EmptyData));
    assert_eq!(
        check_sample_selection(&[0, 5, 7], 3),
        Err(ShapError::InvalidSampleIndex { index: 5, n_samples: 3 })
    );
    assert_eq!(check_sample_selection(&[2, 2, 0], 3), Ok(()));
}

#[test]
fn feature_groups_are_checked_in_order() {
    let msg = |m: &str| Err(ShapError::InvalidConfiguration(m.to_string()));
    assert_eq!(check_feature_groups(&vec![], 1, 2, 1), msg("feature groups cannot be empty"));
    assert_eq!(check_feature_groups(&vec![vec![0], vec![]], 1, 2, 1), msg("feature groups cannot be empty"));
    assert_eq!(
        check_feature_groups(&vec![vec![0, 4], vec![1]], 1, 2, 1),
        Err(ShapError::InvalidFeatureIndex { index: 4, n_features: 2 })
    );
    assert_eq!(check_feature_groups(&vec![vec![0], vec![1, 0]], 1, 2, 1), msg("feature groups must not overlap"));
    assert_eq!(
        check_feature_groups(&vec![vec![0]], usize::MAX, 2, 2),
        msg("grouped attributions dimensions overflow the addressable allocation size")
    );
    assert_eq!(check_feature_groups(&vec![vec![0, 1]], 3, 2, 1), Ok(()));
    assert_eq!(check_feature_groups(&vec![vec![1], vec![0]], 3, 3, 1), Ok(()));
}

#[test]
fn classes_split_in_increasing_order() {
    let members = class_members(&vec![0, 1, 0]);
    assert_eq!(members, vec![(0, vec![0, 2]), (1, vec![1])]);
    let members = class_members(&vec![7, 3, 7, 5, 3]);
    assert_eq!(members, vec![(3, vec![1, 4]), (5, vec![3]), (7, vec![0, 2])]);
    assert_eq!(class_members(&vec![]), vec![]);
    assert_eq!(class_members(&vec![usize::MAX, 0]), vec![(0, vec![1]), (usize::MAX, vec![0])]);
}

#[test]
fn cohort_labels_need_one_non_empty_label_per_sample() {
    let labels = vec!["a".to_string(), "b".to_string(), "a".to_string()];
    assert_eq!(check_cohort_labels(&labels, 3), Ok(()));
    assert_eq!(
        check_cohort_labels(&labels, 4),
        Err(ShapError::DimensionMismatch { expected: "4 cohort labels".to_string(), found: "3 labels".to_string() })
    );
    let labels = vec!["a".to_string(), String::new()];
    assert_eq!(
        check_cohort_labels(&labels, 2),
        Err(ShapError::InvalidConfiguration("cohort labels cannot be empty".to_string()))
    );
}
