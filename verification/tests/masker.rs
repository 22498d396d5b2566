use shap_rs::{FnMasker, FnStreamingMasker, GroupedMasker, Masker, ShapError};

#[test]
fn grouped_masker_expands_group_flags_to_columns() {
    let inner = FnMasker::new(3, ()).unwrap();
    let masker = GroupedMasker::new(inner, vec![vec![0, 2], vec![1]]).unwrap();
    assert_eq!(masker.n_features(), 2);
    assert_eq!(masker.n_input_features(), 3);
    assert_eq!(masker.groups(), &[vec![0, 2], vec![1]]);
    assert_eq!(masker.expand_mask(3, &[true, false]), Ok(vec![true, false, true]));
    assert_eq!(
        masker.expand_mask(2, &[true, false]),
        Err(ShapError::DimensionMismatch {
            expected: "3 input columns and 2 feature groups".to_string(),
            found: "sample 2, mask 2".to_string()
        })
    );
}

#[test]
fn grouped_masker_rejects_bad_groups() {
    assert_eq!(
        GroupedMasker::new(FnMasker::new(2, ()).unwrap(), vec![vec![0], vec![]]).err(),
        Some(ShapError::InvalidConfiguration("feature groups must be non-empty".to_string()))
    );
    assert_eq!(
        GroupedMasker::new(FnMasker::new(2, ()).unwrap(), vec![vec![0, 1], vec![1]]).err(),
        Some(ShapError::InvalidConfiguration(
            "source column 1 belongs to more than one feature group".to_string()
        ))
    );
    assert_eq!(
        GroupedMasker::new(FnMasker::new(2, ()).unwrap(), vec![vec![0]]).err(),
        Some(ShapError::InvalidConfiguration(
            "feature groups must cover every source column exactly once".to_string()
        ))
    );
    let inner = GroupedMasker::new(FnMasker::new(2, ()).unwrap(), vec![vec![0, 1]]).unwrap();
    assert_eq!(
        GroupedMasker::new(inner, vec![vec![0]]).err(),
        Some(ShapError::InvalidConfiguration("nested grouped maskers are not supported".to_string()))
    );
}

#[test]
fn closure_maskers_need_a_feature() {
    assert_eq!(
        FnMasker::new(0, ()).err().unwrap(),
        ShapError::InvalidConfiguration("masker must expose at least one feature".to_string())
    );
    assert_eq!(
        FnStreamingMasker::new(0, ()).err().unwrap(),
        ShapError::InvalidConfiguration("streaming masker feature count must be positive".to_string())
    );
    let masker = FnStreamingMasker::new(4, 1u8).unwrap();
    assert_eq!(masker.n_features(), 4);
    assert_eq!(*masker.batch_fn(), 1);
}

#[test]
fn categorical_flags_mark_listed_features() {
    let flags = shap_rs::masker::categorical_flags;
    assert_eq!(flags(4, &[2, 0], 3), Ok(vec![true, false, true, false]));
    assert_eq!(flags(2, &[], 1), Ok(vec![false, false]));
    assert_eq!(
        flags(2, &[0], 0),
        Err(ShapError::InvalidConfiguration("conditional tabular neighbors must be positive".to_string()))
    );
    assert_eq!(flags(2, &[0, 5, 0], 1), Err(ShapError::InvalidFeatureIndex { index: 5, n_features: 2 }));
    assert_eq!(
        flags(2, &[1, 1], 1),
        Err(ShapError::InvalidConfiguration("categorical feature indices must be unique".to_string()))
    );
}

#[test]
fn grouping_checks_the_reported_dimensions() {
    assert_eq!(
        GroupedMasker::from_dimensions(FnMasker::new(3, ()).unwrap(), vec![vec![0, 1, 2]], 3, 4).err(),
        Some(ShapError::InvalidConfiguration("nested grouped maskers are not supported".to_string()))
    );
    assert_eq!(
        GroupedMasker::from_dimensions(FnMasker::new(3, ()).unwrap(), vec![vec![0, 3]], 3, 3).err(),
        Some(ShapError::InvalidFeatureIndex { index: 3, n_features: 3 })
    );
    let masker = GroupedMasker::from_dimensions(FnMasker::new(3, ()).unwrap(), vec![vec![2], vec![0, 1]], 3, 3).unwrap();
    assert_eq!(masker.n_features(), 2);
    assert_eq!(masker.n_input_features(), 3);
    assert_eq!(masker.expand_mask(3, &[false, true]), Ok(vec![true, true, false]));
}
