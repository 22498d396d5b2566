use shap_rs::background::{check_background_shape, check_row_index, check_row_selection, sample_keeps_all};
use shap_rs::{BackgroundSampling, ShapError};

#[test]
fn backgrounds_need_rows_and_columns() {
    assert_eq!(check_background_shape(0, 3), Err(ShapError::EmptyBackground));
    assert_eq!(check_background_shape(0, 0), Err(ShapError::EmptyBackground));
    assert_eq!(
        check_background_shape(2, 0),
        Err(ShapError::InvalidConfiguration("background must contain at least one feature".to_string()))
    );
    assert_eq!(check_background_shape(2, 3), Ok(()));
}

#[test]
fn row_indices_must_be_in_range() {
    assert_eq!(check_row_index(1, 2), Ok(()));
    assert_eq!(
        check_row_index(3, 2),
        Err(ShapError::InvalidConfiguration("background row index 3 is out of bounds for 2 rows".to_string()))
    );
}

#[test]
fn selections_report_the_first_bad_row() {
    assert_eq!(check_row_selection(&[], 2), Err(ShapError::EmptyBackground));
    assert_eq!(check_row_selection(&[1, 1, 0], 2), Ok(()));
    assert_eq!(
        check_row_selection(&[1, 5, 9], 2),
        Err(ShapError::InvalidConfiguration("background row index 5 is out of bounds for 2 rows".to_string()))
    );
}

#[test]
fn sampling_size_decides_whether_every_row_is_kept() {
    assert_eq!(
        sample_keeps_all(0, 5),
        Err(ShapError::InvalidConfiguration("background sample size must be greater than zero".to_string()))
    );
    assert_eq!(sample_keeps_all(10, 5), Ok(true));
    assert_eq!(sample_keeps_all(5, 5), Ok(true));
    assert_eq!(sample_keeps_all(3, 5), Ok(false));
    assert_eq!(BackgroundSampling::default(), BackgroundSampling::All);
}

#[test]
fn rejects_empty_background() {
    assert!(matches!(check_background_shape(0, 2), Err(ShapError::EmptyBackground)));
}

#[test]
fn sampling_all_rows_returns_clone() {
    assert_eq!(sample_keeps_all(10, 2), Ok(true));
}

#[test]
fn rejects_empty_selection() {
    assert!(matches!(check_row_selection(&[], 2), Err(ShapError::EmptyBackground)));
}

#[test]
fn rejects_invalid_selection_index() {
    assert!(matches!(check_row_selection(&[5], 2), Err(ShapError::InvalidConfiguration(_))));
}
