use shap_rs::model::{check_model_features, check_prediction_shape};
use shap_rs::{DeviceModel, ExecutionDevice, FnModel, ShapError};

#[test]
fn fn_model_stores_dimensions() {
    let model = FnModel::new(|x: u32| x + 1).with_n_features(3).with_n_outputs(2);
    assert_eq!(model.configured_n_features(), Some(3));
    assert_eq!(model.configured_n_outputs(), Some(2));
    assert_eq!((model.predict_fn())(4), 5);
    let bare = FnModel::new(());
    assert_eq!(bare.configured_n_features(), None);
}

#[test]
fn device_model_remembers_its_device() {
    let inner = 7u8;
    let model = DeviceModel::new(&inner, ExecutionDevice::Cpu);
    assert_eq!(model.device(), ExecutionDevice::Cpu);
    assert_eq!(*model.model(), 7);
}

#[test]
fn predictions_need_one_row_per_input_and_an_output() {
    assert_eq!(check_prediction_shape(3, 3, 1), Ok(()));
    assert_eq!(
        check_prediction_shape(3, 2, 1),
        Err(ShapError::DimensionMismatch { expected: "(3, outputs>0)".to_string(), found: "(2, 1)".to_string() })
    );
    assert_eq!(
        check_prediction_shape(0, 0, 0),
        Err(ShapError::DimensionMismatch { expected: "(0, outputs>0)".to_string(), found: "(0, 0)".to_string() })
    );
}

#[test]
fn declared_model_widths_are_enforced() {
    assert_eq!(check_model_features(None, 9), Ok(()));
    assert_eq!(check_model_features(Some(4), 4), Ok(()));
    assert_eq!(
        check_model_features(Some(4), 3),
        Err(ShapError::DimensionMismatch { expected: "4 model features".to_string(), found: "3".to_string() })
    );
}
