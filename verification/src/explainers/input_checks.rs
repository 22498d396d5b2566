//! The input and configuration checks that the gradient, Deep SHAP and
//! linear explainers apply before any arithmetic, in the order in which
//! they apply them. Settings held as floating-point numbers are judged by
//! the caller and passed in as flags.
use vstd::prelude::*;
use crate::error::{
    count_mismatch, decimal, decimal_text, invalid_configuration, is_dimension_mismatch,
    is_invalid_configuration, Result, ShapError,
};
use crate::explanation::{pair_string, pair_text};

verus! {

/// A data matrix of `rows` by `cols` for an explainer of `m` features: some
/// rows (`EmptyData`), then `m` columns (`"<m> features"` against
/// `"<cols>"`).
pub fn check_rows_and_columns(m: usize, rows: usize, cols: usize) -> (r: Result<()>)
    ensures
        r is Ok <==> rows > 0 && cols == m,
        rows == 0 ==> r == Err::<(), ShapError>(ShapError::EmptyData),
        rows > 0 && cols != m ==> r is Err && is_dimension_mismatch(
            r->Err_0,
            decimal(m as nat) + " features"@,
            decimal(cols as nat),
        ),
{
    if rows == 0 {
        return Err(ShapError::EmptyData);
    }
    if cols != m {
        return Err(count_mismatch(m, " features", cols));
    }
    Ok(())
}

/// Deep SHAP's checks, in order: an acceptable tolerance (`tolerance_ok`:
/// finite and non-negative) and a positive batch size; some rows; as many
/// columns as the background has features (`n_features`); and, when the
/// model declares its input width, that width.
pub fn check_deep_input(
    tolerance_ok: bool,
    batch_size: usize,
    rows: usize,
    cols: usize,
    n_features: usize,
    model_features: Option<usize>,
) -> (r: Result<()>)
    ensures
        r is Ok <==> tolerance_ok && batch_size > 0 && rows > 0 && cols == n_features && !(
        model_features matches Some(f) && f != cols),
        !tolerance_ok || batch_size == 0 ==> r is Err && is_invalid_configuration(
            r->Err_0,
            "Deep SHAP tolerance must be finite and non-negative and batch size positive"@,
        ),
        tolerance_ok && batch_size > 0 && rows == 0 ==> r == Err::<(), ShapError>(ShapError::EmptyData),
        tolerance_ok && batch_size > 0 && rows > 0 && cols != n_features ==> r is Err
            && is_dimension_mismatch(
            r->Err_0,
            decimal(n_features as nat) + " features"@,
            decimal(cols as nat),
        ),
        tolerance_ok && batch_size > 0 && rows > 0 && cols == n_features && (model_features matches Some(
            f,
        ) && f != cols) ==> r is Err && is_dimension_mismatch(
            r->Err_0,
            "model with "@ + decimal(cols as nat) + " features"@,
            "model reports Some("@ + decimal(model_features->0 as nat) + ")"@,
        ),
{
    if !tolerance_ok || batch_size == 0 {
        return Err(
            invalid_configuration(
                "Deep SHAP tolerance must be finite and non-negative and batch size positive",
            ),
        );
    }
    if let Err(e) = check_rows_and_columns(n_features, rows, cols) {
        return Err(e);
    }
    if let Some(f) = model_features {
        if f != cols {
            let mut expected = String::from_str("model with ");
            let c = decimal_text(cols);
            expected.append(c.as_str());
            expected.append(" features");
            let mut found = String::from_str("model reports Some(");
            let d = decimal_text(f);
            found.append(d.as_str());
            found.append(")");
            return Err(ShapError::DimensionMismatch { expected, found });
        }
    }
    Ok(())
}

/// Predictions over a background of `n_background` rows: one row each and
/// at least one output (`"<n> background predictions"` against the shape
/// found).
pub fn check_background_predictions(n_background: usize, rows: usize, cols: usize) -> (r: Result<()>)
    ensures
        r is Ok <==> rows == n_background && cols > 0,
        r is Err ==> is_dimension_mismatch(
            r->Err_0,
            decimal(n_background as nat) + " background predictions"@,
            pair_text(rows, cols),
        ),
{
    if rows != n_background || cols == 0 {
        let mut expected = decimal_text(n_background);
        expected.append(" background predictions");
        let found = pair_string(rows, cols);
        return Err(ShapError::DimensionMismatch { expected, found });
    }
    Ok(())
}

/// A model that declares its output count must produce that many outputs.
pub fn check_model_outputs(declared: Option<usize>, found: usize) -> (r: Result<()>)
    ensures
        r is Ok <==> !(declared matches Some(d) && d != found),
        r is Err ==> r == Err::<(), ShapError>(
            ShapError::OutputDimensionMismatch { expected: declared->0, found },
        ),
{
    if let Some(d) = declared {
        if d != found {
            return Err(ShapError::OutputDimensionMismatch { expected: d, found });
        }
    }
    Ok(())
}

/// Expected Gradients' checks, in order: some rows; `m` columns; a positive
/// sample count and an acceptable smoothing (`smoothing_ok`: finite and
/// non-negative).
pub fn check_gradient_input(m: usize, rows: usize, cols: usize, nsamples: usize, smoothing_ok: bool) -> (r:
    Result<()>)
    ensures
        r is Ok <==> rows > 0 && cols == m && nsamples > 0 && smoothing_ok,
        rows == 0 ==> r == Err::<(), ShapError>(ShapError::EmptyData),
        rows > 0 && cols != m ==> r is Err && is_dimension_mismatch(
            r->Err_0,
            decimal(m as nat) + " features"@,
            decimal(cols as nat),
        ),
        rows > 0 && cols == m && (nsamples == 0 || !smoothing_ok) ==> r is Err
            && is_invalid_configuration(
            r->Err_0,
            "nsamples must be positive and local smoothing non-negative"@,
        ),
{
    if let Err(e) = check_rows_and_columns(m, rows, cols) {
        return Err(e);
    }
    if nsamples == 0 || !smoothing_ok {
        return Err(invalid_configuration("nsamples must be positive and local smoothing non-negative"));
    }
    Ok(())
}

/// The message for correlated linear SHAP over too many features.
pub open spec fn correlated_limit_message(max_features: usize) -> Seq<char> {
    "correlated linear SHAP supports at most "@ + decimal(max_features as nat) + " features"@
}

/// Correlated linear SHAP's checks, in order: some rows; `m` columns; `m`
/// within the feature limit and below 63; an acceptable ridge (`ridge_ok`:
/// finite and non-negative).
pub fn check_correlated_input(m: usize, max_features: usize, rows: usize, cols: usize, ridge_ok: bool) -> (r:
    Result<()>)
    ensures
        r is Ok <==> rows > 0 && cols == m && m <= max_features && m < 63 && ridge_ok,
        rows == 0 ==> r == Err::<(), ShapError>(ShapError::EmptyData),
        rows > 0 && cols != m ==> r is Err && is_dimension_mismatch(
            r->Err_0,
            decimal(m as nat) + " features"@,
            decimal(cols as nat),
        ),
        rows > 0 && cols == m && (m > max_features || m >= 63) ==> r is Err && is_invalid_configuration(
            r->Err_0,
            correlated_limit_message(max_features),
        ),
        rows > 0 && cols == m && m <= max_features && m < 63 && !ridge_ok ==> r is Err
            && is_invalid_configuration(r->Err_0, "ridge must be finite and non-negative"@),
{
    if let Err(e) = check_rows_and_columns(m, rows, cols) {
        return Err(e);
    }
    if m > max_features || m >= 63 {
        let mut message = String::from_str("correlated linear SHAP supports at most ");
        let count = decimal_text(max_features);
        message.append(count.as_str());
        message.append(" features");
        return Err(ShapError::InvalidConfiguration(message));
    }
    if !ridge_ok {
        return Err(invalid_configuration("ridge must be finite and non-negative"));
    }
    Ok(())
}

} // verus!
