//! Background datasets: the shape and row-index rules they are held to,
//! and the strategies for reducing a large one.
use vstd::prelude::*;
use crate::error::{decimal, decimal_text, invalid_configuration, is_invalid_configuration, Result, ShapError};

verus! {

/// Strategy used to reduce a large background dataset.
#[derive(Debug, Clone, Copy, PartialEq, Eq, Structural)]
pub enum BackgroundSampling {
    /// Use every background observation.
    All,
    /// Randomly sample a fixed number of observations.
    Random(usize),
}

impl Default for BackgroundSampling {
    /// Every observation.
    fn default() -> (s: Self)
        ensures
            s == BackgroundSampling::All,
    {
        BackgroundSampling::All
    }
}

/// A background needs at least one row and at least one feature column:
/// no rows is `EmptyBackground`, rows without columns a configuration error.
pub fn check_background_shape(n_rows: usize, n_cols: usize) -> (r: Result<()>)
    ensures
        r is Ok <==> n_rows > 0 && n_cols > 0,
        n_rows == 0 ==> r == Err::<(), ShapError>(ShapError::EmptyBackground),
        n_rows > 0 && n_cols == 0 ==> r is Err && is_invalid_configuration(
            r->Err_0,
            "background must contain at least one feature"@,
        ),
{
    if n_rows == 0 {
        return Err(ShapError::EmptyBackground);
    }
    if n_cols == 0 {
        return Err(invalid_configuration("background must contain at least one feature"));
    }
    Ok(())
}

/// The message for a row index past the end of a background.
pub open spec fn row_out_of_bounds(index: usize, n_rows: usize) -> Seq<char> {
    "background row index "@ + decimal(index as nat) + " is out of bounds for "@ + decimal(
        n_rows as nat,
    ) + " rows"@
}

fn row_out_of_bounds_error(index: usize, n_rows: usize) -> (e: ShapError)
    ensures
        is_invalid_configuration(e, row_out_of_bounds(index, n_rows)),
{
    let mut m = String::from_str("background row index ");
    let i = decimal_text(index);
    m.append(i.as_str());
    m.append(" is out of bounds for ");
    let n = decimal_text(n_rows);
    m.append(n.as_str());
    m.append(" rows");
    ShapError::InvalidConfiguration(m)
}

/// A row index of a background with `n_rows` rows must be below `n_rows`.
pub fn check_row_index(index: usize, n_rows: usize) -> (r: Result<()>)
    ensures
        r is Ok <==> index < n_rows,
        r is Err ==> is_invalid_configuration(r->Err_0, row_out_of_bounds(index, n_rows)),
{
    if index >= n_rows {
        return Err(row_out_of_bounds_error(index, n_rows));
    }
    Ok(())
}

/// Rows selected from a background must be at least one, each below
/// `n_rows`; repeats are allowed. An empty selection is
/// `EmptyBackground`; otherwise the first index past the end is reported.
pub fn check_row_selection(indices: &[usize], n_rows: usize) -> (r: Result<()>)
    ensures
        r is Ok <==> indices@.len() > 0 && forall|k: int| 0 <= k < indices@.len() ==> #[trigger] indices@[k] < n_rows,
        indices@.len() == 0 ==> r == Err::<(), ShapError>(ShapError::EmptyBackground),
        forall|k: int|
            0 <= k < indices@.len() && #[trigger] indices@[k] >= n_rows && (forall|m: int|
                0 <= m < k ==> indices@[m] < n_rows) ==> r is Err && is_invalid_configuration(
                r->Err_0,
                row_out_of_bounds(indices@[k], n_rows),
            ),
{
    if indices.len() == 0 {
        return Err(ShapError::EmptyBackground);
    }
    let mut i: usize = 0;
    while i < indices.len()
        invariant
            i <= indices@.len(),
            forall|k: int| 0 <= k < i ==> #[trigger] indices@[k] < n_rows,
        decreases indices@.len() - i,
    {
        if indices[i] >= n_rows {
            assert forall|k: int|
                0 <= k < indices@.len() && #[trigger] indices@[k] >= n_rows && (forall|m: int|
                    0 <= m < k ==> indices@[m] < n_rows) implies k == i by {
                if k < i {
                    assert(indices@[k] < n_rows);
                } else if k > i {
                    assert(indices@[i as int] < n_rows);
                }
            }
            return Err(row_out_of_bounds_error(indices[i], n_rows));
        }
        i = i + 1;
    }
    Ok(())
}

/// Whether sampling `n_samples` rows from a background of `n_rows` rows
/// keeps every row (`n_samples >= n_rows`); a sample size of zero is a
/// configuration error.
pub fn sample_keeps_all(n_samples: usize, n_rows: usize) -> (r: Result<bool>)
    ensures
        r is Ok <==> n_samples > 0,
        r matches Ok(all) ==> all == (n_samples >= n_rows),
        r is Err ==> is_invalid_configuration(
            r->Err_0,
            "background sample size must be greater than zero"@,
        ),
{
    if n_samples == 0 {
        return Err(invalid_configuration("background sample size must be greater than zero"));
    }
    Ok(n_samples >= n_rows)
}

} // verus!
