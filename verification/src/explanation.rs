//! What an explanation's attributions mean, the shape rules an explanation
//! obeys, and the index checks applied before selecting samples, features
//! or outputs of an explanation.
use vstd::prelude::*;
use crate::error::{decimal, decimal_text, invalid_configuration, is_dimension_mismatch, is_invalid_configuration, Result, ShapError};

verus! {

/// The interpretation of the attribution values of an explanation.
#[derive(Debug, Clone, Copy, PartialEq, Eq, Structural)]
pub enum AttributionSemantics {
    Unspecified,
    Interventional,
    Conditional,
    TreePathDependent,
    CausalAsymmetric,
}

impl Default for AttributionSemantics {
    /// Unspecified semantics.
    fn default() -> (s: Self)
        ensures
            s == AttributionSemantics::Unspecified,
    {
        AttributionSemantics::Unspecified
    }
}

/// The axis of an explanation that a selection indexes.
#[derive(Debug, Clone, Copy, PartialEq, Eq, Structural)]
pub enum SelectionAxis {
    Sample,
    Feature,
    Output,
}

/// The axis's name as used in messages.
pub open spec fn axis_label(axis: SelectionAxis) -> Seq<char> {
    match axis {
        SelectionAxis::Sample => "sample"@,
        SelectionAxis::Feature => "feature"@,
        SelectionAxis::Output => "output"@,
    }
}

impl SelectionAxis {
    /// The axis's name as used in messages.
    pub fn label(self) -> (s: &'static str)
        ensures
            s@ == axis_label(self),
    {
        match self {
            SelectionAxis::Sample => "sample",
            SelectionAxis::Feature => "feature",
            SelectionAxis::Output => "output",
        }
    }
}

/// The typed error for an index past the end of an axis.
pub open spec fn out_of_bounds_error(axis: SelectionAxis, index: usize, len: usize) -> ShapError {
    match axis {
        SelectionAxis::Sample => ShapError::InvalidSampleIndex { index, n_samples: len },
        SelectionAxis::Feature => ShapError::InvalidFeatureIndex { index, n_features: len },
        SelectionAxis::Output => ShapError::InvalidOutputIndex { index, n_outputs: len },
    }
}

/// Position `p` is in range and its index neither exceeds the axis nor
/// repeats an earlier index.
pub open spec fn selection_entry_ok(indices: Seq<usize>, len: nat, p: int) -> bool {
    indices[p] < len && !indices.take(p).contains(indices[p])
}

/// A non-empty selection of distinct in-range indices.
pub open spec fn selection_valid(indices: Seq<usize>, len: nat) -> bool {
    indices.len() > 0 && forall|p: int| 0 <= p < indices.len() ==> #[trigger] selection_entry_ok(indices, len, p)
}

/// `p` is the first position whose index is out of range or repeated.
pub open spec fn first_bad_entry(indices: Seq<usize>, len: nat, p: int) -> bool {
    &&& 0 <= p < indices.len()
    &&& !selection_entry_ok(indices, len, p)
    &&& forall|q: int| 0 <= q < p ==> #[trigger] selection_entry_ok(indices, len, q)
}

/// Checks a selection along `axis` of length `len`: it must be non-empty
/// (`"<axis> selection cannot be empty"`); scanning in order, the first
/// index past the end is reported with the axis's typed error and the first
/// repeated index as `"duplicate <axis> index <i>"`.
pub fn validate_indices(indices: &[usize], len: usize, axis: SelectionAxis) -> (r: Result<()>)
    ensures
        r is Ok <==> selection_valid(indices@, len as nat),
        indices@.len() == 0 ==> (r matches Err(ShapError::InvalidConfiguration(m)) && m@
            == axis_label(axis) + " selection cannot be empty"@),
        forall|p: int|
            #[trigger] first_bad_entry(indices@, len as nat, p) ==> {
                &&& indices@[p] >= len ==> r == Err::<(), ShapError>(
                    out_of_bounds_error(axis, indices@[p], len),
                )
                &&& indices@[p] < len ==> (r matches Err(ShapError::InvalidConfiguration(m)) && m@
                    == "duplicate "@ + axis_label(axis) + " index "@ + decimal(indices@[p] as nat))
            },
{
    let ghost s = indices@;
    if indices.len() == 0 {
        let mut m = String::from_str(axis.label());
        m.append(" selection cannot be empty");
        return Err(ShapError::InvalidConfiguration(m));
    }
    let mut p: usize = 0;
    while p < indices.len()
        invariant
            s == indices@,
            p <= indices.len(),
            forall|q: int| 0 <= q < p ==> #[trigger] selection_entry_ok(s, len as nat, q),
        decreases indices.len() - p,
    {
        let i = indices[p];
        proof {
            assert forall|q: int| #[trigger] first_bad_entry(s, len as nat, q) implies q >= p by {
                if q < p {
                    assert(selection_entry_ok(s, len as nat, q));
                }
            }
        }
        if i >= len {
            proof {
                assert(first_bad_entry(s, len as nat, p as int));
                assert forall|q: int| #[trigger] first_bad_entry(s, len as nat, q) implies q == p by {
                    if q > p {
                        assert(selection_entry_ok(s, len as nat, p as int));
                    }
                }
            }
            return Err(
                match axis {
                    SelectionAxis::Sample => ShapError::InvalidSampleIndex { index: i, n_samples: len },
                    SelectionAxis::Feature => ShapError::InvalidFeatureIndex {
                        index: i,
                        n_features: len,
                    },
                    SelectionAxis::Output => ShapError::InvalidOutputIndex { index: i, n_outputs: len },
                },
            );
        }
        let mut q: usize = 0;
        while q < p
            invariant
                s == indices@,
                p < indices.len(),
                i == s[p as int],
                i < len,
                forall|x: int| 0 <= x < p ==> #[trigger] selection_entry_ok(s, len as nat, x),
                q <= p,
                forall|x: int| 0 <= x < q ==> s[x] != i,
            decreases p - q,
        {
            if indices[q] == i {
                proof {
                    assert(s.take(p as int)[q as int] == i);
                    assert(!selection_entry_ok(s, len as nat, p as int));
                    assert(first_bad_entry(s, len as nat, p as int));
                    assert forall|x: int| #[trigger] first_bad_entry(s, len as nat, x) implies x == p by {
                        if x > p {
                            assert(selection_entry_ok(s, len as nat, p as int));
                        }
                    }
                }
                let mut m = String::from_str("duplicate ");
                m.append(axis.label());
                m.append(" index ");
                let digits = decimal_text(i);
                m.append(digits.as_str());
                return Err(ShapError::InvalidConfiguration(m));
            }
            q = q + 1;
        }
        proof {
            assert(!s.take(p as int).contains(i)) by {
                if s.take(p as int).contains(i) {
                    let x = choose|x: int| 0 <= x < p && s.take(p as int)[x] == i;
                    assert(s[x] == i);
                }
            }
            assert(selection_entry_ok(s, len as nat, p as int));
        }
        p = p + 1;
    }
    Ok(())
}

/// Two dimensions as `(a, b)`.
pub open spec fn pair_text(a: usize, b: usize) -> Seq<char> {
    "("@ + decimal(a as nat) + ", "@ + decimal(b as nat) + ")"@
}

/// Three dimensions as `(a, b, c)`.
pub open spec fn triple_text(a: usize, b: usize, c: usize) -> Seq<char> {
    "("@ + decimal(a as nat) + ", "@ + decimal(b as nat) + ", "@ + decimal(c as nat) + ")"@
}

/// Four dimensions as `(a, b, c, d)`.
pub open spec fn quad_text(a: usize, b: usize, c: usize, d: usize) -> Seq<char> {
    "("@ + decimal(a as nat) + ", "@ + decimal(b as nat) + ", "@ + decimal(c as nat) + ", "@
        + decimal(d as nat) + ")"@
}

fn push_decimal(s: &mut String, n: usize)
    ensures
        final(s)@ == old(s)@ + decimal(n as nat),
{
    let t = decimal_text(n);
    s.append(t.as_str());
}

pub(crate) fn pair_string(a: usize, b: usize) -> (s: String)
    ensures
        s@ == pair_text(a, b),
{
    let mut s = String::from_str("(");
    push_decimal(&mut s, a);
    s.append(", ");
    push_decimal(&mut s, b);
    s.append(")");
    s
}

fn triple_string(a: usize, b: usize, c: usize) -> (s: String)
    ensures
        s@ == triple_text(a, b, c),
{
    let mut s = String::from_str("(");
    push_decimal(&mut s, a);
    s.append(", ");
    push_decimal(&mut s, b);
    s.append(", ");
    push_decimal(&mut s, c);
    s.append(")");
    s
}

fn quad_string(a: usize, b: usize, c: usize, d: usize) -> (s: String)
    ensures
        s@ == quad_text(a, b, c, d),
{
    let mut s = String::from_str("(");
    push_decimal(&mut s, a);
    s.append(", ");
    push_decimal(&mut s, b);
    s.append(", ");
    push_decimal(&mut s, c);
    s.append(", ");
    push_decimal(&mut s, d);
    s.append(")");
    s
}

/// The finding reported for inconsistent explanation arrays.
pub open spec fn explanation_shapes_text(
    values: (usize, usize, usize),
    base: (usize, usize),
    data: (usize, usize),
) -> Seq<char> {
    "values "@ + triple_text(values.0, values.1, values.2) + ", base "@ + pair_text(base.0, base.1)
        + ", data "@ + pair_text(data.0, data.1)
}

/// The shapes of an explanation's arrays: values `(samples, features,
/// outputs)` with at least one of each, base values `(samples, outputs)`
/// and data `(samples, features)`. No samples is `EmptyData`; no feature
/// or output a configuration error; other disagreements a dimension
/// mismatch listing all three shapes.
pub fn check_explanation_shape(
    values: (usize, usize, usize),
    base: (usize, usize),
    data: (usize, usize),
) -> (r: Result<()>)
    ensures
        r is Ok <==> values.0 > 0 && values.1 > 0 && values.2 > 0 && data == (values.0, values.1)
            && base == (values.0, values.2),
        values.0 == 0 ==> r == Err::<(), ShapError>(ShapError::EmptyData),
        values.0 > 0 && (values.1 == 0 || values.2 == 0) ==> r is Err && is_invalid_configuration(
            r->Err_0,
            "an explanation must contain at least one feature and one output"@,
        ),
        values.0 > 0 && values.1 > 0 && values.2 > 0 && (data != (values.0, values.1) || base != (
        values.0, values.2)) ==> r is Err && is_dimension_mismatch(
            r->Err_0,
            "consistent sample/feature/output dimensions"@,
            explanation_shapes_text(values, base, data),
        ),
{
    if values.0 == 0 {
        return Err(ShapError::EmptyData);
    }
    if values.1 == 0 || values.2 == 0 {
        return Err(invalid_configuration("an explanation must contain at least one feature and one output"));
    }
    if data.0 != values.0 || data.1 != values.1 || base.0 != values.0 || base.1 != values.2 {
        let mut found = String::from_str("values ");
        let v = triple_string(values.0, values.1, values.2);
        found.append(v.as_str());
        found.append(", base ");
        let b = pair_string(base.0, base.1);
        found.append(b.as_str());
        found.append(", data ");
        let d = pair_string(data.0, data.1);
        found.append(d.as_str());
        return Err(
            ShapError::DimensionMismatch {
                expected: String::from_str("consistent sample/feature/output dimensions"),
                found,
            },
        );
    }
    Ok(())
}

/// The expectation reported for interaction data and base values of the
/// wrong shape.
pub open spec fn interaction_parts_text(samples: usize, features: usize, outputs: usize) -> Seq<char> {
    "data "@ + pair_text(samples, features) + " and base values "@ + pair_text(samples, outputs)
}

/// The shapes of an interaction explanation's arrays: values `(samples,
/// features, features, outputs)` with at least one of each, data `(samples,
/// features)` and base values `(samples, outputs)`.
pub fn check_interaction_shape(
    values: (usize, usize, usize, usize),
    base: (usize, usize),
    data: (usize, usize),
) -> (r: Result<()>)
    ensures
        r is Ok <==> values.0 > 0 && values.1 > 0 && values.3 > 0 && values.1 == values.2 && data == (
        values.0, values.1) && base == (values.0, values.3),
        values.0 == 0 ==> r == Err::<(), ShapError>(ShapError::EmptyData),
        values.0 > 0 && (values.1 == 0 || values.3 == 0 || values.1 != values.2) ==> r is Err
            && is_dimension_mismatch(
            r->Err_0,
            "non-empty square interaction feature axes"@,
            "interaction values "@ + quad_text(values.0, values.1, values.2, values.3),
        ),
        values.0 > 0 && values.1 > 0 && values.3 > 0 && values.1 == values.2 && (data != (
        values.0, values.1) || base != (values.0, values.3)) ==> r is Err && is_dimension_mismatch(
            r->Err_0,
            interaction_parts_text(values.0, values.1, values.3),
            "data "@ + pair_text(data.0, data.1) + ", base values "@ + pair_text(base.0, base.1),
        ),
{
    if values.0 == 0 {
        return Err(ShapError::EmptyData);
    }
    if values.1 == 0 || values.3 == 0 || values.1 != values.2 {
        let mut found = String::from_str("interaction values ");
        let q = quad_string(values.0, values.1, values.2, values.3);
        found.append(q.as_str());
        return Err(
            ShapError::DimensionMismatch {
                expected: String::from_str("non-empty square interaction feature axes"),
                found,
            },
        );
    }
    if data.0 != values.0 || data.1 != values.1 || base.0 != values.0 || base.1 != values.3 {
        let mut expected = String::from_str("data ");
        let a = pair_string(values.0, values.1);
        expected.append(a.as_str());
        expected.append(" and base values ");
        let b = pair_string(values.0, values.3);
        expected.append(b.as_str());
        let mut found = String::from_str("data ");
        let c = pair_string(data.0, data.1);
        found.append(c.as_str());
        found.append(", base values ");
        let d = pair_string(base.0, base.1);
        found.append(d.as_str());
        return Err(ShapError::DimensionMismatch { expected, found });
    }
    Ok(())
}

/// Standard errors must have the shape of the values they accompany.
pub fn check_error_shape(values: (usize, usize, usize), errors: (usize, usize, usize)) -> (r: Result<()>)
    ensures
        r is Ok <==> errors == values,
        r is Err ==> is_dimension_mismatch(
            r->Err_0,
            triple_text(values.0, values.1, values.2) + " standard errors"@,
            triple_text(errors.0, errors.1, errors.2),
        ),
{
    if errors.0 != values.0 || errors.1 != values.1 || errors.2 != values.2 {
        let mut expected = triple_string(values.0, values.1, values.2);
        expected.append(" standard errors");
        let found = triple_string(errors.0, errors.1, errors.2);
        return Err(ShapError::DimensionMismatch { expected, found });
    }
    Ok(())
}

/// A count must match: a mismatch is reported as `"<expected><expected
/// suffix>"` against `"<found><found suffix>"`.
pub fn check_count(expected: usize, found: usize, expected_suffix: &str, found_suffix: &str) -> (r:
    Result<()>)
    ensures
        r is Ok <==> expected == found,
        r is Err ==> is_dimension_mismatch(
            r->Err_0,
            decimal(expected as nat) + expected_suffix@,
            decimal(found as nat) + found_suffix@,
        ),
{
    if expected != found {
        let mut e = decimal_text(expected);
        e.append(expected_suffix);
        let mut f = decimal_text(found);
        f.append(found_suffix);
        return Err(ShapError::DimensionMismatch { expected: e, found: f });
    }
    Ok(())
}

} // verus!
