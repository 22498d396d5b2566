//! Configuration of exact pairwise interactions for any model and masker,
//! with the index checks and metadata subsetting used by selections.
use vstd::prelude::*;
use crate::error::{decimal, decimal_text, Result, ShapError};
use crate::evaluation::EvaluationConfig;
use crate::metadata::{FeatureKind, FeatureMetadata, OutputKind, OutputMetadata};

verus! {

/// Exact pairwise Shapley interactions for any prediction model and masker.
pub struct ExactInteractionExplainer<M, K> {
    model: M,
    masker: K,
    max_features: usize,
    evaluation: EvaluationConfig,
}

impl<M, K> ExactInteractionExplainer<M, K> {
    /// The prediction model.
    pub closed spec fn spec_model(&self) -> M {
        self.model
    }

    /// The masker.
    pub closed spec fn spec_masker(&self) -> K {
        self.masker
    }

    /// The largest supported feature count.
    pub closed spec fn spec_max_features(&self) -> usize {
        self.max_features
    }

    /// The coalition evaluation limits.
    pub closed spec fn spec_evaluation(&self) -> EvaluationConfig {
        self.evaluation
    }

    /// An explainer supporting up to 16 features, evaluating coalitions in
    /// batches of 64 with a cache of `2^20` entries and no row limit.
    pub fn new(model: M, masker: K) -> (r: Self)
        ensures
            r.spec_model() == model,
            r.spec_masker() == masker,
            r.spec_max_features() == 16,
            r.spec_evaluation() == (EvaluationConfig {
                coalition_batch_size: 64,
                cache_capacity: 1048576,
                max_model_rows: None,
            }),
    {
        Self {
            model,
            masker,
            max_features: 16,
            evaluation: EvaluationConfig {
                coalition_batch_size: 64,
                cache_capacity: 1048576,
                max_model_rows: None,
            },
        }
    }

    /// Sets the largest supported feature count.
    pub fn with_max_features(self, n: usize) -> (r: Self)
        ensures
            r.spec_model() == self.spec_model(),
            r.spec_masker() == self.spec_masker(),
            r.spec_max_features() == n,
            r.spec_evaluation() == self.spec_evaluation(),
    {
        Self { max_features: n, ..self }
    }

    /// Sets the coalition evaluation limits.
    pub fn with_evaluation_config(self, c: EvaluationConfig) -> (r: Self)
        ensures
            r.spec_model() == self.spec_model(),
            r.spec_masker() == self.spec_masker(),
            r.spec_max_features() == self.spec_max_features(),
            r.spec_evaluation() == c,
    {
        Self { evaluation: c, ..self }
    }

    /// The prediction model.
    pub fn model(&self) -> (r: &M)
        ensures
            *r == self.spec_model(),
    {
        &self.model
    }

    /// The masker.
    pub fn masker(&self) -> (r: &K)
        ensures
            *r == self.spec_masker(),
    {
        &self.masker
    }

    /// The largest supported feature count.
    pub fn max_features(&self) -> (n: usize)
        ensures
            n == self.spec_max_features(),
    {
        self.max_features
    }

    /// The coalition evaluation limits.
    pub fn evaluation(&self) -> (c: EvaluationConfig)
        ensures
            c == self.spec_evaluation(),
    {
        self.evaluation
    }
}

/// The message for exact interactions over too many features.
pub open spec fn interaction_limit_message(max_features: usize) -> Seq<char> {
    "exact interactions support at most "@ + decimal(max_features as nat) + " features"@
}

impl<M, K> ExactInteractionExplainer<M, K> {
    /// Checks a data matrix of `rows` by `cols` against a masker of `m`
    /// features, in the order: some rows, `m` columns, `m` within the
    /// feature limit and below 63.
    pub fn check_input(&self, m: usize, rows: usize, cols: usize) -> (r: Result<()>)
        ensures
            r is Ok <==> rows > 0 && cols == m && m <= self.spec_max_features() && m < 63,
            rows == 0 ==> r == Err::<(), ShapError>(ShapError::EmptyData),
            rows > 0 && cols != m ==> r is Err && crate::error::is_dimension_mismatch(
                r->Err_0,
                decimal(m as nat) + " features"@,
                decimal(cols as nat),
            ),
            rows > 0 && cols == m && (m > self.spec_max_features() || m >= 63) ==> (r matches Err(
                ShapError::InvalidConfiguration(msg),
            ) && msg@ == interaction_limit_message(self.spec_max_features())),
    {
        if rows == 0 {
            return Err(ShapError::EmptyData);
        }
        if cols != m {
            return Err(crate::error::count_mismatch(m, " features", cols));
        }
        if m > self.max_features || m >= 63 {
            let mut message = String::from_str("exact interactions support at most ");
            let count = decimal_text(self.max_features);
            message.append(count.as_str());
            message.append(" features");
            return Err(ShapError::InvalidConfiguration(message));
        }
        Ok(())
    }
}

/// Checks an interaction selection: it must be non-empty (`EmptyData`),
/// and the first index at or past `upper` is reported as `"<axis> index
/// <i> is out of bounds for length <upper>"`. Repeats are allowed.
pub fn validate_indices(indices: &[usize], upper: usize, axis: &str) -> (r: Result<()>)
    ensures
        r is Ok <==> indices@.len() > 0 && forall|p: int| 0 <= p < indices@.len() ==> #[trigger] indices@[p] < upper,
        indices@.len() == 0 ==> r == Err::<(), ShapError>(ShapError::EmptyData),
        forall|p: int|
            0 <= p < indices@.len() && #[trigger] indices@[p] >= upper && (forall|q: int|
                0 <= q < p ==> indices@[q] < upper) ==> (r matches Err(ShapError::InvalidConfiguration(m))
                && m@ == axis@ + " index "@ + decimal(indices@[p] as nat)
                + " is out of bounds for length "@ + decimal(upper as nat)),
{
    if indices.len() == 0 {
        return Err(ShapError::EmptyData);
    }
    let mut p: usize = 0;
    while p < indices.len()
        invariant
            p <= indices.len(),
            forall|q: int| 0 <= q < p ==> #[trigger] indices@[q] < upper,
        decreases indices.len() - p,
    {
        let index = indices[p];
        if index >= upper {
            proof {
                assert forall|x: int|
                    0 <= x < indices@.len() && #[trigger] indices@[x] >= upper && (forall|q: int|
                        0 <= q < x ==> indices@[q] < upper) implies x == p by {
                    if x < p {
                        assert(indices@[x] < upper);
                    } else if x > p {
                        assert(indices@[p as int] < upper);
                    }
                }
            }
            let mut m = String::from_str(axis);
            m.append(" index ");
            let digits = decimal_text(index);
            m.append(digits.as_str());
            m.append(" is out of bounds for length ");
            let bound = decimal_text(upper);
            m.append(bound.as_str());
            return Err(ShapError::InvalidConfiguration(m));
        }
        p = p + 1;
    }
    Ok(())
}

/// The entries of `v` at `indices`, in selection order.
pub open spec fn pick<T>(v: Seq<T>, indices: Seq<usize>) -> Seq<T> {
    Seq::new(indices.len(), |p: int| v[indices[p] as int])
}

/// The optional field's entries at `indices`, when present.
pub open spec fn pick_optional<T>(field: Option<Vec<T>>, indices: Seq<usize>) -> Option<Seq<T>> {
    match field {
        Some(v) => Some(pick(v@, indices)),
        None => None,
    }
}

/// The optional field's contents, when present.
pub open spec fn optional_view<T>(field: Option<Vec<T>>) -> Option<Seq<T>> {
    match field {
        Some(v) => Some(v@),
        None => None,
    }
}

fn pick_strings(v: &Vec<String>, indices: &[usize]) -> (r: Vec<String>)
    requires
        forall|p: int| 0 <= p < indices@.len() ==> #[trigger] indices@[p] < v.len(),
    ensures
        r@ == pick(v@, indices@),
{
    let mut r: Vec<String> = Vec::new();
    let mut p: usize = 0;
    while p < indices.len()
        invariant
            forall|x: int| 0 <= x < indices@.len() ==> #[trigger] indices@[x] < v.len(),
            p <= indices.len(),
            r@ == pick(v@, indices@.take(p as int)),
        decreases indices.len() - p,
    {
        let s = v[indices[p]].clone();
        r.push(s);
        assert(r@ =~= pick(v@, indices@.take(p + 1)));
        p = p + 1;
    }
    assert(indices@.take(indices@.len() as int) =~= indices@);
    r
}

fn pick_kinds(v: &Vec<FeatureKind>, indices: &[usize]) -> (r: Vec<FeatureKind>)
    requires
        forall|p: int| 0 <= p < indices@.len() ==> #[trigger] indices@[p] < v.len(),
    ensures
        r@ == pick(v@, indices@),
{
    let mut r: Vec<FeatureKind> = Vec::new();
    let mut p: usize = 0;
    while p < indices.len()
        invariant
            forall|x: int| 0 <= x < indices@.len() ==> #[trigger] indices@[x] < v.len(),
            p <= indices.len(),
            r@ == pick(v@, indices@.take(p as int)),
        decreases indices.len() - p,
    {
        r.push(v[indices[p]]);
        assert(r@ =~= pick(v@, indices@.take(p + 1)));
        p = p + 1;
    }
    assert(indices@.take(indices@.len() as int) =~= indices@);
    r
}

fn pick_units(v: &Vec<Option<String>>, indices: &[usize]) -> (r: Vec<Option<String>>)
    requires
        forall|p: int| 0 <= p < indices@.len() ==> #[trigger] indices@[p] < v.len(),
    ensures
        r@ == pick(v@, indices@),
{
    let mut r: Vec<Option<String>> = Vec::new();
    let mut p: usize = 0;
    while p < indices.len()
        invariant
            forall|x: int| 0 <= x < indices@.len() ==> #[trigger] indices@[x] < v.len(),
            p <= indices.len(),
            r@ == pick(v@, indices@.take(p as int)),
        decreases indices.len() - p,
    {
        let unit = match &v[indices[p]] {
            Some(s) => Some(s.clone()),
            None => None,
        };
        r.push(unit);
        assert(r@ =~= pick(v@, indices@.take(p + 1)));
        p = p + 1;
    }
    assert(indices@.take(indices@.len() as int) =~= indices@);
    r
}

/// Every index names an entry of the metadata, and every present optional
/// field has an entry for it.
pub open spec fn subset_indices_ok(metadata: FeatureMetadata, indices: Seq<usize>) -> bool {
    forall|p: int|
        0 <= p < indices.len() ==> {
            &&& #[trigger] indices[p] < metadata.names.len()
            &&& (metadata.display_names matches Some(v) ==> indices[p] < v.len())
            &&& (metadata.kinds matches Some(v) ==> indices[p] < v.len())
            &&& (metadata.units matches Some(v) ==> indices[p] < v.len())
        }
}

/// The metadata of the selected features, in selection order.
pub fn subset_feature_metadata(metadata: &FeatureMetadata, indices: &[usize]) -> (r: FeatureMetadata)
    requires
        subset_indices_ok(*metadata, indices@),
    ensures
        r.names@ == pick(metadata.names@, indices@),
        optional_view(r.display_names) == pick_optional(metadata.display_names, indices@),
        optional_view(r.kinds) == pick_optional(metadata.kinds, indices@),
        optional_view(r.units) == pick_optional(metadata.units, indices@),
{
    let names = pick_strings(&metadata.names, indices);
    let display_names = match &metadata.display_names {
        Some(v) => Some(pick_strings(v, indices)),
        None => None,
    };
    let kinds = match &metadata.kinds {
        Some(v) => Some(pick_kinds(v, indices)),
        None => None,
    };
    let units = match &metadata.units {
        Some(v) => Some(pick_units(v, indices)),
        None => None,
    };
    FeatureMetadata { names, display_names, kinds, units }
}

/// The metadata of the single output `output`: its name, and its kind
/// when kinds are recorded.
pub fn single_output_metadata(metadata: &OutputMetadata, output: usize) -> (r: OutputMetadata)
    requires
        output < metadata.names.len(),
        metadata.kinds matches Some(v) ==> output < v.len(),
    ensures
        r.names@ == seq![metadata.names@[output as int]],
        optional_view(r.kinds) == pick_optional(metadata.kinds, seq![output]),
{
    let name = metadata.names[output].clone();
    let mut names: Vec<String> = Vec::new();
    names.push(name);
    let kinds = match &metadata.kinds {
        Some(v) => {
            let mut k: Vec<OutputKind> = Vec::new();
            k.push(v[output]);
            assert(k@ =~= pick(v@, seq![output]));
            Some(k)
        },
        None => None,
    };
    assert(names@ =~= seq![metadata.names@[output as int]]);
    OutputMetadata { names, kinds }
}

} // verus!
