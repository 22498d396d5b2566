//! Names, kinds and units describing model inputs and outputs.
use vstd::prelude::*;
use crate::error::{
    count_mismatch, counted, decimal, invalid_configuration, is_dimension_mismatch,
    is_invalid_configuration, Result, ShapError,
};

verus! {

/// The kind of value a feature holds.
#[derive(Debug, Clone, Copy, PartialEq, Eq, Structural)]
pub enum FeatureKind {
    Continuous,
    Categorical,
    Ordinal,
    Boolean,
    TextToken,
    ImageValue,
}

impl Default for FeatureKind {
    /// Continuous values.
    fn default() -> (k: Self)
        ensures
            k == FeatureKind::Continuous,
    {
        FeatureKind::Continuous
    }
}

/// The kind of value a model output holds.
#[derive(Debug, Clone, Copy, PartialEq, Eq, Structural)]
pub enum OutputKind {
    Regression,
    Probability,
    LogOdds,
    ClassScore,
    Embedding,
}

impl Default for OutputKind {
    /// Regression outputs.
    fn default() -> (k: Self)
        ensures
            k == OutputKind::Regression,
    {
        OutputKind::Regression
    }
}

/// Every name is non-empty.
pub open spec fn all_nonempty(names: Seq<Seq<char>>) -> bool {
    forall|i: int| 0 <= i < names.len() ==> #[trigger] names[i].len() > 0
}

/// At least one name, none empty, no two equal.
pub open spec fn names_valid(names: Seq<Seq<char>>) -> bool {
    names.len() > 0 && all_nonempty(names) && names.no_duplicates()
}

/// An optional per-name field has one entry per name when present.
pub open spec fn optional_len_matches<T>(field: Option<Vec<T>>, n: nat) -> bool {
    match field {
        Some(v) => v.len() == n,
        None => true,
    }
}

/// Metadata for input features.
#[derive(Debug, Clone, PartialEq, Eq)]
pub struct FeatureMetadata {
    pub names: Vec<String>,
    pub display_names: Option<Vec<String>>,
    pub kinds: Option<Vec<FeatureKind>>,
    pub units: Option<Vec<Option<String>>>,
}

/// Valid names and, where present, one display name, kind and unit per name.
pub open spec fn feature_metadata_valid(m: FeatureMetadata) -> bool {
    &&& names_valid(m.names.deep_view())
    &&& optional_len_matches(m.display_names, m.names.len() as nat)
    &&& optional_len_matches(m.kinds, m.names.len() as nat)
    &&& optional_len_matches(m.units, m.names.len() as nat)
}

/// The error [`FeatureMetadata::validate`] reports for invalid metadata:
/// `"feature names cannot be empty"` when there are no names or one is
/// empty, else `"feature names must be unique"` on a repeat, else the
/// dimension mismatch of the optional fields.
pub open spec fn feature_metadata_error(m: FeatureMetadata, e: ShapError) -> bool {
    if !(m.names.len() > 0 && all_nonempty(m.names.deep_view())) {
        is_invalid_configuration(e, "feature names cannot be empty"@)
    } else if !m.names.deep_view().no_duplicates() {
        is_invalid_configuration(e, "feature names must be unique"@)
    } else {
        is_dimension_mismatch(
            e,
            decimal(m.names.len() as nat) + " entries in all feature metadata fields"@,
            "inconsistent feature metadata"@,
        )
    }
}

/// The error [`OutputMetadata::validate`] reports for invalid metadata:
/// `"output names cannot be empty"` when there are no names or one is
/// empty, else the kinds' dimension mismatch.
pub open spec fn output_metadata_error(m: OutputMetadata, e: ShapError) -> bool {
    if !(m.names.len() > 0 && all_nonempty(m.names.deep_view())) {
        is_invalid_configuration(e, "output names cannot be empty"@)
    } else {
        is_dimension_mismatch(
            e,
            decimal(m.names.len() as nat) + " output kinds"@,
            "inconsistent output metadata"@,
        )
    }
}

/// Whether some name is empty.
fn any_empty(names: &Vec<String>) -> (r: bool)
    ensures
        r == !all_nonempty(names.deep_view()),
{
    let mut i: usize = 0;
    while i < names.len()
        invariant
            i <= names.len(),
            forall|x: int| 0 <= x < i ==> #[trigger] names.deep_view()[x].len() > 0,
        decreases names.len() - i,
    {
        let len = names[i].as_str().unicode_len();
        assert(names.deep_view()[i as int] == names@[i as int]@);
        if len == 0 {
            return true;
        }
        i = i + 1;
    }
    false
}

/// Whether two names are equal.
fn any_duplicate(names: &Vec<String>) -> (r: bool)
    ensures
        r == !names.deep_view().no_duplicates(),
{
    let ghost v = names.deep_view();
    let mut i: usize = 0;
    while i < names.len()
        invariant
            v == names.deep_view(),
            i <= names.len(),
            forall|x: int, y: int| 0 <= x < y < i ==> v[x] != v[y],
        decreases names.len() - i,
    {
        let mut j: usize = 0;
        while j < i
            invariant
                v == names.deep_view(),
                i < names.len(),
                j <= i,
                forall|x: int, y: int| 0 <= x < y < i ==> v[x] != v[y],
                forall|x: int| 0 <= x < j ==> v[x] != v[i as int],
            decreases i - j,
        {
            if names[j] == names[i] {
                assert(v[j as int] == v[i as int]);
                return true;
            }
            j = j + 1;
        }
        i = i + 1;
    }
    assert forall|x: int, y: int| 0 <= x < v.len() && 0 <= y < v.len() && x != y implies v[x]
        != v[y] by {
        if x > y {
            assert(v[y] != v[x]);
        }
    }
    false
}

/// Checks names: `"<subject> names cannot be empty"` when there are none or
/// one is empty, then (for features) `"feature names must be unique"`.
fn check_names(names: &Vec<String>, require_unique: bool, empty_message: &str, unique_message: &str) -> (r: Result<()>)
    ensures
        r is Ok <==> (names.len() > 0 && all_nonempty(names.deep_view()) && (require_unique
            ==> names.deep_view().no_duplicates())),
        (names.len() == 0 || !all_nonempty(names.deep_view())) ==> r is Err
            && is_invalid_configuration(r->Err_0, empty_message@),
        (names.len() > 0 && all_nonempty(names.deep_view()) && require_unique
            && !names.deep_view().no_duplicates()) ==> r is Err && is_invalid_configuration(
            r->Err_0,
            unique_message@,
        ),
{
    if names.len() == 0 || any_empty(names) {
        return Err(invalid_configuration(empty_message));
    }
    if require_unique && any_duplicate(names) {
        return Err(invalid_configuration(unique_message));
    }
    Ok(())
}

/// The lengths of the optional fields, or `None` for absent ones.
fn optional_len<T>(field: &Option<Vec<T>>) -> (r: Option<usize>)
    ensures
        r == match field {
            Some(v) => Some(v.len()),
            None => None::<usize>,
        },
{
    match field {
        Some(v) => Some(v.len()),
        None => None,
    }
}

impl FeatureMetadata {
    /// Metadata with the given names and no optional fields. Fails with
    /// `"feature names cannot be empty"` when there are no names or one is
    /// empty, and with `"feature names must be unique"` on a repeat.
    pub fn new(names: Vec<String>) -> (r: Result<Self>)
        ensures
            r is Ok <==> names_valid(names.deep_view()),
            r matches Ok(m) ==> m.names@ == names@ && m.display_names is None && m.kinds is None
                && m.units is None,
            !(names.len() > 0 && all_nonempty(names.deep_view())) ==> r is Err
                && is_invalid_configuration(r->Err_0, "feature names cannot be empty"@),
            (names.len() > 0 && all_nonempty(names.deep_view()) && !names.deep_view().no_duplicates())
                ==> r is Err && is_invalid_configuration(r->Err_0, "feature names must be unique"@),
    {
        match check_names(&names, true, "feature names cannot be empty", "feature names must be unique") {
            Ok(()) => Ok(Self { names, display_names: None, kinds: None, units: None }),
            Err(e) => Err(e),
        }
    }

    /// Attaches one kind per feature; a length mismatch is reported as
    /// `DimensionMismatch { expected: "<n> feature kinds", found: "<len>" }`.
    pub fn with_kinds(self, kinds: Vec<FeatureKind>) -> (r: Result<Self>)
        ensures
            r is Ok <==> kinds.len() == self.names.len(),
            r matches Ok(m) ==> m == (FeatureMetadata { kinds: Some(kinds), ..self }),
            r is Err ==> is_dimension_mismatch(
                r->Err_0,
                decimal(self.names.len() as nat) + " feature kinds"@,
                decimal(kinds.len() as nat),
            ),
    {
        if kinds.len() != self.names.len() {
            return Err(count_mismatch(self.names.len(), " feature kinds", kinds.len()));
        }
        Ok(FeatureMetadata { kinds: Some(kinds), ..self })
    }

    /// Attaches one optional unit per feature; a length mismatch is reported
    /// as `DimensionMismatch { expected: "<n> feature units", found: "<len>" }`.
    pub fn with_units(self, units: Vec<Option<String>>) -> (r: Result<Self>)
        ensures
            r is Ok <==> units.len() == self.names.len(),
            r matches Ok(m) ==> m == (FeatureMetadata { units: Some(units), ..self }),
            r is Err ==> is_dimension_mismatch(
                r->Err_0,
                decimal(self.names.len() as nat) + " feature units"@,
                decimal(units.len() as nat),
            ),
    {
        if units.len() != self.names.len() {
            return Err(count_mismatch(self.names.len(), " feature units", units.len()));
        }
        Ok(FeatureMetadata { units: Some(units), ..self })
    }

    /// Attaches one display name per feature; a length mismatch is reported
    /// as `DimensionMismatch { expected: "<n> display names", found: "<len>" }`.
    pub fn with_display_names(self, names: Vec<String>) -> (r: Result<Self>)
        ensures
            r is Ok <==> names.len() == self.names.len(),
            r matches Ok(m) ==> m == (FeatureMetadata { display_names: Some(names), ..self }),
            r is Err ==> is_dimension_mismatch(
                r->Err_0,
                decimal(self.names.len() as nat) + " display names"@,
                decimal(names.len() as nat),
            ),
    {
        if names.len() != self.names.len() {
            return Err(count_mismatch(self.names.len(), " display names", names.len()));
        }
        Ok(FeatureMetadata { display_names: Some(names), ..self })
    }

    /// Checks the names as [`FeatureMetadata::new`] does, then that every
    /// present optional field has one entry per name; otherwise
    /// `DimensionMismatch { expected: "<n> entries in all feature metadata
    /// fields", found: "inconsistent feature metadata" }`.
    pub fn validate(&self) -> (r: Result<()>)
        ensures
            r is Ok <==> feature_metadata_valid(*self),
            r matches Err(e) ==> feature_metadata_error(*self, e),
    {
        match check_names(&self.names, true, "feature names cannot be empty", "feature names must be unique") {
            Ok(()) => {},
            Err(e) => return Err(e),
        }
        let n = self.names.len();
        let d = optional_len(&self.display_names);
        let k = optional_len(&self.kinds);
        let u = optional_len(&self.units);
        let bad_d = match d {
            Some(len) => len != n,
            None => false,
        };
        let bad_k = match k {
            Some(len) => len != n,
            None => false,
        };
        let bad_u = match u {
            Some(len) => len != n,
            None => false,
        };
        if bad_d || bad_k || bad_u {
            return Err(
                ShapError::DimensionMismatch {
                    expected: counted(n, " entries in all feature metadata fields"),
                    found: String::from_str("inconsistent feature metadata"),
                },
            );
        }
        Ok(())
    }
}

/// Metadata for model outputs.
#[derive(Debug, Clone, PartialEq, Eq)]
pub struct OutputMetadata {
    pub names: Vec<String>,
    pub kinds: Option<Vec<OutputKind>>,
}

/// At least one name, none empty, and one kind per name when present.
pub open spec fn output_metadata_valid(m: OutputMetadata) -> bool {
    &&& m.names.len() > 0
    &&& all_nonempty(m.names.deep_view())
    &&& optional_len_matches(m.kinds, m.names.len() as nat)
}

impl OutputMetadata {
    /// Metadata with the given names and no kinds; fails with
    /// `"output names cannot be empty"` when there are no names or one is
    /// empty. Output names may repeat.
    pub fn new(names: Vec<String>) -> (r: Result<Self>)
        ensures
            r is Ok <==> names.len() > 0 && all_nonempty(names.deep_view()),
            r matches Ok(m) ==> m.names@ == names@ && m.kinds is None,
            r is Err ==> is_invalid_configuration(r->Err_0, "output names cannot be empty"@),
    {
        match check_names(&names, false, "output names cannot be empty", "") {
            Ok(()) => Ok(Self { names, kinds: None }),
            Err(e) => Err(e),
        }
    }

    /// Attaches one kind per output; a length mismatch is reported as
    /// `DimensionMismatch { expected: "<n> output kinds", found: "<len>" }`.
    pub fn with_kinds(self, kinds: Vec<OutputKind>) -> (r: Result<Self>)
        ensures
            r is Ok <==> kinds.len() == self.names.len(),
            r matches Ok(m) ==> m == (OutputMetadata { kinds: Some(kinds), ..self }),
            r is Err ==> is_dimension_mismatch(
                r->Err_0,
                decimal(self.names.len() as nat) + " output kinds"@,
                decimal(kinds.len() as nat),
            ),
    {
        if kinds.len() != self.names.len() {
            return Err(count_mismatch(self.names.len(), " output kinds", kinds.len()));
        }
        Ok(OutputMetadata { kinds: Some(kinds), ..self })
    }

    /// Checks the names as [`OutputMetadata::new`] does, then that kinds,
    /// when present, number one per name; otherwise `DimensionMismatch {
    /// expected: "<n> output kinds", found: "inconsistent output metadata" }`.
    pub fn validate(&self) -> (r: Result<()>)
        ensures
            r is Ok <==> output_metadata_valid(*self),
            r matches Err(e) ==> output_metadata_error(*self, e),
    {
        match check_names(&self.names, false, "output names cannot be empty", "") {
            Ok(()) => {},
            Err(e) => return Err(e),
        }
        let bad = match optional_len(&self.kinds) {
            Some(len) => len != self.names.len(),
            None => false,
        };
        if bad {
            return Err(
                ShapError::DimensionMismatch {
                    expected: counted(self.names.len(), " output kinds"),
                    found: String::from_str("inconsistent output metadata"),
                },
            );
        }
        Ok(())
    }
}

} // verus!
