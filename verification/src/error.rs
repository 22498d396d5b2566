//! Errors shared by every component of the library, and the allocation-size
//! check used before building large result arrays.
use vstd::prelude::*;

verus! {

/// The result type used throughout the library.
pub type Result<T> = core::result::Result<T, ShapError>;

/// Errors that can occur while constructing or evaluating SHAP explainers.
#[derive(Debug, Clone, PartialEq)]
pub enum ShapError {
    /// Two or more arrays have incompatible dimensions.
    DimensionMismatch { expected: String, found: String },
    /// A feature index is outside the valid feature range.
    InvalidFeatureIndex { index: usize, n_features: usize },
    /// A sample index is outside the valid sample range.
    InvalidSampleIndex { index: usize, n_samples: usize },
    /// An output index is outside the valid model-output range.
    InvalidOutputIndex { index: usize, n_outputs: usize },
    /// The supplied data contains no samples.
    EmptyData,
    /// The supplied background dataset contains no samples.
    EmptyBackground,
    /// An invalid configuration was supplied to an explainer or component.
    InvalidConfiguration(String),
    /// A model prediction failed.
    ModelError(String),
    /// A masking operation failed.
    MaskerError(String),
    /// A numerical operation failed.
    NumericalError(String),
    /// A linear-system or weighted least-squares solver failed.
    SolverError(String),
    /// The requested functionality is not supported.
    Unsupported(String),
    /// A required feature name or other metadata item was missing.
    MissingMetadata(String),
    /// An operation was requested with incompatible output dimensions.
    OutputDimensionMismatch { expected: usize, found: usize },
    /// An underlying error that does not have a more specific type.
    Other(String),
}

/// The character for a single decimal digit.
pub open spec fn digit_char(d: nat) -> char {
    (d + 48) as char
}

/// The decimal spelling of a natural number, without sign or padding.
pub open spec fn decimal(n: nat) -> Seq<char>
    decreases n,
{
    if n < 10 {
        seq![digit_char(n)]
    } else {
        decimal(n / 10).push(digit_char(n % 10))
    }
}

/// The one-character text of the decimal digit `d`.
fn digit_text(d: usize) -> (s: &'static str)
    requires
        d < 10,
    ensures
        s@ == seq![digit_char(d as nat)],
{
    proof {
        reveal_strlit("0");
        reveal_strlit("1");
        reveal_strlit("2");
        reveal_strlit("3");
        reveal_strlit("4");
        reveal_strlit("5");
        reveal_strlit("6");
        reveal_strlit("7");
        reveal_strlit("8");
        reveal_strlit("9");
    }
    match d {
        0 => "0",
        1 => "1",
        2 => "2",
        3 => "3",
        4 => "4",
        5 => "5",
        6 => "6",
        7 => "7",
        8 => "8",
        _ => "9",
    }
}

/// Spells `value` in decimal: the base-ten digits, most significant
/// first, with no sign, padding or separators.
pub(crate) fn decimal_text(value: usize) -> (text: String)
    ensures
        text@ == decimal(value as nat),
    decreases value,
{
    if value < 10 {
        String::from_str(digit_text(value))
    } else {
        let mut text = decimal_text(value / 10);
        text.append(digit_text(value % 10));
        text
    }
}

/// `InvalidConfiguration` carrying exactly `message`.
pub open spec fn is_invalid_configuration(e: ShapError, message: Seq<char>) -> bool {
    e matches ShapError::InvalidConfiguration(m) && m@ == message
}

/// `DimensionMismatch` carrying exactly the two descriptions.
pub open spec fn is_dimension_mismatch(e: ShapError, expected: Seq<char>, found: Seq<char>) -> bool {
    e matches ShapError::DimensionMismatch { expected: x, found: y } && x@ == expected && y@ == found
}

/// Builds an `InvalidConfiguration` error from a literal message.
pub(crate) fn invalid_configuration(message: &str) -> (e: ShapError)
    ensures
        is_invalid_configuration(e, message@),
{
    ShapError::InvalidConfiguration(String::from_str(message))
}

/// The product of `dims` computed left to right in `usize`, or `None` as
/// soon as a partial product exceeds `usize::MAX`.
pub open spec fn checked_product(dims: Seq<usize>) -> Option<nat>
    decreases dims.len(),
{
    if dims.len() == 0 {
        Some(1)
    } else {
        match checked_product(dims.drop_last()) {
            None => None,
            Some(p) => if p * (dims.last() as nat) > usize::MAX {
                None
            } else {
                Some(p * (dims.last() as nat))
            },
        }
    }
}

/// Whether an `f64` array with these dimensions has an element count that
/// fits in `usize` and a byte size (8 bytes per element) of at most `isize::MAX`.
pub open spec fn f64_shape_fits(dims: Seq<usize>) -> bool {
    match checked_product(dims) {
        Some(p) => p * 8 <= isize::MAX,
        None => false,
    }
}

/// The message reported when a shape is too large to allocate.
pub open spec fn overflow_message(context: Seq<char>) -> Seq<char> {
    context + " dimensions overflow the addressable allocation size"@
}

/// Rejects array shapes whose `f64` allocation would overflow the
/// addressable size.
pub fn checked_f64_shape(dimensions: &[usize], context: &str) -> (r: Result<()>)
    ensures
        r is Ok <==> f64_shape_fits(dimensions@),
        r is Err ==> is_invalid_configuration(r->Err_0, overflow_message(context@)),
{
    let mut elements: usize = 1;
    let mut i: usize = 0;
    let mut overflowed = false;
    while i < dimensions.len()
        invariant
            i <= dimensions@.len(),
            overflowed ==> checked_product(dimensions@.take(i as int)) is None,
            !overflowed ==> checked_product(dimensions@.take(i as int)) == Some(elements as nat),
        decreases dimensions@.len() - i,
    {
        assert(dimensions@.take(i + 1).drop_last() =~= dimensions@.take(i as int));
        if !overflowed {
            match elements.checked_mul(dimensions[i]) {
                Some(product) => {
                    elements = product;
                },
                None => {
                    overflowed = true;
                },
            }
        }
        i = i + 1;
    }
    assert(dimensions@.take(dimensions@.len() as int) =~= dimensions@);
    let fits = if overflowed {
        false
    } else {
        match elements.checked_mul(8) {
            Some(size) => size <= isize::MAX as usize,
            None => false,
        }
    };
    if !fits {
        let mut message = String::from_str(context);
        message.append(" dimensions overflow the addressable allocation size");
        return Err(ShapError::InvalidConfiguration(message));
    }
    Ok(())
}

/// `n` in decimal followed by `suffix`.
pub(crate) fn counted(n: usize, suffix: &str) -> (s: String)
    ensures
        s@ == decimal(n as nat) + suffix@,
{
    let mut s = decimal_text(n);
    s.append(suffix);
    s
}

/// A `DimensionMismatch` whose expectation is `n` followed by `suffix` and
/// whose finding is `found` in decimal.
pub(crate) fn count_mismatch(n: usize, suffix: &str, found: usize) -> (e: ShapError)
    ensures
        is_dimension_mismatch(e, decimal(n as nat) + suffix@, decimal(found as nat)),
{
    ShapError::DimensionMismatch { expected: counted(n, suffix), found: decimal_text(found) }
}

/// A message followed by the text of `detail`.
fn labelled(label: &str, detail: &String) -> (s: String)
    ensures
        s@ == label@ + detail@,
{
    let mut s = String::from_str(label);
    s.append(detail.as_str());
    s
}

/// The text an error is displayed with.
pub open spec fn error_text(e: ShapError) -> Seq<char> {
    match e {
        ShapError::DimensionMismatch { expected, found } => "dimension mismatch: expected "@
            + expected@ + ", found "@ + found@,
        ShapError::InvalidFeatureIndex { index, n_features } => "invalid feature index "@ + decimal(
            index as nat,
        ) + "; dataset contains "@ + decimal(n_features as nat) + " features"@,
        ShapError::InvalidSampleIndex { index, n_samples } => "invalid sample index "@ + decimal(
            index as nat,
        ) + "; explanation contains "@ + decimal(n_samples as nat) + " samples"@,
        ShapError::InvalidOutputIndex { index, n_outputs } => "invalid output index "@ + decimal(
            index as nat,
        ) + "; explanation contains "@ + decimal(n_outputs as nat) + " outputs"@,
        ShapError::EmptyData => "input data is empty"@,
        ShapError::EmptyBackground => "background dataset is empty"@,
        ShapError::InvalidConfiguration(m) => "invalid configuration: "@ + m@,
        ShapError::ModelError(m) => "model error: "@ + m@,
        ShapError::MaskerError(m) => "masker error: "@ + m@,
        ShapError::NumericalError(m) => "numerical error: "@ + m@,
        ShapError::SolverError(m) => "solver error: "@ + m@,
        ShapError::Unsupported(m) => "unsupported operation: "@ + m@,
        ShapError::MissingMetadata(m) => "missing metadata: "@ + m@,
        ShapError::OutputDimensionMismatch { expected, found } => "output dimension mismatch: expected "@
            + decimal(expected as nat) + ", found "@ + decimal(found as nat),
        ShapError::Other(m) => m@,
    }
}

impl ShapError {
    /// The text the error is displayed with.
    pub fn to_string(&self) -> (s: String)
        ensures
            s@ == error_text(*self),
    {
        match self {
            ShapError::DimensionMismatch { expected, found } => {
                let mut s = labelled("dimension mismatch: expected ", expected);
                s.append(", found ");
                s.append(found.as_str());
                s
            },
            ShapError::InvalidFeatureIndex { index, n_features } => {
                let mut s = String::from_str("invalid feature index ");
                let a = decimal_text(*index);
                s.append(a.as_str());
                s.append("; dataset contains ");
                let b = counted(*n_features, " features");
                s.append(b.as_str());
                s
            },
            ShapError::InvalidSampleIndex { index, n_samples } => {
                let mut s = String::from_str("invalid sample index ");
                let a = decimal_text(*index);
                s.append(a.as_str());
                s.append("; explanation contains ");
                let b = counted(*n_samples, " samples");
                s.append(b.as_str());
                s
            },
            ShapError::InvalidOutputIndex { index, n_outputs } => {
                let mut s = String::from_str("invalid output index ");
                let a = decimal_text(*index);
                s.append(a.as_str());
                s.append("; explanation contains ");
                let b = counted(*n_outputs, " outputs");
                s.append(b.as_str());
                s
            },
            ShapError::EmptyData => String::from_str("input data is empty"),
            ShapError::EmptyBackground => String::from_str("background dataset is empty"),
            ShapError::InvalidConfiguration(m) => labelled("invalid configuration: ", m),
            ShapError::ModelError(m) => labelled("model error: ", m),
            ShapError::MaskerError(m) => labelled("masker error: ", m),
            ShapError::NumericalError(m) => labelled("numerical error: ", m),
            ShapError::SolverError(m) => labelled("solver error: ", m),
            ShapError::Unsupported(m) => labelled("unsupported operation: ", m),
            ShapError::MissingMetadata(m) => labelled("missing metadata: ", m),
            ShapError::OutputDimensionMismatch { expected, found } => {
                let mut s = String::from_str("output dimension mismatch: expected ");
                let a = decimal_text(*expected);
                s.append(a.as_str());
                s.append(", found ");
                let b = decimal_text(*found);
                s.append(b.as_str());
                s
            },
            ShapError::Other(m) => m.clone(),
        }
    }
}

} // verus!
