//! Error type for the conditional-independence core, and the message texts
//! that accompany each error.

use vstd::prelude::*;

verus! {

/// Errors that can arise when constructing a [`crate::dataset::Dataset`] or
/// running a conditional-independence test.
#[derive(Debug)]
pub enum CiError {
    /// Columns did not share a common length, or two columns shared a name
    /// (names must be unique).
    DimensionMismatch(String),
    /// The data is degenerate or unsupported for the requested test (e.g. a
    /// column with zero variance for a correlation test, or too few rows).
    DegenerateData(String),
    /// A numerical routine failed (e.g. distribution construction, or a
    /// rank-deficient conditioning set in the partial-correlation solve).
    Numeric(String),
    /// A column reference (name or index) did not resolve to any column.
    UnknownColumn(String),
    /// A column was used with a test that expects a different kind.
    WrongColumnKind(String),
    /// A column contained NaN / missing values at `Dataset` construction.
    MissingData(String),
    /// The (x, y, z) query itself is malformed (x == y, x/y inside z, or
    /// duplicate entries in z).
    InvalidQuery(String),
    /// A test was configured with a value outside its permitted range.
    InvalidConfig(String),
}

/// The decimal rendering of `n`, as `Display` for `usize` writes it.
pub uninterp spec fn decimal_text(n: usize) -> Seq<char>;

/// Formats `prefix`, the decimal `n`, then `suffix` (std's `format!`): the
/// result is the three pieces concatenated, `n` rendered by `Display`.
#[verifier::external_body]
pub(crate) fn text_with_number(prefix: &str, n: usize, suffix: &str) -> (res: String)
    ensures
        res@ == prefix@ + decimal_text(n) + suffix@,
{
    format!("{prefix}{n}{suffix}")
}

/// Formats `prefix`, `name`, `middle`, the decimal `n`, then `suffix` (std's
/// `format!`): the pieces concatenated, `n` rendered by `Display`.
#[verifier::external_body]
pub(crate) fn text_with_name_and_number(
    prefix: &str,
    name: &str,
    middle: &str,
    n: usize,
    suffix: &str,
) -> (res: String)
    ensures
        res@ == prefix@ + name@ + middle@ + decimal_text(n) + suffix@,
{
    format!("{prefix}{name}{middle}{n}{suffix}")
}

/// Formats `prefix`, `name`, then `suffix` (std's `format!`): the three
/// pieces concatenated.
#[verifier::external_body]
pub(crate) fn text_with_name(prefix: &str, name: &str, suffix: &str) -> (res: String)
    ensures
        res@ == prefix@ + name@ + suffix@,
{
    format!("{prefix}{name}{suffix}")
}

/// The text that introduces the message of each kind of error.
pub open spec fn error_heading(e: CiError) -> Seq<char> {
    match e {
        CiError::DimensionMismatch(_) => "dimension mismatch: "@,
        CiError::DegenerateData(_) => "degenerate data: "@,
        CiError::Numeric(_) => "numeric error: "@,
        CiError::UnknownColumn(_) => "unknown column: "@,
        CiError::WrongColumnKind(_) => "wrong column kind: "@,
        CiError::MissingData(_) => "missing data: "@,
        CiError::InvalidQuery(_) => "invalid query: "@,
        CiError::InvalidConfig(_) => "invalid configuration: "@,
    }
}

/// The detail text an error carries.
pub open spec fn error_detail(e: CiError) -> Seq<char> {
    match e {
        CiError::DimensionMismatch(m) => m@,
        CiError::DegenerateData(m) => m@,
        CiError::Numeric(m) => m@,
        CiError::UnknownColumn(m) => m@,
        CiError::WrongColumnKind(m) => m@,
        CiError::MissingData(m) => m@,
        CiError::InvalidQuery(m) => m@,
        CiError::InvalidConfig(m) => m@,
    }
}

impl CiError {
    /// The human-readable message: the heading of the error's kind followed
    /// by its detail text (e.g. `unknown column: column index 9`).
    pub fn to_string(&self) -> (res: String)
        ensures
            res@ == error_heading(*self) + error_detail(*self),
    {
        proof {
            reveal_strlit("");
        }
        match self {
            CiError::DimensionMismatch(m) => text_with_name("dimension mismatch: ", m.as_str(), ""),
            CiError::DegenerateData(m) => text_with_name("degenerate data: ", m.as_str(), ""),
            CiError::Numeric(m) => text_with_name("numeric error: ", m.as_str(), ""),
            CiError::UnknownColumn(m) => text_with_name("unknown column: ", m.as_str(), ""),
            CiError::WrongColumnKind(m) => text_with_name("wrong column kind: ", m.as_str(), ""),
            CiError::MissingData(m) => text_with_name("missing data: ", m.as_str(), ""),
            CiError::InvalidQuery(m) => text_with_name("invalid query: ", m.as_str(), ""),
            CiError::InvalidConfig(m) => text_with_name("invalid configuration: ", m.as_str(), ""),
        }
    }
}

} // verus!
