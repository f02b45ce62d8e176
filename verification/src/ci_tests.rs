//! The configurations and metadata of the built-in conditional-independence
//! tests.
//!
//! Five discrete power-divergence tests ([`ChiSquared`], [`LogLikelihood`],
//! [`CressieRead`], [`FreemanTukey`], [`ModifiedLikelihood`]) differ only in
//! the `λ` that selects the family member and share a `yates` flag; the
//! continuous tests ([`PearsonCorrelation`], [`FisherZ`], and the Pearson
//! equivalence test) work on the partial correlation.

use vstd::prelude::*;

use crate::error::{decimal_text, error_detail, text_with_name, text_with_number, CiError};
use crate::strategy::{meta_is, DataType, IndependenceRule, TestMeta};

verus! {

/// The [`TestMeta`] common to every discrete power-divergence test: the given
/// stable `name`, `[Discrete]`, symmetric, and the standard
/// null-of-independence rule [`IndependenceRule::PValueGe`].
pub fn discrete_meta(name: &'static str) -> (res: TestMeta)
    ensures
        meta_is(res, name@, DataType::Discrete, IndependenceRule::PValueGe),
{
    let data_types: &'static [DataType] = &[DataType::Discrete];
    assert(data_types@ =~= seq![DataType::Discrete]);
    TestMeta { name, data_types, symmetric: true, rule: IndependenceRule::PValueGe }
}

/// The [`TestMeta`] of a continuous test with the given name and rule.
fn continuous_meta(name: &'static str, rule: IndependenceRule) -> (res: TestMeta)
    ensures
        meta_is(res, name@, DataType::Continuous, rule),
{
    let data_types: &'static [DataType] = &[DataType::Continuous];
    assert(data_types@ =~= seq![DataType::Continuous]);
    TestMeta { name, data_types, symmetric: true, rule }
}

/// Pearson chi-squared test for discrete data (power divergence with `λ = 1`).
///
/// When `yates` is set, Yates' continuity correction is applied on 2×2
/// (sub-)tables. Cramér's V is reported as the effect size.
#[derive(Debug, Clone, Copy, PartialEq, Eq)]
pub struct ChiSquared {
    /// Whether to apply Yates' continuity correction on 2×2 (sub-)tables.
    pub yates: bool,
}

/// Log-likelihood ratio (G-test) for discrete data (power divergence with
/// `λ = 0`).
#[derive(Debug, Clone, Copy, PartialEq, Eq)]
pub struct LogLikelihood {
    /// Whether to apply Yates' continuity correction on 2×2 (sub-)tables.
    pub yates: bool,
}

/// Cressie-Read power-divergence test for discrete data (`λ = 2/3`).
#[derive(Debug, Clone, Copy, PartialEq, Eq)]
pub struct CressieRead {
    /// Whether to apply Yates' continuity correction on 2×2 (sub-)tables.
    pub yates: bool,
}

/// Freeman-Tukey power-divergence test for discrete data (`λ = −1/2`).
#[derive(Debug, Clone, Copy, PartialEq, Eq)]
pub struct FreemanTukey {
    /// Whether to apply Yates' continuity correction on 2×2 (sub-)tables.
    pub yates: bool,
}

/// Modified log-likelihood (Neyman) power-divergence test for discrete data
/// (`λ = −1`).
#[derive(Debug, Clone, Copy, PartialEq, Eq)]
pub struct ModifiedLikelihood {
    /// Whether to apply Yates' continuity correction on 2×2 (sub-)tables.
    pub yates: bool,
}

impl ChiSquared {
    /// Construct the test with Yates' continuity correction enabled (the
    /// scipy/pgmpy default).
    pub fn new() -> (res: Self)
        ensures
            res.yates,
    {
        ChiSquared { yates: true }
    }

    /// Static metadata describing this test.
    pub fn meta(&self) -> (res: TestMeta)
        ensures
            meta_is(res, "chi_squared"@, DataType::Discrete, IndependenceRule::PValueGe),
    {
        discrete_meta("chi_squared")
    }
}

impl Default for ChiSquared {
    fn default() -> (res: Self)
        ensures
            res.yates,
    {
        Self::new()
    }
}

impl LogLikelihood {
    /// Construct the test with Yates' continuity correction enabled.
    pub fn new() -> (res: Self)
        ensures
            res.yates,
    {
        LogLikelihood { yates: true }
    }

    /// Static metadata describing this test.
    pub fn meta(&self) -> (res: TestMeta)
        ensures
            meta_is(res, "log_likelihood"@, DataType::Discrete, IndependenceRule::PValueGe),
    {
        discrete_meta("log_likelihood")
    }
}

impl Default for LogLikelihood {
    fn default() -> (res: Self)
        ensures
            res.yates,
    {
        Self::new()
    }
}

impl CressieRead {
    /// Construct the test with Yates' continuity correction enabled.
    pub fn new() -> (res: Self)
        ensures
            res.yates,
    {
        CressieRead { yates: true }
    }

    /// Static metadata describing this test.
    pub fn meta(&self) -> (res: TestMeta)
        ensures
            meta_is(res, "cressie_read"@, DataType::Discrete, IndependenceRule::PValueGe),
    {
        discrete_meta("cressie_read")
    }
}

impl Default for CressieRead {
    fn default() -> (res: Self)
        ensures
            res.yates,
    {
        Self::new()
    }
}

impl FreemanTukey {
    /// Construct the test with Yates' continuity correction enabled.
    pub fn new() -> (res: Self)
        ensures
            res.yates,
    {
        FreemanTukey { yates: true }
    }

    /// Static metadata describing this test.
    pub fn meta(&self) -> (res: TestMeta)
        ensures
            meta_is(res, "freeman_tukey"@, DataType::Discrete, IndependenceRule::PValueGe),
    {
        discrete_meta("freeman_tukey")
    }
}

impl Default for FreemanTukey {
    fn default() -> (res: Self)
        ensures
            res.yates,
    {
        Self::new()
    }
}

impl ModifiedLikelihood {
    /// Construct the test with Yates' continuity correction enabled.
    pub fn new() -> (res: Self)
        ensures
            res.yates,
    {
        ModifiedLikelihood { yates: true }
    }

    /// Static metadata describing this test.
    pub fn meta(&self) -> (res: TestMeta)
        ensures
            meta_is(res, "modified_likelihood"@, DataType::Discrete, IndependenceRule::PValueGe),
    {
        discrete_meta("modified_likelihood")
    }
}

impl Default for ModifiedLikelihood {
    fn default() -> (res: Self)
        ensures
            res.yates,
    {
        Self::new()
    }
}

/// Pearson correlation test. With a non-empty conditioning set it reports the
/// partial correlation given Z.
#[derive(Debug, Clone, Copy, Default, PartialEq, Eq)]
pub struct PearsonCorrelation;

impl PearsonCorrelation {
    /// Construct the test (no configuration).
    pub fn new() -> (res: Self) {
        PearsonCorrelation
    }

    /// Static metadata describing this test.
    pub fn meta(&self) -> (res: TestMeta)
        ensures
            meta_is(res, "pearson_correlation"@, DataType::Continuous, IndependenceRule::PValueGe),
    {
        continuous_meta("pearson_correlation", IndependenceRule::PValueGe)
    }
}

/// Fisher-z test on the (partial) correlation: `z = √(n − |Z| − 3) · atanh(ρ)`
/// is approximately standard normal under `X ⊥ Y | Z`.
#[derive(Debug, Clone, Copy, Default, PartialEq, Eq)]
pub struct FisherZ;

impl FisherZ {
    /// Construct the test (no configuration).
    pub fn new() -> (res: Self) {
        FisherZ
    }

    /// Static metadata describing this test.
    pub fn meta(&self) -> (res: TestMeta)
        ensures
            meta_is(res, "fisher_z"@, DataType::Continuous, IndependenceRule::PValueGe),
    {
        continuous_meta("fisher_z", IndependenceRule::PValueGe)
    }
}

/// Metadata of the Pearson equivalence (TOST) test: a *low* p-value declares
/// independence, so its rule is [`IndependenceRule::PValueLt`].
pub fn pearson_equivalence_meta() -> (res: TestMeta)
    ensures
        meta_is(res, "pearson_equivalence"@, DataType::Continuous, IndependenceRule::PValueLt),
{
    continuous_meta("pearson_equivalence", IndependenceRule::PValueLt)
}

/// The "input is constant; Pearson correlation is undefined" error for input
/// `which` (`"x"` or `"y"`).
pub fn constant_input_error(which: &str) -> (res: CiError)
    ensures
        res is DegenerateData,
        error_detail(res) == "input `"@ + which@ + "` is constant; Pearson correlation is undefined"@,
{
    CiError::DegenerateData(text_with_name("input `", which, "` is constant; Pearson correlation is undefined"))
}

/// Enforce the minimum row count for a (partial) correlation: 3 rows
/// unconditionally, or `|Z| + 3` when conditioning on `n_z` columns — that
/// is, `n_z + 3` rows in either case.
pub fn check_row_count(n: usize, n_z: usize) -> (res: Result<(), CiError>)
    requires
        n_z + 3 <= usize::MAX,
    ensures
        res is Ok <==> n >= n_z + 3,
        res matches Err(e) ==> e is DegenerateData,
        res matches Err(e) ==> error_detail(e) == if n_z == 0 {
            "need at least 3 rows for correlation, got "@ + decimal_text(n)
        } else {
            "need at least |Z| + 3 = "@ + decimal_text((n_z + 3) as usize) + " rows, got "@ + decimal_text(n)
        },
{
    proof {
        reveal_strlit("");
    }
    if n_z == 0 {
        if n < 3 {
            return Err(CiError::DegenerateData(text_with_number(
                "need at least 3 rows for correlation, got ",
                n,
                "",
            )));
        }
    } else if n < n_z + 3 {
        let head = text_with_number("need at least |Z| + 3 = ", n_z + 3, " rows, got ");
        return Err(CiError::DegenerateData(text_with_number(head.as_str(), n, "")));
    }
    Ok(())
}

} // verus!
