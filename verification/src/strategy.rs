//! The data-bound conditional-independence test contract: test metadata, the
//! independence rule, and the validation every query goes through.

use vstd::prelude::*;

use crate::dataset::Dataset;
use crate::error::{decimal_text, error_detail, text_with_number, CiError};

verus! {

/// How a p-value is turned into an independence decision at level `alpha`.
#[derive(Debug, Clone, Copy, PartialEq, Eq)]
pub enum IndependenceRule {
    /// Standard null-of-independence tests: independent when `p >= alpha`.
    PValueGe,
    /// Equivalence / TOST tests: independent when `p < alpha`.
    PValueLt,
}

/// The kind of data a test consumes.
#[derive(Debug, Clone, Copy, PartialEq, Eq)]
pub enum DataType {
    /// Categorical data.
    Discrete,
    /// Numeric data.
    Continuous,
}

/// Static description of a test: its name, supported data types, whether it is
/// symmetric in `x`/`y`, and its independence rule.
#[derive(Debug, Clone, Copy, PartialEq, Eq)]
pub struct TestMeta {
    /// Stable identifier (e.g. `"chi_squared"`).
    pub name: &'static str,
    /// Data types the test supports.
    pub data_types: &'static [DataType],
    /// Whether swapping `x` and `y` leaves the result unchanged.
    pub symmetric: bool,
    /// How the p-value maps to an independence decision.
    pub rule: IndependenceRule,
}

/// The metadata shared by a family of tests: the given name, a single data
/// type, symmetric, and the given rule.
pub open spec fn meta_is(m: TestMeta, name: Seq<char>, ty: DataType, rule: IndependenceRule) -> bool {
    &&& m.name@ == name
    &&& m.data_types@ == seq![ty]
    &&& m.symmetric
    &&& m.rule == rule
}

/// Every column index of the query is a column of a dataset with `n_cols`
/// columns.
pub open spec fn query_in_range(n_cols: nat, x: usize, y: usize, z: Seq<usize>) -> bool {
    &&& x < n_cols
    &&& y < n_cols
    &&& forall|i: int| 0 <= i < z.len() ==> z[i] < n_cols
}

/// The query names two distinct columns, neither of which is conditioned on,
/// and no conditioning column twice.
pub open spec fn query_well_formed(x: usize, y: usize, z: Seq<usize>) -> bool {
    &&& x != y
    &&& !z.contains(x)
    &&& !z.contains(y)
    &&& z.no_duplicates()
}

/// The columns of a query in the order they are checked: `x`, `y`, then `z`.
pub open spec fn checked_columns(x: usize, y: usize, z: Seq<usize>) -> Seq<usize> {
    seq![x, y] + z
}

/// `i` is the first position of `cols` holding a column index of at least
/// `n_cols`.
pub open spec fn first_unknown_at(n_cols: nat, cols: Seq<usize>, i: int) -> bool {
    &&& 0 <= i < cols.len()
    &&& cols[i] >= n_cols
    &&& forall|j: int| 0 <= j < i ==> (#[trigger] cols[j]) < n_cols
}

/// `i` is the first position of `z` whose index occurs again later in `z`.
pub open spec fn first_repeat_at(z: Seq<usize>, i: int) -> bool {
    &&& 0 <= i < z.len()
    &&& exists|j: int| i < j < z.len() && z[j] == #[trigger] z[i]
    &&& forall|a: int, b: int| 0 <= a < i && a < b < z.len() ==> (#[trigger] z[a]) != #[trigger] z[b]
}

/// A well-formed query, element by element: `x` and `y` differ, no position
/// of `z` holds `x` or `y`, and no two positions of `z` hold the same column.
pub proof fn lemma_well_formed_query_elementwise(x: usize, y: usize, z: Seq<usize>)
    ensures
        query_well_formed(x, y, z) <==> {
            &&& x != y
            &&& forall|i: int| 0 <= i < z.len() ==> #[trigger] z[i] != x && z[i] != y
            &&& forall|i: int, j: int| 0 <= i < j < z.len() ==> #[trigger] z[i] != #[trigger] z[j]
        },
{
    if forall|i: int| 0 <= i < z.len() ==> #[trigger] z[i] != x && z[i] != y {
        assert(!z.contains(x));
        assert(!z.contains(y));
    }
    if z.contains(x) {
        let i = choose|i: int| 0 <= i < z.len() && z[i] == x;
    }
    if z.contains(y) {
        let i = choose|i: int| 0 <= i < z.len() && z[i] == y;
    }
    if forall|i: int, j: int| 0 <= i < j < z.len() ==> #[trigger] z[i] != #[trigger] z[j] {
        assert forall|i: int, j: int| 0 <= i < z.len() && 0 <= j < z.len() && i != j implies z[i] != z[j] by {
            if i > j {
                assert(z[j] != z[i]);
            }
        }
    }
}

/// Validate a `(x, y, z)` query against `data` before running a test.
///
/// Checks, in order: all column indices are in range
/// ([`CiError::UnknownColumn`]); `x != y`; `x`/`y` do not appear in `z`; `z`
/// has no duplicates (all [`CiError::InvalidQuery`]).
pub fn validate_query(data: &Dataset, x: usize, y: usize, z: &[usize]) -> (res: Result<(), CiError>)
    ensures
        res is Ok <==> query_in_range(data.n_cols_spec(), x, y, z@) && query_well_formed(x, y, z@),
        res matches Err(e) ==> (e is UnknownColumn <==> !query_in_range(data.n_cols_spec(), x, y, z@)),
        res matches Err(e) ==> (e is UnknownColumn || e is InvalidQuery),
        res matches Err(e) ==> (e is UnknownColumn ==> exists|i: int|
            first_unknown_at(data.n_cols_spec(), checked_columns(x, y, z@), i) && error_detail(e) == "column index "@
                + decimal_text(#[trigger] checked_columns(x, y, z@)[i])),
        res matches Err(e) ==> (e is InvalidQuery && x == y ==> error_detail(e)
            == "x and y must be different columns (both are column index "@ + decimal_text(x) + ")"@),
        res matches Err(e) ==> (e is InvalidQuery && x != y && z@.contains(x) ==> error_detail(e) == "x (column index "@
            + decimal_text(x) + ") must not appear in the conditioning set z"@),
        res matches Err(e) ==> (e is InvalidQuery && x != y && !z@.contains(x) && z@.contains(y) ==> error_detail(e)
            == "y (column index "@ + decimal_text(y) + ") must not appear in the conditioning set z"@),
        res matches Err(e) ==> (e is InvalidQuery && x != y && !z@.contains(x) && !z@.contains(y) ==> exists|i: int|
            first_repeat_at(z@, i) && error_detail(e) == "conditioning set z contains column index "@ + decimal_text(
                #[trigger] z@[i],
            ) + " more than once"@),
{
    proof {
        reveal_strlit("");
    }
    let n_cols = data.n_cols();
    if x >= n_cols {
        proof {
            let cols = checked_columns(x, y, z@);
            assert(cols[0] == x);
            assert(first_unknown_at(data.n_cols_spec(), cols, 0));
        }
        return Err(CiError::UnknownColumn(text_with_number("column index ", x, "")));
    }
    if y >= n_cols {
        proof {
            let cols = checked_columns(x, y, z@);
            assert(cols[0] == x && cols[1] == y);
            assert(first_unknown_at(data.n_cols_spec(), cols, 1));
        }
        return Err(CiError::UnknownColumn(text_with_number("column index ", y, "")));
    }
    let mut i: usize = 0;
    while i < z.len()
        invariant
            i <= z.len(),
            n_cols == data.n_cols_spec(),
            x < n_cols && y < n_cols,
            forall|j: int| 0 <= j < i ==> z@[j] < n_cols,
        decreases z.len() - i,
    {
        if z[i] >= n_cols {
            proof {
                let cols = checked_columns(x, y, z@);
                assert(cols[i + 2] == z@[i as int]);
                assert forall|j: int| 0 <= j < i + 2 implies (#[trigger] cols[j]) < data.n_cols_spec() by {
                    assert(cols[0] == x && cols[1] == y);
                    if j >= 2 {
                        assert(cols[j] == z@[j - 2]);
                    }
                }
                assert(first_unknown_at(data.n_cols_spec(), cols, i + 2));
                reveal_strlit("");
            }
            return Err(CiError::UnknownColumn(text_with_number("column index ", z[i], "")));
        }
        i += 1;
    }
    if x == y {
        return Err(CiError::InvalidQuery(text_with_number(
            "x and y must be different columns (both are column index ",
            x,
            ")",
        )));
    }
    let mut i: usize = 0;
    while i < z.len()
        invariant
            i <= z.len(),
            x < n_cols && y < n_cols && x != y,
            n_cols == data.n_cols_spec(),
            forall|j: int| 0 <= j < z.len() ==> z@[j] < n_cols,
            forall|j: int| 0 <= j < i ==> z@[j] != x,
        decreases z.len() - i,
    {
        if z[i] == x {
            proof { assert(z@.contains(x)); }
            return Err(CiError::InvalidQuery(text_with_number(
                "x (column index ",
                x,
                ") must not appear in the conditioning set z",
            )));
        }
        i += 1;
    }
    let mut i: usize = 0;
    while i < z.len()
        invariant
            i <= z.len(),
            x < n_cols && y < n_cols && x != y,
            n_cols == data.n_cols_spec(),
            forall|j: int| 0 <= j < z.len() ==> z@[j] < n_cols,
            !z@.contains(x),
            forall|j: int| 0 <= j < i ==> z@[j] != y,
        decreases z.len() - i,
    {
        if z[i] == y {
            proof { assert(z@.contains(y)); }
            return Err(CiError::InvalidQuery(text_with_number(
                "y (column index ",
                y,
                ") must not appear in the conditioning set z",
            )));
        }
        i += 1;
    }
    let mut i: usize = 0;
    while i < z.len()
        invariant
            i <= z.len(),
            x < n_cols && y < n_cols && x != y,
            n_cols == data.n_cols_spec(),
            forall|j: int| 0 <= j < z.len() ==> z@[j] < n_cols,
            !z@.contains(x) && !z@.contains(y),
            forall|a: int, b: int| 0 <= a < i && a < b < z.len() ==> z@[a] != z@[b],
        decreases z.len() - i,
    {
        let mut j: usize = i + 1;
        while j < z.len()
            invariant
                i < z.len(),
                i + 1 <= j <= z.len(),
                x < n_cols && y < n_cols && x != y,
                n_cols == data.n_cols_spec(),
                forall|j: int| 0 <= j < z.len() ==> z@[j] < n_cols,
                !z@.contains(x) && !z@.contains(y),
                forall|a: int, b: int| 0 <= a < i && a < b < z.len() ==> z@[a] != z@[b],
                forall|b: int| i < b < j ==> z@[i as int] != z@[b],
            decreases z.len() - j,
        {
            if z[j] == z[i] {
                return Err(CiError::InvalidQuery(text_with_number(
                    "conditioning set z contains column index ",
                    z[i],
                    " more than once",
                )));
            }
            j += 1;
        }
        i += 1;
    }
    Ok(())
}

} // verus!
