//! Column bookkeeping of the Gaussian sufficient-statistic cache used by the
//! continuous tests.
//!
//! The cache stores the centered cross-product matrix over **all** continuous
//! columns of a dataset; a query names global column indices, which this
//! module maps to their dense positions among the continuous columns,
//! reporting discrete or unknown columns with the usual column errors.

use vstd::prelude::*;

use crate::dataset::Dataset;
use crate::error::{decimal_text, error_detail, text_with_number, CiError};

verus! {

/// Maximum number of continuous columns for which the full cross-product
/// matrix is cached: `2048² × 8 B = 32 MiB`.
pub const MAX_GRAM_COLS: usize = 2048;

/// Column `c` of `data` exists and is continuous.
pub open spec fn continuous_at(data: &Dataset, c: int) -> bool {
    0 <= c < data.n_cols_spec() && data.column_spec(c) is Continuous
}

/// The number of continuous columns among columns `0..c` of `data`.
pub open spec fn continuous_before(data: &Dataset, c: int) -> nat
    decreases c,
{
    if c <= 0 {
        0
    } else {
        continuous_before(data, c - 1) + if continuous_at(data, c - 1) { 1nat } else { 0nat }
    }
}

/// The dense index of column `c` counts the columns before it that are
/// continuous, and nothing else: it is the number of `j < c` whose column is
/// continuous.
pub proof fn lemma_continuous_before_counts(data: &Dataset, c: nat)
    ensures
        continuous_before(data, c as int) == Seq::new(c, |j: int| j).filter(|j: int| continuous_at(data, j)).len(),
    decreases c,
{
    reveal(Seq::filter);
    let pred = |j: int| continuous_at(data, j);
    if c > 0 {
        lemma_continuous_before_counts(data, (c - 1) as nat);
        let idx = Seq::new(c, |j: int| j);
        assert(idx.drop_last() =~= Seq::new((c - 1) as nat, |j: int| j));
        assert(idx.last() == c - 1);
    } else {
        assert(Seq::new(0, |j: int| j).filter(pred) =~= Seq::<int>::empty());
    }
}

/// A query over the cross-product matrix is possible: at least one row and
/// between 1 and [`MAX_GRAM_COLS`] continuous columns.
pub open spec fn gram_fits(n_rows: nat, p: nat) -> bool {
    n_rows > 0 && p > 0 && p <= MAX_GRAM_COLS
}

/// Whether the cross-product matrix of a dataset with `n_rows` rows and `p`
/// continuous columns is built: it needs a row, a continuous column, and at
/// most [`MAX_GRAM_COLS`] continuous columns.
pub fn gram_applicable(n_rows: usize, p: usize) -> (res: bool)
    ensures
        res == gram_fits(n_rows as nat, p as nat),
{
    n_rows > 0 && p > 0 && p <= MAX_GRAM_COLS
}

/// The detail of the error a lookup gives for column `col` of a map over
/// `n_cols` columns.
pub open spec fn dense_error_detail(n_cols: nat, col: usize) -> Seq<char> {
    if col >= n_cols {
        "column index "@ + decimal_text(col)
    } else {
        "column "@ + decimal_text(col) + " is discrete but a continuous column was required"@
    }
}

/// Column `c` has a dense index in `ix`.
pub open spec fn mapped(ix: &ContinuousIndex, c: usize) -> bool {
    c < ix.n_cols_spec() && ix.entry(c as int) is Some
}

/// The first `i` columns of `cols` all have a dense index in `ix`.
pub open spec fn mapped_before(ix: &ContinuousIndex, cols: Seq<usize>, i: int) -> bool {
    forall|j: int| 0 <= j < i ==> mapped(ix, #[trigger] cols[j])
}

/// The columns of a query, in the order they are looked up: `x`, `y`, then
/// the conditioning set.
pub open spec fn query_columns(x: usize, y: usize, z: Seq<usize>) -> Seq<usize> {
    seq![x, y] + z
}

/// Global column index → dense index among the continuous columns.
#[derive(Debug)]
pub struct ContinuousIndex {
    col_to_dense: Vec<Option<usize>>,
    p: usize,
}

impl ContinuousIndex {
    /// The number of continuous columns.
    pub closed spec fn p_spec(&self) -> nat {
        self.p as nat
    }

    /// The number of columns the map covers.
    pub closed spec fn n_cols_spec(&self) -> nat {
        self.col_to_dense@.len()
    }

    /// The dense index of column `c`, `None` for a discrete column.
    pub closed spec fn entry(&self, c: int) -> Option<usize> {
        self.col_to_dense@[c]
    }

    /// Number every continuous column of `data` by its position among the
    /// continuous columns.
    pub fn build(data: &Dataset) -> (res: Self)
        ensures
            res.n_cols_spec() == data.n_cols_spec(),
            res.p_spec() == continuous_before(data, data.n_cols_spec() as int),
            forall|c: int|
                0 <= c < res.n_cols_spec() ==> #[trigger] res.entry(c) == if continuous_at(data, c) {
                    Some(continuous_before(data, c) as usize)
                } else {
                    None
                },
    {
        let n_cols = data.n_cols();
        let mut col_to_dense: Vec<Option<usize>> = Vec::with_capacity(n_cols);
        let mut p: usize = 0;
        let mut col: usize = 0;
        while col < n_cols
            invariant
                n_cols == data.n_cols_spec(),
                col <= n_cols,
                col_to_dense@.len() == col,
                p == continuous_before(data, col as int),
                p <= col,
                forall|c: int|
                    0 <= c < col ==> #[trigger] col_to_dense@[c] == if continuous_at(data, c) {
                        Some(continuous_before(data, c) as usize)
                    } else {
                        None
                    },
            decreases n_cols - col,
        {
            match data.continuous_values(col) {
                Some(_) => {
                    col_to_dense.push(Some(p));
                    p = p + 1;
                },
                None => {
                    col_to_dense.push(None);
                },
            }
            col += 1;
        }
        ContinuousIndex { col_to_dense, p }
    }

    /// The number of continuous columns.
    pub fn p(&self) -> (res: usize)
        ensures
            res == self.p_spec(),
    {
        self.p
    }

    /// Dense index of global column `col`.
    ///
    /// Errors: [`CiError::UnknownColumn`] when `col` is out of range,
    /// [`CiError::WrongColumnKind`] when the column is discrete.
    pub fn dense(&self, col: usize) -> (res: Result<usize, CiError>)
        ensures
            col >= self.n_cols_spec() <==> res matches Err(CiError::UnknownColumn(_)),
            col < self.n_cols_spec() && self.entry(col as int) is None
                <==> res matches Err(CiError::WrongColumnKind(_)),
            col < self.n_cols_spec() && self.entry(col as int) is Some <==> res is Ok,
            res matches Ok(d) ==> self.entry(col as int) == Some(d),
            res matches Err(e) ==> error_detail(e) == dense_error_detail(self.n_cols_spec(), col),
    {
        proof {
            reveal_strlit("");
        }
        if col >= self.col_to_dense.len() {
            return Err(CiError::UnknownColumn(text_with_number("column index ", col, "")));
        }
        match self.col_to_dense[col] {
            Some(d) => Ok(d),
            None => Err(
                CiError::WrongColumnKind(
                    text_with_number("column ", col, " is discrete but a continuous column was required"),
                ),
            ),
        }
    }
    /// Dense indices of `x`, `y` and each column of `z`, looked up in that
    /// order; the first column without one decides the error.
    ///
    /// Errors: [`CiError::UnknownColumn`] when that column is out of range,
    /// [`CiError::WrongColumnKind`] when it is discrete.
    pub fn dense_query(&self, x: usize, y: usize, z: &[usize]) -> (res: Result<(usize, usize, Vec<usize>), CiError>)
        ensures
            res is Ok <==> mapped_before(self, query_columns(x, y, z@), z@.len() + 2int),
            res matches Err(CiError::UnknownColumn(_)) <==> exists|i: int|
                0 <= i < z@.len() + 2 && mapped_before(self, query_columns(x, y, z@), i)
                    && #[trigger] query_columns(x, y, z@)[i] >= self.n_cols_spec(),
            res matches Err(CiError::WrongColumnKind(_)) <==> exists|i: int|
                0 <= i < z@.len() + 2 && mapped_before(self, query_columns(x, y, z@), i)
                    && #[trigger] query_columns(x, y, z@)[i] < self.n_cols_spec()
                    && self.entry(query_columns(x, y, z@)[i] as int) is None,
            res matches Err(e) ==> exists|i: int|
                0 <= i < z@.len() + 2 && mapped_before(self, query_columns(x, y, z@), i) && error_detail(e)
                    == dense_error_detail(self.n_cols_spec(), #[trigger] query_columns(x, y, z@)[i]),
            res matches Ok((dx, dy, dz)) ==> {
                &&& self.entry(x as int) == Some(dx)
                &&& self.entry(y as int) == Some(dy)
                &&& dz@.len() == z@.len()
                &&& forall|j: int| 0 <= j < z@.len() ==> self.entry(#[trigger] z@[j] as int) == Some(dz@[j])
            },
    {
        let ghost cols = query_columns(x, y, z@);
        assert(cols[0] == x && cols[1] == y);
        let dx = match self.dense(x) {
            Ok(d) => d,
            Err(e) => {
                assert(!mapped_before(self, cols, z@.len() + 2int));
                assert(mapped_before(self, cols, 0));
                return Err(e);
            },
        };
        let dy = match self.dense(y) {
            Ok(d) => d,
            Err(e) => {
                assert(!mapped_before(self, cols, z@.len() + 2int));
                assert(mapped_before(self, cols, 1));
                proof {
                    assert forall|i: int| 0 <= i < z@.len() + 2 && mapped_before(self, cols, i) implies i <= 1 by {
                        if i > 1 {
                            assert(mapped(self, cols[1]));
                        }
                    }
                }
                return Err(e);
            },
        };
        let mut dz: Vec<usize> = Vec::with_capacity(z.len());
        let mut j: usize = 0;
        while j < z.len()
            invariant
                j <= z@.len(),
                cols == query_columns(x, y, z@),
                self.entry(x as int) == Some(dx),
                self.entry(y as int) == Some(dy),
                mapped_before(self, cols, j + 2),
                dz@.len() == j,
                forall|i: int| 0 <= i < j ==> self.entry(#[trigger] z@[i] as int) == Some(dz@[i]),
            decreases z.len() - j,
        {
            assert(cols[j + 2] == z@[j as int]);
            match self.dense(z[j]) {
                Ok(d) => {
                    dz.push(d);
                },
                Err(e) => {
                    proof {
                        assert(!mapped(self, cols[j + 2]));
                        assert forall|i: int| 0 <= i < z@.len() + 2 && mapped_before(self, cols, i) implies i <= j + 2 by {
                            if i > j + 2 {
                                assert(mapped(self, cols[j + 2]));
                            }
                        }
                        assert(!mapped_before(self, cols, z@.len() + 2int));
                    }
                    return Err(e);
                },
            }
            proof {
                assert forall|i: int| 0 <= i < j + 3 implies mapped(self, #[trigger] cols[i]) by {
                    if i < j + 2 {
                        assert(mapped(self, cols[i]));
                    }
                }
            }
            j += 1;
        }
        proof {
            assert forall|i: int| 0 <= i < z@.len() + 2 && mapped_before(self, cols, i) implies !(cols[i] >= self.n_cols_spec()) && !(cols[i] < self.n_cols_spec() && self.entry(cols[i] as int) is None) by {
                assert(mapped(self, cols[i]));
            }
        }
        Ok((dx, dy, dz))
    }
}

} // verus!
