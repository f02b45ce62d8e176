//! Data-bound container shared by every conditional-independence test.
//!
//! A [`Dataset`] is built once from named columns. Discrete columns are
//! *factorized* up front into contiguous integer codes (`0..cardinality`) in
//! first-seen order, so the discrete tests operate on cheap `usize` codes.
//! Continuous columns keep their raw IEEE-754 bit patterns. Missing values are
//! rejected at construction ([`CiError::MissingData`]): NaN in any column, and
//! any non-finite value in a continuous column.

use vstd::prelude::*;

use crate::coding::{first_seen_codes, is_first_seen_coding};
use crate::error::{decimal_text, error_detail, text_with_name, text_with_name_and_number, text_with_number, CiError};

verus! {

/// The bit pattern of `-0.0`.
pub const NEG_ZERO_BITS: u64 = 0x8000_0000_0000_0000;
/// The exponent field of an IEEE-754 double.
pub const EXPONENT_BITS: u64 = 0x7ff0_0000_0000_0000;
/// The fraction (mantissa) field of an IEEE-754 double.
pub const MANTISSA_BITS: u64 = 0x000f_ffff_ffff_ffff;

/// The double with bit pattern `b` is a NaN: all exponent bits set and a
/// non-zero fraction.
pub open spec fn bits_are_nan(b: u64) -> bool {
    b & EXPONENT_BITS == EXPONENT_BITS && b & MANTISSA_BITS != 0
}

/// The double with bit pattern `b` is finite: not all exponent bits set.
pub open spec fn bits_are_finite(b: u64) -> bool {
    b & EXPONENT_BITS != EXPONENT_BITS
}

/// The factorization key of a value: `-0.0` and `0.0` share a key, every
/// other value keys by its own bit pattern.
pub open spec fn canonical_key(b: u64) -> u64 {
    if b == NEG_ZERO_BITS {
        0
    } else {
        b
    }
}

/// Whether a value counts as missing in a column of kind `kind`: NaN in a
/// discrete column, any non-finite value in a continuous one.
pub open spec fn value_is_missing(kind: ColumnKind, b: u64) -> bool {
    match kind {
        ColumnKind::Discrete => bits_are_nan(b),
        ColumnKind::Continuous => !bits_are_finite(b),
    }
}

/// Which values count as missing, read off the exponent (bits 52..62) and
/// fraction (bits 0..51) fields: in a continuous column exactly the
/// non-finite doubles (exponent field all ones: ±inf and NaN), in a discrete
/// column exactly the NaNs (exponent all ones, non-zero fraction). Zero,
/// subnormals and every other finite double are never missing.
pub proof fn lemma_missing_values(b: u64)
    ensures
        value_is_missing(ColumnKind::Continuous, b) <==> (b >> 52u64) & 0x7ffu64 == 0x7ffu64,
        value_is_missing(ColumnKind::Discrete, b) <==> (b >> 52u64) & 0x7ffu64 == 0x7ffu64 && b % 0x10_0000_0000_0000u64
            != 0,
        (b >> 52u64) & 0x7ffu64 != 0x7ffu64 ==> !value_is_missing(ColumnKind::Continuous, b) && !value_is_missing(
            ColumnKind::Discrete,
            b,
        ),
{
    assert((b & 0x7ff0_0000_0000_0000u64 == 0x7ff0_0000_0000_0000u64) <==> ((b >> 52u64) & 0x7ffu64 == 0x7ffu64))
        by (bit_vector);
    assert((b & 0x000f_ffff_ffff_ffffu64 != 0) <==> (b % 0x10_0000_0000_0000u64 != 0)) by (bit_vector);
}

/// Whether a column holds categorical (discrete) or numeric (continuous) data.
#[derive(Debug, Clone, Copy, PartialEq, Eq)]
pub enum ColumnKind {
    /// Categorical data; values are factorized into integer codes.
    Discrete,
    /// Numeric data; values are kept as their raw bit patterns.
    Continuous,
}

/// Stored representation of a single column.
#[derive(Debug)]
pub enum Column {
    /// Factorized discrete column: per-row codes plus the number of distinct
    /// categories.
    Discrete { codes: Vec<usize>, cardinality: usize },
    /// Raw continuous column (IEEE-754 bit patterns).
    Continuous { values: Vec<u64> },
}

impl Column {
    /// Number of rows the column holds.
    pub open spec fn len_spec(&self) -> nat {
        match self {
            Column::Discrete { codes, .. } => codes@.len(),
            Column::Continuous { values } => values@.len(),
        }
    }

    /// Every code of a discrete column is below its cardinality.
    pub open spec fn codes_in_range(&self) -> bool {
        match self {
            Column::Discrete { codes, cardinality } => forall|j: int|
                0 <= j < codes@.len() ==> #[trigger] codes@[j] < *cardinality,
            Column::Continuous { .. } => true,
        }
    }
}

/// A named, typed, immutable table of columns.
///
/// Build one with [`Dataset::from_columns`]; tests then refer to columns by
/// their integer index (see [`Dataset::index_of`]).
#[derive(Debug)]
pub struct Dataset {
    names: Vec<String>,
    columns: Vec<Column>,
    n_rows: usize,
}

/// `a` and `b` hold the same data.
pub open spec fn same_column(a: Column, b: Column) -> bool {
    match (a, b) {
        (Column::Discrete { codes: ca, cardinality: ka }, Column::Discrete { codes: cb, cardinality: kb }) =>
            ca@ == cb@ && ka == kb,
        (Column::Continuous { values: va }, Column::Continuous { values: vb }) => va@ == vb@,
        _ => false,
    }
}

impl Clone for Column {
    fn clone(&self) -> (res: Self)
        ensures
            same_column(res, *self),
    {
        match self {
            Column::Discrete { codes, cardinality } => {
                let c = codes.clone();
                proof {
                    assert(c@ =~= codes@);
                }
                Column::Discrete { codes: c, cardinality: *cardinality }
            },
            Column::Continuous { values } => {
                let v = values.clone();
                proof {
                    assert(v@ =~= values@);
                }
                Column::Continuous { values: v }
            },
        }
    }
}

impl Clone for Dataset {
    /// Clones the column data.
    fn clone(&self) -> (res: Self)
        ensures
            res.n_rows_spec() == self.n_rows_spec(),
            res.n_cols_spec() == self.n_cols_spec(),
            forall|i: int| 0 <= i < self.n_cols_spec() ==> #[trigger] res.name_spec(i) == self.name_spec(i),
            forall|i: int| 0 <= i < self.n_cols_spec() ==> same_column(#[trigger] res.column_spec(i), self.column_spec(i)),
    {
        proof {
            use_type_invariant(self);
        }
        let names = self.names.clone();
        let mut columns: Vec<Column> = Vec::with_capacity(self.columns.len());
        let mut i: usize = 0;
        while i < self.columns.len()
            invariant
                i <= self.columns@.len(),
                columns@.len() == i,
                forall|k: int| 0 <= k < i ==> same_column(#[trigger] columns@[k], self.columns@[k]),
            decreases self.columns.len() - i,
        {
            columns.push(self.columns[i].clone());
            i += 1;
        }
        proof {
            assert(names@ =~= self.names@);
            assert forall|k: int| 0 <= k < columns@.len() implies (#[trigger] columns@[k]).len_spec() == self.n_rows
                && columns@[k].codes_in_range() by {
                assert(same_column(columns@[k], self.columns@[k]));
                assert(self.columns@[k].len_spec() == self.n_rows);
                assert(self.columns@[k].codes_in_range());
            }
        }
        Dataset { names, columns, n_rows: self.n_rows }
    }
}

/// The length every column must share: that of the first column, or 0.
pub open spec fn expected_len(cols: Seq<(String, ColumnKind, Vec<u64>)>) -> nat {
    if cols.len() == 0 {
        0
    } else {
        cols[0].2@.len()
    }
}

/// All columns have the same length.
pub open spec fn lengths_agree(cols: Seq<(String, ColumnKind, Vec<u64>)>) -> bool {
    forall|i: int| 0 <= i < cols.len() ==> (#[trigger] cols[i]).2@.len() == expected_len(cols)
}

/// Column `i` holds a missing value (for its kind).
pub open spec fn column_has_missing(cols: Seq<(String, ColumnKind, Vec<u64>)>, i: int) -> bool {
    exists|j: int| 0 <= j < cols[i].2@.len() && value_is_missing(cols[i].1, #[trigger] cols[i].2@[j])
}

/// Column `i` repeats the name of an earlier column.
pub open spec fn column_name_repeats(cols: Seq<(String, ColumnKind, Vec<u64>)>, i: int) -> bool {
    exists|j: int| 0 <= j < i && (#[trigger] cols[j]).0@ == cols[i].0@
}

/// Column `i` is refused: it holds a missing value or repeats a name.
pub open spec fn column_refused(cols: Seq<(String, ColumnKind, Vec<u64>)>, i: int) -> bool {
    column_has_missing(cols, i) || column_name_repeats(cols, i)
}

/// `row` is the first row of `values` holding a missing value for `kind`.
pub open spec fn first_missing_at(kind: ColumnKind, values: Seq<u64>, row: int) -> bool {
    &&& 0 <= row < values.len()
    &&& value_is_missing(kind, values[row])
    &&& forall|j: int| 0 <= j < row ==> !value_is_missing(kind, #[trigger] values[j])
}

/// The message of a column refused for a missing value at `row`.
pub open spec fn missing_message(name: Seq<char>, row: int) -> Seq<char> {
    "column `"@ + name + "` contains NaN/missing values (first at row "@ + decimal_text(row as usize)
        + "); remove or impute before building the Dataset"@
}

/// The message of a column that repeats an earlier name.
pub open spec fn repeat_message(name: Seq<char>) -> Seq<char> {
    "duplicate column name `"@ + name + "`; column names must be unique"@
}

/// The message of a column whose length differs from the first column's.
pub open spec fn length_message(name: Seq<char>, len: nat, expected: nat) -> Seq<char> {
    "column `"@ + name + "` has length "@ + decimal_text(len as usize) + " but expected "@ + decimal_text(
        expected as usize,
    )
}

/// `i` is the first column whose length differs from the first column's.
pub open spec fn first_length_mismatch(cols: Seq<(String, ColumnKind, Vec<u64>)>, i: int) -> bool {
    &&& 0 <= i < cols.len()
    &&& cols[i].2@.len() != expected_len(cols)
    &&& forall|j: int| 0 <= j < i ==> (#[trigger] cols[j]).2@.len() == expected_len(cols)
}

/// The detail of the error `discrete` gives for column `index`: unknown
/// when out of range, otherwise of the wrong kind.
pub open spec fn discrete_error_detail(n_cols: nat, index: usize) -> Seq<char> {
    if index >= n_cols {
        "column index "@ + decimal_text(index)
    } else {
        "column "@ + decimal_text(index) + " is continuous but a discrete column was required"@
    }
}

/// The factorization keys of a column's values.
pub open spec fn canonical_keys(values: Seq<u64>) -> Seq<u64> {
    values.map_values(|b: u64| canonical_key(b))
}

/// `column` is what `from_columns` stores for the input `(kind, values)`:
/// the first-seen coding of the canonical keys for a discrete column, the
/// values themselves for a continuous one.
pub open spec fn column_stores(column: Column, kind: ColumnKind, values: Seq<u64>) -> bool {
    match kind {
        ColumnKind::Discrete => match column {
            Column::Discrete { codes, cardinality } => is_first_seen_coding(
                canonical_keys(values),
                codes@,
                cardinality as nat,
            ),
            Column::Continuous { .. } => false,
        },
        ColumnKind::Continuous => match column {
            Column::Continuous { values: v } => v@ == values,
            Column::Discrete { .. } => false,
        },
    }
}

/// The factorization key of a value: `-0.0` and `0.0` share a key.
pub fn canonical_bits(v: u64) -> (res: u64)
    ensures
        res == canonical_key(v),
{
    if v == NEG_ZERO_BITS {
        0
    } else {
        v
    }
}

/// Whether the value with bit pattern `v` is missing in a column of `kind`.
pub fn is_missing(kind: ColumnKind, v: u64) -> (res: bool)
    ensures
        res == value_is_missing(kind, v),
{
    match kind {
        ColumnKind::Discrete => v & EXPONENT_BITS == EXPONENT_BITS && v & MANTISSA_BITS != 0,
        ColumnKind::Continuous => v & EXPONENT_BITS == EXPONENT_BITS,
    }
}

/// First row of `values` holding a missing value for `kind`, if any.
fn first_missing(kind: ColumnKind, values: &Vec<u64>) -> (res: Option<usize>)
    ensures
        match res {
            Some(j) => first_missing_at(kind, values@, j as int),
            None => forall|j: int| 0 <= j < values@.len() ==> !value_is_missing(kind, #[trigger] values@[j]),
        },
{
    let mut j: usize = 0;
    while j < values.len()
        invariant
            j <= values@.len(),
            forall|k: int| 0 <= k < j ==> !value_is_missing(kind, #[trigger] values@[k]),
        decreases values.len() - j,
    {
        if is_missing(kind, values[j]) {
            return Some(j);
        }
        j += 1;
    }
    None
}

/// Factorize a discrete column's values into first-seen codes.
fn factorize(values: &Vec<u64>) -> (res: Column)
    ensures
        column_stores(res, ColumnKind::Discrete, values@),
        res.len_spec() == values@.len(),
        res.codes_in_range(),
{
    let mut keys: Vec<u64> = Vec::with_capacity(values.len());
    let mut j: usize = 0;
    while j < values.len()
        invariant
            j <= values@.len(),
            keys@ == canonical_keys(values@).take(j as int),
        decreases values.len() - j,
    {
        keys.push(canonical_bits(values[j]));
        proof {
            assert(canonical_keys(values@).take(j as int + 1) =~= canonical_keys(values@).take(j as int).push(canonical_key(values@[j as int])));
        }
        j += 1;
    }
    proof {
        assert(canonical_keys(values@).take(values@.len() as int) =~= canonical_keys(values@));
    }
    let (codes, cardinality) = first_seen_codes(keys.as_slice());
    Column::Discrete { codes, cardinality }
}

impl Dataset {
    /// The internal consistency of a dataset: one name per column, every
    /// column `n_rows` long, every code below its column's cardinality, and
    /// no name twice.
    #[verifier::type_invariant]
    spec fn inv(&self) -> bool {
        &&& self.names@.len() == self.columns@.len()
        &&& forall|i: int| 0 <= i < self.columns@.len() ==> (#[trigger] self.columns@[i]).len_spec() == self.n_rows
        &&& forall|i: int| 0 <= i < self.columns@.len() ==> (#[trigger] self.columns@[i]).codes_in_range()
        &&& forall|i: int, j: int|
            0 <= i < j < self.names@.len() ==> (#[trigger] self.names@[i])@ != (#[trigger] self.names@[j])@
    }

    /// Number of rows.
    pub closed spec fn n_rows_spec(&self) -> nat {
        self.n_rows as nat
    }

    /// Number of columns.
    pub closed spec fn n_cols_spec(&self) -> nat {
        self.columns@.len()
    }

    /// Name of column `i`.
    pub closed spec fn name_spec(&self, i: int) -> Seq<char> {
        self.names@[i]@
    }

    /// Stored data of column `i`.
    pub closed spec fn column_spec(&self, i: int) -> Column {
        self.columns@[i]
    }

    /// Build a dataset from `(name, kind, values)` triples, `values` given as
    /// IEEE-754 bit patterns.
    ///
    /// Discrete columns are factorized into contiguous codes
    /// (`0..cardinality`) in first-seen order; `-0.0`/`0.0` are grouped
    /// together. Continuous columns store their raw values.
    ///
    /// Errors: [`CiError::DimensionMismatch`] if the columns do not all share
    /// a common length; otherwise, for the first column that is refused,
    /// [`CiError::MissingData`] if it holds a missing value (NaN in a
    /// discrete column, NaN or ±inf in a continuous one), else
    /// [`CiError::DimensionMismatch`] because it repeats an earlier name.
    pub fn from_columns(cols: Vec<(String, ColumnKind, Vec<u64>)>) -> (res: Result<Self, CiError>)
        ensures
            !lengths_agree(cols@) ==> res matches Err(CiError::DimensionMismatch(_)),
            !lengths_agree(cols@) ==> (res matches Err(e) ==> exists|i: int|
                first_length_mismatch(cols@, i) && error_detail(e) == length_message(
                    #[trigger] cols@[i].0@,
                    cols@[i].2@.len(),
                    expected_len(cols@),
                )),
            res is Ok <==> lengths_agree(cols@) && forall|i: int| 0 <= i < cols@.len() ==> !column_refused(cols@, i),
            lengths_agree(cols@) ==> (res matches Err(e) ==> exists|i: int|
                0 <= i < cols@.len() && column_refused(cols@, i)
                && (forall|j: int| 0 <= j < i ==> !column_refused(cols@, j))
                && (e is MissingData <==> column_has_missing(cols@, i))
                && (e is DimensionMismatch <==> !column_has_missing(cols@, i))
                && (e is MissingData ==> exists|row: int| first_missing_at(cols@[i].1, cols@[i].2@, row)
                    && error_detail(e) == missing_message(cols@[i].0@, row))
                && (e is DimensionMismatch ==> error_detail(e) == repeat_message(cols@[i].0@))),
            res matches Ok(ds) ==> {
                &&& ds.n_rows_spec() == expected_len(cols@)
                &&& ds.n_cols_spec() == cols@.len()
                &&& forall|i: int| 0 <= i < cols@.len() ==> #[trigger] ds.name_spec(i) == cols@[i].0@
                &&& forall|i: int| 0 <= i < cols@.len() ==> column_stores(#[trigger] ds.column_spec(i), cols@[i].1, cols@[i].2@)
            },
    {
        let n_rows: usize = if cols.len() == 0 { 0 } else { cols[0].2.len() };
        let mut i: usize = 0;
        while i < cols.len()
            invariant
                i <= cols@.len(),
                n_rows == expected_len(cols@),
                forall|k: int| 0 <= k < i ==> (#[trigger] cols@[k]).2@.len() == n_rows,
            decreases cols.len() - i,
        {
            if cols[i].2.len() != n_rows {
                let head = text_with_name_and_number(
                    "column `",
                    cols[i].0.as_str(),
                    "` has length ",
                    cols[i].2.len(),
                    " but expected ",
                );
                let msg = text_with_number(head.as_str(), n_rows, "");
                proof {
                    reveal_strlit("");
                    assert(first_length_mismatch(cols@, i as int));
                    assert(msg@ == length_message(cols@[i as int].0@, cols@[i as int].2@.len(), expected_len(cols@)));
                }
                return Err(CiError::DimensionMismatch(msg));
            }
            i += 1;
        }

        proof {
            assert(lengths_agree(cols@));
        }
        let ghost input = cols@;
        let total = cols.len();
        let mut names: Vec<String> = Vec::with_capacity(cols.len());
        let mut columns: Vec<Column> = Vec::with_capacity(cols.len());
        // Reverse the columns so that popping yields them in input order.
        let mut source = cols;
        let mut rest: Vec<(String, ColumnKind, Vec<u64>)> = Vec::with_capacity(source.len());
        while source.len() > 0
            invariant
                source@.len() + rest@.len() == input.len(),
                input == cols@,
                lengths_agree(input),
                n_rows == expected_len(input),
                forall|k: int| 0 <= k < source@.len() ==> #[trigger] source@[k] == input[k],
                forall|k: int| 0 <= k < rest@.len() ==> #[trigger] rest@[k] == input[input.len() - 1 - k],
            decreases source.len(),
        {
            let col = source.pop().unwrap();
            rest.push(col);
        }
        let mut idx: usize = 0;
        while rest.len() > 0
            invariant
                idx <= input.len(),
                input == cols@,
                input.len() == total,
                rest@.len() == input.len() - idx,
                forall|k: int| 0 <= k < rest@.len() ==> #[trigger] rest@[k] == input[input.len() - 1 - k],
                lengths_agree(input),
                n_rows == expected_len(input),
                names@.len() == idx,
                columns@.len() == idx,
                forall|k: int| 0 <= k < idx ==> !column_refused(input, k),
                forall|a: int, b: int| 0 <= a < b < idx ==> (#[trigger] names@[a])@ != (#[trigger] names@[b])@,
                forall|k: int| 0 <= k < idx ==> (#[trigger] names@[k])@ == input[k].0@,
                forall|k: int| 0 <= k < idx ==> column_stores(#[trigger] columns@[k], input[k].1, input[k].2@),
                forall|k: int| 0 <= k < idx ==> (#[trigger] columns@[k]).len_spec() == n_rows,
                forall|k: int| 0 <= k < idx ==> (#[trigger] columns@[k]).codes_in_range(),
            decreases rest.len(),
        {
            let (name, kind, values) = rest.pop().unwrap();
            proof {
                assert((name, kind, values) == input[idx as int]);
                assert(rest@.len() == input.len() - idx - 1);
            }
            if let Some(row) = first_missing(kind, &values) {
                proof {
                    assert(value_is_missing(input[idx as int].1, input[idx as int].2@[row as int]));
                    assert(column_has_missing(input, idx as int));
                    assert(column_refused(input, idx as int));
                }
                let msg = text_with_name_and_number(
                    "column `",
                    name.as_str(),
                    "` contains NaN/missing values (first at row ",
                    row,
                    "); remove or impute before building the Dataset",
                );
                proof {
                    assert(first_missing_at(input[idx as int].1, input[idx as int].2@, row as int));
                    assert(msg@ == missing_message(input[idx as int].0@, row as int));
                }
                return Err(CiError::MissingData(msg));
            }
            proof {
                assert(!column_has_missing(input, idx as int));
            }
            let mut k: usize = 0;
            #[verifier::loop_isolation(false)]
            while k < names.len()
                invariant
                    k <= names@.len(),
                    idx < input.len(),
                    names@.len() == idx,
                    name@ == input[idx as int].0@,
                    kind == input[idx as int].1,
                    values@ == input[idx as int].2@,
                    !column_has_missing(input, idx as int),
                    forall|m: int| 0 <= m < idx ==> !column_refused(input, m),
                    forall|m: int| 0 <= m < idx ==> (#[trigger] names@[m])@ == input[m].0@,
                    forall|m: int| 0 <= m < k ==> input[m].0@ != input[idx as int].0@,
                decreases names.len() - k,
            {
                if names[k] == name {
                    proof {
                        assert(input[k as int].0@ == input[idx as int].0@);
                        assert(column_name_repeats(input, idx as int));
                        assert(column_refused(input, idx as int));
                    }
                    let msg = text_with_name(
                        "duplicate column name `",
                        name.as_str(),
                        "`; column names must be unique",
                    );
                    return Err(CiError::DimensionMismatch(msg));
                }
                k += 1;
            }
            proof {
                assert(!column_name_repeats(input, idx as int));
                assert(!column_has_missing(input, idx as int));
                assert(values@.len() == n_rows);
            }
            let column = match kind {
                ColumnKind::Continuous => Column::Continuous { values },
                ColumnKind::Discrete => factorize(&values),
            };
            let ghost old_names = names@;
            names.push(name);
            columns.push(column);
            proof {
                assert forall|a: int, b: int| 0 <= a < b < idx + 1 implies (#[trigger] names@[a])@ != (#[trigger] names@[b])@ by {
                    if b == idx {
                        assert(names@[a] == old_names[a]);
                        assert(input[a].0@ != input[idx as int].0@);
                    } else {
                        assert(names@[a] == old_names[a]);
                        assert(names@[b] == old_names[b]);
                    }
                }
            }
            idx += 1;
        }
        proof {
            assert(names@.len() == columns@.len());
            assert(forall|i: int| 0 <= i < columns@.len() ==> (#[trigger] columns@[i]).len_spec() == n_rows);
            assert(forall|i: int| 0 <= i < columns@.len() ==> (#[trigger] columns@[i]).codes_in_range());
            assert(forall|i: int, j: int| 0 <= i < j < names@.len() ==> (#[trigger] names@[i])@ != (#[trigger] names@[j])@);
        }
        Ok(Dataset { names, columns, n_rows })
    }

    /// Number of rows (observations).
    pub fn n_rows(&self) -> (res: usize)
        ensures
            res == self.n_rows_spec(),
    {
        self.n_rows
    }

    /// Number of columns.
    pub fn n_cols(&self) -> (res: usize)
        ensures
            res == self.n_cols_spec(),
    {
        self.columns.len()
    }

    /// Name of the column at `index`, if any.
    pub fn name_of(&self, index: usize) -> (res: Option<&str>)
        ensures
            match res {
                Some(s) => index < self.n_cols_spec() && s@ == self.name_spec(index as int),
                None => index >= self.n_cols_spec(),
            },
    {
        proof {
            use_type_invariant(self);
        }
        if index < self.names.len() {
            Some(self.names[index].as_str())
        } else {
            None
        }
    }

    /// Index of the column named `name`, if present.
    pub fn index_of(&self, name: &str) -> (res: Option<usize>)
        ensures
            match res {
                Some(i) => i < self.n_cols_spec() && self.name_spec(i as int) == name@,
                None => forall|i: int| 0 <= i < self.n_cols_spec() ==> self.name_spec(i) != name@,
            },
    {
        proof {
            use_type_invariant(self);
        }
        let wanted = name.to_owned();
        let mut i: usize = 0;
        while i < self.names.len()
            invariant
                i <= self.names@.len(),
                self.names@.len() == self.columns@.len(),
                wanted@ == name@,
                forall|k: int| 0 <= k < i ==> self.names@[k]@ != name@,
            decreases self.names.len() - i,
        {
            let same = self.names[i] == wanted;
            if same {
                proof {
                    assert(self.names@[i as int]@ == wanted@);
                }
                return Some(i);
            }
            i += 1;
        }
        None
    }

    /// Read a discrete column as `(codes, cardinality)`.
    ///
    /// Errors: [`CiError::UnknownColumn`] if `index` is out of range,
    /// [`CiError::WrongColumnKind`] if the column is continuous.
    pub fn discrete(&self, index: usize) -> (res: Result<(&[usize], usize), CiError>)
        ensures
            index >= self.n_cols_spec() <==> res matches Err(CiError::UnknownColumn(_)),
            index < self.n_cols_spec() && self.column_spec(index as int) is Continuous
                <==> res matches Err(CiError::WrongColumnKind(_)),
            res is Ok <==> index < self.n_cols_spec() && self.column_spec(index as int) is Discrete,
            res matches Err(e) ==> error_detail(e) == discrete_error_detail(self.n_cols_spec(), index),
            res matches Ok((codes, card)) ==> {
                &&& index < self.n_cols_spec()
                &&& (self.column_spec(index as int) matches Column::Discrete { codes: c, cardinality }
                    && c@ == codes@ && cardinality == card)
                &&& codes@.len() == self.n_rows_spec()
                &&& forall|j: int| 0 <= j < codes@.len() ==> #[trigger] codes@[j] < card
            },
    {
        proof {
            use_type_invariant(self);
        }
        proof {
            reveal_strlit("");
        }
        if index >= self.columns.len() {
            return Err(CiError::UnknownColumn(text_with_number("column index ", index, "")));
        }
        match &self.columns[index] {
            Column::Discrete { codes, cardinality } => {
                proof {
                    assert(self.columns@[index as int].codes_in_range());
                }
                Ok((codes.as_slice(), *cardinality))
            },
            Column::Continuous { .. } => Err(CiError::WrongColumnKind(text_with_number(
                "column ",
                index,
                " is continuous but a discrete column was required",
            ))),
        }
    }

    /// The values (bit patterns) of the column at `index` when it is
    /// continuous, or `None` when the index is out of range or the column is
    /// discrete.
    pub fn continuous_values(&self, index: usize) -> (res: Option<&[u64]>)
        ensures
            match res {
                Some(v) => index < self.n_cols_spec() && v@.len() == self.n_rows_spec()
                    && (self.column_spec(index as int) matches Column::Continuous { values } && values@ == v@),
                None => index >= self.n_cols_spec() || self.column_spec(index as int) is Discrete,
            },
    {
        proof {
            use_type_invariant(self);
        }
        if index >= self.columns.len() {
            return None;
        }
        match &self.columns[index] {
            Column::Continuous { values } => Some(values.as_slice()),
            Column::Discrete { .. } => None,
        }
    }
}

} // verus!
